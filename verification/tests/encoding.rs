use trie::experiment6_fst_bitvec::{
    ascii_to_6, encode_6_bits, key_order, reversed_less, Machine, MachineMap,
};
use trie::{DomainLookup, InsertResult, RemoveResult};

#[test]
fn codes_follow_the_table() {
    assert_eq!(ascii_to_6(b'A'), 0);
    assert_eq!(ascii_to_6(b'Z'), 25);
    assert_eq!(ascii_to_6(b'a'), 0);
    assert_eq!(ascii_to_6(b'z'), 25);
    assert_eq!(ascii_to_6(b'0'), 26);
    assert_eq!(ascii_to_6(b'9'), 35);
    assert_eq!(ascii_to_6(b'-'), 37);
    assert_eq!(ascii_to_6(b'.'), 38);
    assert_eq!(ascii_to_6(b'_'), 39);
    assert_eq!(ascii_to_6(b'*'), 40);
}

#[test]
fn codes_are_packed_six_bits_each() {
    assert_eq!(encode_6_bits(b""), Vec::<u8>::new());
    assert_eq!(encode_6_bits(b"a"), vec![0x00]);
    assert_eq!(encode_6_bits(b"*"), vec![0xA0]);
    assert_eq!(encode_6_bits(b"b."), vec![0x06, 0x60]);
    assert_eq!(encode_6_bits(b"AZ09"), vec![0x01, 0x96, 0xA3]);
    assert_eq!(encode_6_bits(b"az09"), vec![0x01, 0x96, 0xA3]);
    assert_eq!(encode_6_bits(b"moc.a").len(), 4);
    assert_ne!(encode_6_bits(b"moc.a"), b"moc.a".to_vec());
}

#[test]
fn experiment6_fst_bitvec_domains() {
    let mut root: Machine<u8> = Machine::new();

    assert_eq!(root.domain_insert(Vec::from(&b"www.example.com"[..]), 1), InsertResult::Inserted);
    assert_eq!(root.domain_insert(Vec::from(&b"test.example.com"[..]), 2), InsertResult::Inserted);
    assert_eq!(root.domain_insert(Vec::from(&b"*.alldomains.org"[..]), 3), InsertResult::Inserted);
    assert_eq!(root.domain_insert(Vec::from(&b"alldomains.org"[..]), 4), InsertResult::Inserted);
    assert_eq!(root.domain_insert(Vec::from(&b"hello.com"[..]), 5), InsertResult::Inserted);

    root.finish();

    assert_eq!(root.domain_lookup(&b"example.com"[..]), None);
    assert_eq!(root.domain_lookup(&b"blah.test.example.com"[..]), None);

    assert_eq!(
        root.domain_lookup(&b"www.example.com"[..]),
        Some(&((&b"www.example.com"[..]).to_vec(), 1))
    );
    assert_eq!(
        root.domain_lookup(&b"alldomains.org"[..]),
        Some(&((&b"alldomains.org"[..]).to_vec(), 4))
    );
    assert_eq!(root.domain_lookup(&b"blah.test.alldomains.org"[..]), None);
}

#[test]
fn machine_keeps_what_the_builder_takes() {
    assert!(reversed_less(b"a.com", b"b.com"));
    assert!(!reversed_less(b"b.com", b"a.com"));
    assert!(reversed_less(b"com", b"a.com"));
    assert!(!reversed_less(b"a.com", b"a.com"));
    assert_eq!(key_order(&b"a.com".to_vec(), &b"b.com".to_vec()), std::cmp::Ordering::Less);
    assert_eq!(key_order(&b"b.com".to_vec(), &b"a.com".to_vec()), std::cmp::Ordering::Greater);
    assert_eq!(key_order(&b"b.org".to_vec(), &b"b.com".to_vec()), std::cmp::Ordering::Less);
    assert_eq!(key_order(&b"b.com".to_vec(), &b"b.com".to_vec()), std::cmp::Ordering::Equal);

    let mut m: Machine<u8> = Machine::new();
    assert_eq!(m.domain_lookup(b"a.com"), None);
    assert_eq!(m.lookup(b"a.com"), None);
    assert_eq!(m.domain_insert(b"b.com".to_vec(), 1), InsertResult::Inserted);
    assert_eq!(m.domain_insert(b"a.com".to_vec(), 2), InsertResult::Inserted);
    assert_eq!(m.domain_insert(b"a.com".to_vec(), 3), InsertResult::Inserted);
    assert_eq!(m.domain_insert(b"1.com".to_vec(), 4), InsertResult::Inserted);
    assert_eq!(m.domain_insert(b"gone.com".to_vec(), 5), InsertResult::Inserted);
    assert_eq!(m.domain_remove(&b"gone.com".to_vec()), RemoveResult::Removed);
    assert_eq!(m.domain_remove(&b"gone.com".to_vec()), RemoveResult::NotFound);
    m.finish();
    assert!(matches!(m.map, MachineMap::Built(_)));

    // In the order of the bytes "1.com" comes first, but its packed key
    // comes behind those of the letters; so the builder takes it first and
    // then refuses both "a.com" and "b.com".
    assert_eq!(m.index, vec![(b"1.com".to_vec(), 4)]);
    assert_eq!(m.lookup(b"1.com"), Some(0));
    assert_eq!(m.domain_lookup(b"1.com"), Some(&(b"1.com".to_vec(), 4)));
    assert_eq!(m.domain_lookup(b"a.com"), None);
    assert_eq!(m.domain_lookup(b"not a domain"), None);
    assert_eq!(m.domain_insert(b"late.com".to_vec(), 9), InsertResult::Failed);
    assert_eq!(m.domain_remove(&b"1.com".to_vec()), RemoveResult::NotFound);

    let mut d: Machine<u8> = Machine::new();
    assert_eq!(d.domain_insert(b"a.com".to_vec(), 2), InsertResult::Inserted);
    assert_eq!(d.domain_insert(b"A.com".to_vec(), 3), InsertResult::Inserted);
    assert_eq!(d.domain_insert(b"b.com".to_vec(), 1), InsertResult::Inserted);
    d.finish();
    // "A.com" sorts first and packs to the same key as "a.com".
    assert_eq!(d.index, vec![(b"A.com".to_vec(), 3), (b"b.com".to_vec(), 1)]);
    assert_eq!(d.domain_lookup(b"a.com"), Some(&(b"A.com".to_vec(), 3)));
    assert_eq!(d.domain_lookup(b"b.com"), Some(&(b"b.com".to_vec(), 1)));
}
