use trie::experiment8_trie_cursor::trie::TrieNode;
use trie::gen_seed::{known_key, seed_known_domain};
use trie::{DomainLookup, InsertResult, RemoveResult};

#[test]
fn linear_domains() {
    let mut root: trie::linear::List<u8> = trie::linear::List::root();

    assert_eq!(root.domain_insert(Vec::from(&b"www.example.com"[..]), 1), InsertResult::Inserted);
    assert_eq!(root.domain_insert(Vec::from(&b"test.example.com"[..]), 2), InsertResult::Inserted);
    assert_eq!(root.domain_insert(Vec::from(&b"*.alldomains.org"[..]), 3), InsertResult::Inserted);
    assert_eq!(root.domain_insert(Vec::from(&b"alldomains.org"[..]), 4), InsertResult::Inserted);
    assert_eq!(root.domain_insert(Vec::from(&b"hello.com"[..]), 5), InsertResult::Inserted);

    assert_eq!(root.domain_lookup(&b"example.com"[..]), None);
    assert_eq!(root.domain_lookup(&b"blah.test.example.com"[..]), None);
    assert_eq!(
        root.domain_lookup(&b"www.example.com"[..]),
        Some(&((&b"www.example.com"[..]).to_vec(), 1))
    );
    assert_eq!(
        root.domain_lookup(&b"alldomains.org"[..]),
        Some(&((&b"alldomains.org"[..]).to_vec(), 4))
    );
    assert_eq!(
        root.domain_lookup(&b"test.alldomains.org"[..]),
        Some(&((&b"*.alldomains.org"[..]).to_vec(), 3))
    );
    assert_eq!(
        root.domain_lookup(&b"hello.alldomains.org"[..]),
        Some(&((&b"*.alldomains.org"[..]).to_vec(), 3))
    );
    assert_eq!(root.domain_lookup(&b"blah.test.alldomains.org"[..]), None);

    assert_eq!(root.domain_remove(&Vec::from(&b"alldomains.org"[..])), RemoveResult::Removed);
    assert_eq!(root.domain_lookup(&b"alldomains.org"[..]), None);
    assert_eq!(
        root.domain_lookup(&b"test.alldomains.org"[..]),
        Some(&((&b"*.alldomains.org"[..]).to_vec(), 3))
    );
    assert_eq!(
        root.domain_lookup(&b"hello.alldomains.org"[..]),
        Some(&((&b"*.alldomains.org"[..]).to_vec(), 3))
    );
    assert_eq!(root.domain_lookup(&b"blah.test.alldomains.org"[..]), None);
}

#[test]
fn experiment4_loop_domains() {
    let mut root: trie::experiment4_loop::List<u8> = trie::experiment4_loop::List::root();

    assert_eq!(root.domain_insert(Vec::from(&b"www.example.com"[..]), 1), InsertResult::Inserted);
    assert_eq!(root.domain_insert(Vec::from(&b"test.example.com"[..]), 2), InsertResult::Inserted);
    assert_eq!(root.domain_insert(Vec::from(&b"*.alldomains.org"[..]), 3), InsertResult::Inserted);
    assert_eq!(root.domain_insert(Vec::from(&b"alldomains.org"[..]), 4), InsertResult::Inserted);
    assert_eq!(root.domain_insert(Vec::from(&b"hello.com"[..]), 5), InsertResult::Inserted);

    assert_eq!(root.domain_lookup(&b"example.com"[..]), None);
    assert_eq!(root.domain_lookup(&b"blah.test.example.com"[..]), None);
    assert_eq!(
        root.domain_lookup(&b"www.example.com"[..]),
        Some(&((&b"www.example.com"[..]).to_vec(), 1))
    );
    assert_eq!(
        root.domain_lookup(&b"alldomains.org"[..]),
        Some(&((&b"alldomains.org"[..]).to_vec(), 4))
    );
    assert_eq!(
        root.domain_lookup(&b"test.alldomains.org"[..]),
        Some(&((&b"*.alldomains.org"[..]).to_vec(), 3))
    );
    assert_eq!(
        root.domain_lookup(&b"hello.alldomains.org"[..]),
        Some(&((&b"*.alldomains.org"[..]).to_vec(), 3))
    );
    assert_eq!(root.domain_lookup(&b"blah.test.alldomains.org"[..]), None);

    assert_eq!(root.domain_remove(&Vec::from(&b"alldomains.org"[..])), RemoveResult::Removed);
    assert_eq!(root.domain_lookup(&b"alldomains.org"[..]), None);
    assert_eq!(
        root.domain_lookup(&b"test.alldomains.org"[..]),
        Some(&((&b"*.alldomains.org"[..]).to_vec(), 3))
    );
    assert_eq!(
        root.domain_lookup(&b"hello.alldomains.org"[..]),
        Some(&((&b"*.alldomains.org"[..]).to_vec(), 3))
    );
    assert_eq!(root.domain_lookup(&b"blah.test.alldomains.org"[..]), None);
}

#[test]
fn list_keeps_duplicates_in_order() {
    let mut list: trie::linear::List<u8> = trie::linear::List::new();
    assert_eq!(list.domain_insert(b"a.com".to_vec(), 1), InsertResult::Inserted);
    assert_eq!(list.domain_insert(b"a.com".to_vec(), 2), InsertResult::Inserted);
    assert_eq!(list.acl.len(), 2);
    assert_eq!(list.acl[0].0, b"moc.a".to_vec());
    assert_eq!(list.domain_lookup(b"a.com"), Some(&(b"a.com".to_vec(), 1)));
    assert_eq!(list.domain_remove(&b"a.com".to_vec()), RemoveResult::Removed);
    assert_eq!(list.domain_lookup(b"a.com"), Some(&(b"a.com".to_vec(), 2)));
    assert_eq!(list.domain_remove(&b"b.com".to_vec()), RemoveResult::NotFound);
    assert_eq!(list.insert(b"raw".to_vec(), 3), InsertResult::Inserted);
    assert_eq!(list.acl[1].0, b"raw".to_vec());
    assert_eq!(list.domain_lookup(b"war"), Some(&(b"raw".to_vec(), 3)));

    let mut other: trie::experiment4_loop::List<u8> = trie::experiment4_loop::List::new();
    assert_eq!(other.insert(b"raw".to_vec(), 3), InsertResult::Inserted);
    assert_eq!(other.acl[0].0, b"raw".to_vec());
    assert_eq!(other.domain_remove(&b"war".to_vec()), RemoveResult::Removed);
    assert!(other.acl.is_empty());
}

#[test]
fn known_domains_are_seeded() {
    assert_eq!(known_key(0), b"axofugal.obelis.com".to_vec());
    assert_eq!(known_key(9), b"axolema.washe-pote.rs".to_vec());

    let mut list: trie::linear::List<u8> = trie::linear::List::new();
    seed_known_domain(&mut list);
    assert_eq!(list.acl.len(), 10);
    assert_eq!(
        list.domain_lookup(b"washtucna.obeliskoide.org"),
        Some(&(b"washtucna.obeliskoide.org".to_vec(), 5))
    );

    let mut root: TrieNode<u8> = TrieNode::root();
    seed_known_domain(&mut root);
    assert_eq!(
        root.domain_lookup(b"co-adjust.walll-fed.net"),
        Some(&(b"co-adjust.walll-fed.net".to_vec(), 5))
    );
    assert_eq!(
        root.domain_lookup(b"axolema.washe-pote.rs"),
        Some(&(b"axolema.washe-pote.rs".to_vec(), 5))
    );
    assert_eq!(root.domain_lookup(b"axolema.washe-pote.com"), None);
    assert_eq!(root.domain_insert(b"obeliske.coadjuv.io".to_vec(), 7), InsertResult::Existing);
}

#[test]
fn hash_map_finds_exact_domains() {
    let mut map = trie::hashmap::DomainMap::new();
    assert_eq!(map.domain_lookup(b"www.example.com"), None);
    assert_eq!(map.domain_insert(b"www.example.com".to_vec(), 1), InsertResult::Inserted);
    assert_eq!(map.domain_insert(b"*.alldomains.org".to_vec(), 3), InsertResult::Inserted);
    assert_eq!(map.domain_lookup(b"www.example.com"), Some(&(b"www.example.com".to_vec(), 1)));
    assert_eq!(map.domain_lookup(b"moc.elpmaxe.www"), None);
    assert_eq!(map.domain_lookup(b"example.com"), None);
    assert_eq!(map.domain_lookup(b"test.alldomains.org"), None);
    assert_eq!(map.domain_lookup(b"*.alldomains.org"), Some(&(b"*.alldomains.org".to_vec(), 3)));
    assert_eq!(map.domain_insert(b"www.example.com".to_vec(), 7), InsertResult::Inserted);
    assert_eq!(map.domain_lookup(b"www.example.com"), Some(&(b"www.example.com".to_vec(), 7)));
    assert_eq!(map.domain_remove(&b"www.example.com".to_vec()), RemoveResult::Removed);
    assert_eq!(map.domain_remove(&b"www.example.com".to_vec()), RemoveResult::NotFound);
    assert_eq!(map.domain_lookup(b"www.example.com"), None);
    seed_known_domain(&mut map);
    assert_eq!(map.domain_lookup(b"axofugal.obelis.com"), Some(&(b"axofugal.obelis.com".to_vec(), 5)));
}
