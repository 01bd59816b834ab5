use trie::experiment8_trie_cursor::trie::TrieNode;
use trie::gen_seed::{
    gen_seed_wilcard_domain, gen_text_seed_domain, gen_uuid_seed_domain, holds_key, join_dotted,
    seed_bench_trie,
};
use trie::linear::List;
use trie::DomainLookup;

fn is_hex(b: &u8) -> bool {
    b.is_ascii_digit() || (b'a'..=b'f').contains(b)
}

#[test]
fn uuid_domains_have_their_shape() {
    let d = gen_uuid_seed_domain("com");
    assert_eq!(d.len(), 32 + 1 + 32 + 1 + 3);
    assert!(d[..32].iter().all(is_hex));
    assert_eq!(d[32], b'.');
    assert!(d[33..65].iter().all(is_hex));
    assert_eq!(&d[65..], b".com");
    assert_ne!(gen_uuid_seed_domain("com"), d);
}

#[test]
fn wildcard_domains_have_their_shape() {
    let d = gen_seed_wilcard_domain("org");
    assert_eq!(d.len(), 2 + 32 + 1 + 3);
    assert_eq!(&d[..2], b"*.");
    assert!(d[2..34].iter().all(is_hex));
    assert_eq!(&d[34..], b".org");
}

#[test]
fn text_domains_come_from_the_list() {
    let names = vec!["alpha", "beta"];
    let mut list: List<u8> = List::new();
    seed_bench_trie(&mut list, 0, &vec!["com"], &names);
    assert!(list.acl.is_empty());

    let mut rng = rand::XorShiftRng::new_unseeded();
    for _ in 0..20 {
        let d = gen_text_seed_domain("io", &names, &mut rng);
        let text = String::from_utf8(d).unwrap();
        let parts: Vec<&str> = text.split('.').collect();
        assert_eq!(parts.len(), 3);
        assert!(names.contains(&parts[0]));
        assert!(names.contains(&parts[1]));
        assert_eq!(parts[2], "io");
    }
}

#[test]
fn joined_parts_keep_their_order() {
    assert_eq!(join_dotted(b"a", b"bc", b"def"), b"a.bc.def".to_vec());
    assert_eq!(join_dotted(b"", b"", b""), b"..".to_vec());
    assert!(holds_key(&vec![b"x".to_vec(), b"y".to_vec()], b"y"));
    assert!(!holds_key(&vec![b"x".to_vec(), b"y".to_vec()], b"z"));
}

#[test]
fn bench_seed_fills_the_structure() {
    let names = vec!["alpha", "beta", "gamma"];
    let tlds = vec!["com", "org"];

    let mut list: List<u8> = List::new();
    seed_bench_trie(&mut list, 9, &tlds, &names);
    assert!(list.acl.len() >= 2 * 3 * 2 + 1);
    assert!(list.acl.len() <= 2 * 3 * 3);
    let ones = list.acl.iter().filter(|e| (e.1).1 == 1).count();
    assert_eq!(ones, 6);
    let texts: Vec<&Vec<u8>> =
        list.acl.iter().filter(|e| (e.1).0[0] != b'*' && (e.1).1 == 2).map(|e| &(e.1).0).collect();
    for (i, a) in texts.iter().enumerate() {
        for b in texts.iter().skip(i + 1) {
            assert_ne!(a, b);
        }
    }

    let mut root: TrieNode<u8> = TrieNode::root();
    seed_bench_trie(&mut root, 30, &tlds, &names);
    for e in list.acl.iter().filter(|e| (e.1).0[0] != b'*' && (e.1).1 == 2) {
        let key = &(e.1).0;
        if let Some(kv) = root.domain_lookup(key) {
            assert_eq!(&kv.0, key);
            assert_eq!(kv.1, 2);
        }
    }
}

#[test]
fn list_seed_adds_three_entries_in_each_round() {
    let names = vec!["alpha", "beta"];
    let tlds = vec!["com", "org", "net"];
    let mut list: trie::experiment4_loop::List<u8> = trie::experiment4_loop::List::new();
    trie::experiment4_loop::seed_bench_trie(&mut list, 7, &tlds, &names);
    assert_eq!(list.acl.len(), 3 * 3 * 2);
    for entry in list.acl.iter() {
        let mut stored = (entry.1).0.clone();
        stored.reverse();
        assert_eq!(entry.0, stored);
        assert!((entry.1).1 == 1 || (entry.1).1 == 2);
    }
    trie::experiment4_loop::seed_bench_trie(&mut list, 2, &tlds, &names);
    assert_eq!(list.acl.len(), 18);
    trie::experiment4_loop::seed_bench_trie(&mut list, -9, &tlds, &names);
    assert_eq!(list.acl.len(), 18);
}

#[test]
fn compressed_trie_seed_fills_the_trie() {
    let names = vec!["alpha", "beta"];
    let tlds = vec!["com", "org"];
    let mut root: trie::experiment3_trie::TrieNode<u8> = trie::experiment3_trie::TrieNode::root();
    trie::experiment3_trie::seed_bench_trie(&mut root, 6, &tlds, &names);
    let mut found = 0;
    for a in names.iter() {
        for b in names.iter() {
            for tld in tlds.iter() {
                let key = join_dotted(a.as_bytes(), b.as_bytes(), tld.as_bytes());
                if let Some(kv) = root.domain_lookup(&key) {
                    assert_eq!(kv.0, key);
                    assert_eq!(kv.1, 2);
                    found += 1;
                }
            }
        }
    }
    assert!(found >= 2);
    assert!(found <= 4);
}
