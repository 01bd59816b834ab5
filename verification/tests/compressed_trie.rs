use trie::experiment3_trie::TrieNode;
use trie::{InsertResult, RemoveResult};

#[test]
fn experiment3_trie_insert() {
    let mut root: TrieNode<u8> = TrieNode::root();

    assert_eq!(root.insert(Vec::from(&b"abcd"[..]), 1), InsertResult::Inserted);
    assert_eq!(root.insert(Vec::from(&b"abce"[..]), 2), InsertResult::Inserted);
    assert_eq!(root.insert(Vec::from(&b"abgh"[..]), 3), InsertResult::Inserted);
}

#[test]
fn experiment3_trie_remove() {
    let mut root: TrieNode<u8> = TrieNode::root();

    assert_eq!(root.insert(Vec::from(&b"abcd"[..]), 1), InsertResult::Inserted);
    assert_eq!(root.insert(Vec::from(&b"abce"[..]), 2), InsertResult::Inserted);
    assert_eq!(root.insert(Vec::from(&b"abgh"[..]), 3), InsertResult::Inserted);

    let mut root2: TrieNode<u8> = TrieNode::root();

    assert_eq!(root2.insert(Vec::from(&b"abcd"[..]), 1), InsertResult::Inserted);
    assert_eq!(root2.insert(Vec::from(&b"abgh"[..]), 3), InsertResult::Inserted);

    assert_eq!(root.remove(&Vec::from(&b"abce"[..])), RemoveResult::Removed);

    assert_eq!(root, root2);

    assert_eq!(root.remove(&Vec::from(&b"abgh"[..])), RemoveResult::Removed);
    let mut root3: TrieNode<u8> = TrieNode::root();
    assert_eq!(root3.insert(Vec::from(&b"abcd"[..]), 1), InsertResult::Inserted);
    assert_eq!(root, root3);
}

#[test]
fn experiment3_trie_add_child_to_leaf() {
    let mut root1: TrieNode<u8> = TrieNode::root();

    assert_eq!(root1.insert(Vec::from(&b"abcd"[..]), 1), InsertResult::Inserted);
    assert_eq!(root1.insert(Vec::from(&b"abce"[..]), 2), InsertResult::Inserted);
    assert_eq!(root1.insert(Vec::from(&b"abc"[..]), 3), InsertResult::Inserted);

    let mut root2: TrieNode<u8> = TrieNode::root();

    assert_eq!(root2.insert(Vec::from(&b"abc"[..]), 3), InsertResult::Inserted);
    assert_eq!(root2.insert(Vec::from(&b"abcd"[..]), 1), InsertResult::Inserted);
    assert_eq!(root2.insert(Vec::from(&b"abce"[..]), 2), InsertResult::Inserted);

    assert_eq!(root2.remove(&Vec::from(&b"abc"[..])), RemoveResult::Removed);

    let mut expected: TrieNode<u8> = TrieNode::root();

    assert_eq!(expected.insert(Vec::from(&b"abcd"[..]), 1), InsertResult::Inserted);
    assert_eq!(expected.insert(Vec::from(&b"abce"[..]), 2), InsertResult::Inserted);

    assert_eq!(root2, expected);
}

#[test]
fn experiment3_trie_domains() {
    let mut root: TrieNode<u8> = TrieNode::root();

    assert_eq!(root.domain_insert(Vec::from(&b"www.example.com"[..]), 1), InsertResult::Inserted);
    assert_eq!(root.domain_insert(Vec::from(&b"test.example.com"[..]), 2), InsertResult::Inserted);
    assert_eq!(root.domain_insert(Vec::from(&b"*.alldomains.org"[..]), 3), InsertResult::Inserted);
    assert_eq!(root.domain_insert(Vec::from(&b"alldomains.org"[..]), 4), InsertResult::Inserted);
    assert_eq!(root.domain_insert(Vec::from(&b"hello.com"[..]), 5), InsertResult::Inserted);

    assert_eq!(root.domain_lookup(&b"example.com"[..]), None);
    assert_eq!(root.domain_lookup(&b"blah.test.example.com"[..]), None);
    assert_eq!(
        root.domain_lookup(&b"www.example.com"[..]),
        Some(&((&b"www.example.com"[..]).to_vec(), 1))
    );
    assert_eq!(
        root.domain_lookup(&b"alldomains.org"[..]),
        Some(&((&b"alldomains.org"[..]).to_vec(), 4))
    );
    assert_eq!(
        root.domain_lookup(&b"test.alldomains.org"[..]),
        Some(&((&b"*.alldomains.org"[..]).to_vec(), 3))
    );
    assert_eq!(
        root.domain_lookup(&b"hello.alldomains.org"[..]),
        Some(&((&b"*.alldomains.org"[..]).to_vec(), 3))
    );
    assert_eq!(root.domain_lookup(&b"blah.test.alldomains.org"[..]), None);

    assert_eq!(root.domain_remove(&Vec::from(&b"alldomains.org"[..])), RemoveResult::Removed);
    assert_eq!(root.domain_lookup(&b"alldomains.org"[..]), None);
    assert_eq!(
        root.domain_lookup(&b"test.alldomains.org"[..]),
        Some(&((&b"*.alldomains.org"[..]).to_vec(), 3))
    );
    assert_eq!(
        root.domain_lookup(&b"hello.alldomains.org"[..]),
        Some(&((&b"*.alldomains.org"[..]).to_vec(), 3))
    );
    assert_eq!(root.domain_lookup(&b"blah.test.alldomains.org"[..]), None);
}

#[test]
fn compressed_trie_is_a_map() {
    let mut root: TrieNode<u8> = TrieNode::root();
    assert_eq!(root.insert(b"abcd".to_vec(), 1), InsertResult::Inserted);
    assert_eq!(root.insert(b"abcd".to_vec(), 9), InsertResult::Existing);
    assert_eq!(root.get(b"abcd"), Some(&(b"abcd".to_vec(), 1)));
    assert_eq!(root.get(b"abc"), None);
    assert_eq!(root.get(b"abcde"), None);

    // A key that ends inside a run that leads to children keeps them below.
    assert_eq!(root.insert(b"abxy".to_vec(), 2), InsertResult::Inserted);
    assert_eq!(root.insert(b"abxz".to_vec(), 3), InsertResult::Inserted);
    assert_eq!(root.insert(b"a".to_vec(), 4), InsertResult::Inserted);
    assert_eq!(root.local_key, b"a".to_vec());
    assert_eq!(root.child_keys, vec![b'b']);
    for (key, value) in [(&b"abcd"[..], 1), (&b"abxy"[..], 2), (&b"abxz"[..], 3), (&b"a"[..], 4)] {
        assert_eq!(root.get(key), Some(&(key.to_vec(), value)));
    }
    assert_eq!(root.insert(b"ab".to_vec(), 5), InsertResult::Inserted);
    assert_eq!(root.get(b"abxz"), Some(&(b"abxz".to_vec(), 3)));

    // A node with an entry of its own is not joined with its only child.
    assert_eq!(root.remove(&b"abcd".to_vec()), RemoveResult::Removed);
    assert_eq!(root.remove(&b"abcd".to_vec()), RemoveResult::NotFound);
    assert_eq!(root.get(b"ab"), Some(&(b"ab".to_vec(), 5)));
    assert_eq!(root.get(b"abxy"), Some(&(b"abxy".to_vec(), 2)));
    assert_eq!(root.remove_recursive(b"bxy"), RemoveResult::Removed);
    assert_eq!(root.remove_recursive(b"bxy"), RemoveResult::NotFound);
    assert_eq!(root.get(b"abxz"), Some(&(b"abxz".to_vec(), 3)));
    assert_eq!(root.get(b"ab"), Some(&(b"ab".to_vec(), 5)));
    assert_eq!(root.get(b"a"), Some(&(b"a".to_vec(), 4)));
    assert_eq!(root.insert_recursive(b"q", &b"shown".to_vec(), 6), InsertResult::Inserted);
    assert_eq!(root.get(b"q"), Some(&(b"shown".to_vec(), 6)));

    let single = TrieNode::new(b"key".to_vec(), 7u8);
    assert_eq!(single.get(b"key"), Some(&(b"key".to_vec(), 7)));
    assert_eq!(single.domain_lookup_recursive(b"key"), Some(&(b"key".to_vec(), 7)));
    assert_eq!(single.domain_lookup_recursive(b"ke"), None);
}
