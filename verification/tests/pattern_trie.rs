use trie::experiment8_trie_cursor::cursor::{HttpCursor, MatchPattern};
use trie::matcher::Matcher;
use trie::experiment8_trie_cursor::trie::TrieNode;
use trie::{DomainLookup, InsertResult, RemoveResult};

fn seeded() -> TrieNode<u8> {
    let mut root: TrieNode<u8> = TrieNode::root();
    assert_eq!(root.domain_insert(Vec::from(&b"test.com"[..]), 1), InsertResult::Inserted);
    assert_eq!(root.domain_insert(Vec::from(&b"www.example.com"[..]), 2), InsertResult::Inserted);
    assert_eq!(
        root.domain_insert(Vec::from(&b"cdn./a[0-9]*/.example.com"[..]), 3),
        InsertResult::Inserted
    );
    assert_eq!(root.domain_insert(Vec::from(&b"*.js.example.com"[..]), 4), InsertResult::Inserted);
    root
}

#[test]
fn mod_insert() {
    let mut root: TrieNode<u8> = TrieNode::root();

    assert_eq!(root.domain_insert(Vec::from(&b"test.com"[..]), 1), InsertResult::Inserted);
    assert_eq!(root.domain_insert(Vec::from(&b"www.example.com"[..]), 2), InsertResult::Inserted);
    assert_eq!(
        root.domain_insert(Vec::from(&b"cdn./a[0-9]*/.example.com"[..]), 3),
        InsertResult::Inserted
    );
    assert_eq!(root.domain_insert(Vec::from(&b"*.js.example.com"[..]), 4), InsertResult::Inserted);
}

#[test]
fn end_to_end_lookups() {
    let root = seeded();
    assert_eq!(root.domain_lookup(&b"test.com"[..]), Some(&(b"test.com".to_vec(), 1)));
    assert_eq!(root.domain_lookup(&b"www.example.com"[..]), Some(&(b"www.example.com".to_vec(), 2)));
    assert_eq!(
        root.domain_lookup(&b"cdn.a7.example.com"[..]),
        Some(&(b"cdn./a[0-9]*/.example.com".to_vec(), 3))
    );
    assert_eq!(
        root.domain_lookup(&b"foo.js.example.com"[..]),
        Some(&(b"*.js.example.com".to_vec(), 4))
    );
    assert_eq!(root.domain_lookup(&b"unknown.org"[..]), None);
}

#[test]
fn trie_domains() {
    let mut root: TrieNode<u8> = TrieNode::root();

    assert_eq!(root.domain_insert(Vec::from(&b"www.example.com"[..]), 1), InsertResult::Inserted);
    assert_eq!(root.domain_insert(Vec::from(&b"test.example.com"[..]), 2), InsertResult::Inserted);
    assert_eq!(root.domain_insert(Vec::from(&b"*.alldomains.org"[..]), 3), InsertResult::Inserted);
    assert_eq!(root.domain_insert(Vec::from(&b"alldomains.org"[..]), 4), InsertResult::Inserted);
    assert_eq!(root.domain_insert(Vec::from(&b"hello.com"[..]), 5), InsertResult::Inserted);

    assert_eq!(root.domain_lookup(&b"example.com"[..]), None);
    assert_eq!(root.domain_lookup(&b"blah.test.example.com"[..]), None);
    assert_eq!(root.domain_lookup(&b"www.example.com"[..]), Some(&(b"www.example.com".to_vec(), 1)));
    assert_eq!(root.domain_lookup(&b"alldomains.org"[..]), Some(&(b"alldomains.org".to_vec(), 4)));
    assert_eq!(
        root.domain_lookup(&b"test.alldomains.org"[..]),
        Some(&(b"*.alldomains.org".to_vec(), 3))
    );
    assert_eq!(
        root.domain_lookup(&b"hello.alldomains.org"[..]),
        Some(&(b"*.alldomains.org".to_vec(), 3))
    );
    assert_eq!(root.domain_lookup(&b"blah.test.alldomains.org"[..]), None);

    assert_eq!(root.domain_remove(&Vec::from(&b"alldomains.org"[..])), RemoveResult::Removed);
    assert_eq!(root.domain_lookup(&b"alldomains.org"[..]), None);
    assert_eq!(
        root.domain_lookup(&b"test.alldomains.org"[..]),
        Some(&(b"*.alldomains.org".to_vec(), 3))
    );
    assert_eq!(
        root.domain_lookup(&b"hello.alldomains.org"[..]),
        Some(&(b"*.alldomains.org".to_vec(), 3))
    );
    assert_eq!(root.domain_lookup(&b"blah.test.alldomains.org"[..]), None);
    assert_eq!(root.domain_remove(&Vec::from(&b"alldomains.org"[..])), RemoveResult::NotFound);
}

#[test]
fn literal_beats_wildcard() {
    let mut root: TrieNode<u8> = TrieNode::root();
    assert_eq!(root.domain_insert(b"*.example.com".to_vec(), 1), InsertResult::Inserted);
    assert_eq!(root.domain_insert(b"a.example.com".to_vec(), 2), InsertResult::Inserted);
    assert_eq!(root.domain_lookup(b"a.example.com"), Some(&(b"a.example.com".to_vec(), 2)));
    assert_eq!(root.domain_lookup(b"b.example.com"), Some(&(b"*.example.com".to_vec(), 1)));
}

#[test]
fn wildcard_is_one_label() {
    let mut root: TrieNode<u8> = TrieNode::root();
    assert_eq!(root.domain_insert(b"*.example.com".to_vec(), 1), InsertResult::Inserted);
    assert_eq!(root.domain_lookup(b"b.a.example.com"), None);
    assert_eq!(root.domain_lookup(b"a.example.com"), Some(&(b"*.example.com".to_vec(), 1)));
}

#[test]
fn unknown_domain_is_none() {
    let root = seeded();
    assert_eq!(root.domain_lookup(b"nothing.net"), None);
    let empty: TrieNode<u8> = TrieNode::root();
    assert_eq!(empty.domain_lookup(b"test.com"), None);
}

#[test]
fn duplicate_insert_keeps_first() {
    let mut root: TrieNode<u8> = TrieNode::root();
    assert_eq!(root.domain_insert(b"www.example.com".to_vec(), 1), InsertResult::Inserted);
    assert_eq!(root.domain_insert(b"www.example.com".to_vec(), 9), InsertResult::Existing);
    assert_eq!(root.domain_lookup(b"www.example.com"), Some(&(b"www.example.com".to_vec(), 1)));
}

#[test]
fn prefix_and_continuation() {
    let mut root: TrieNode<u8> = TrieNode::root();
    assert_eq!(root.domain_insert(b"example.com".to_vec(), 1), InsertResult::Inserted);
    assert_eq!(root.domain_insert(b"www.example.com".to_vec(), 2), InsertResult::Inserted);
    assert_eq!(root.domain_lookup(b"example.com"), Some(&(b"example.com".to_vec(), 1)));
    assert_eq!(root.domain_lookup(b"www.example.com"), Some(&(b"www.example.com".to_vec(), 2)));

    let mut other: TrieNode<u8> = TrieNode::root();
    assert_eq!(other.domain_insert(b"www.example.com".to_vec(), 2), InsertResult::Inserted);
    assert_eq!(other.domain_lookup(b"example.com"), None);
    assert_eq!(other.domain_insert(b"example.com".to_vec(), 1), InsertResult::Inserted);
    assert_eq!(other.domain_lookup(b"example.com"), Some(&(b"example.com".to_vec(), 1)));
    assert_eq!(other.domain_lookup(b"www.example.com"), Some(&(b"www.example.com".to_vec(), 2)));
}

#[test]
fn first_regex_wins() {
    let mut root: TrieNode<u8> = TrieNode::root();
    assert_eq!(root.domain_insert(b"/a[0-9]+/.example.com".to_vec(), 1), InsertResult::Inserted);
    assert_eq!(root.domain_insert(b"/a[0-9]*/.example.com".to_vec(), 2), InsertResult::Inserted);
    assert_eq!(
        root.domain_lookup(b"a7.example.com"),
        Some(&(b"/a[0-9]+/.example.com".to_vec(), 1))
    );
    assert_eq!(root.domain_lookup(b"a.example.com"), Some(&(b"/a[0-9]*/.example.com".to_vec(), 2)));

    let mut swapped: TrieNode<u8> = TrieNode::root();
    assert_eq!(swapped.domain_insert(b"/a[0-9]*/.example.com".to_vec(), 2), InsertResult::Inserted);
    assert_eq!(swapped.domain_insert(b"/a[0-9]+/.example.com".to_vec(), 1), InsertResult::Inserted);
    assert_eq!(
        swapped.domain_lookup(b"a7.example.com"),
        Some(&(b"/a[0-9]*/.example.com".to_vec(), 2))
    );
}

#[test]
fn malformed_keys_fail() {
    let mut root: TrieNode<u8> = TrieNode::root();
    assert_eq!(root.domain_insert(b"a/.example.com".to_vec(), 1), InsertResult::Failed);
    assert_eq!(root.domain_insert(b"/(/.example.com".to_vec(), 1), InsertResult::Failed);
    assert_eq!(root.domain_insert(b"/.example.com".to_vec(), 1), InsertResult::Failed);
    assert_eq!(root.domain_lookup(b"a.example.com"), None);
    assert_eq!(root.domain_remove(&b"/(/.example.com".to_vec()), RemoveResult::NotFound);
}

#[test]
fn paths_match_by_prefix() {
    let mut root: TrieNode<u8> = TrieNode::root();
    let host = b"api.example.com";
    assert_eq!(root.insert(HttpCursor::new(host, b"/v1"), 1), InsertResult::Inserted);
    assert_eq!(root.insert(HttpCursor::new(host, b"/v1/users"), 2), InsertResult::Inserted);
    assert_eq!(root.insert(HttpCursor::new(host, b"~^/static/"), 3), InsertResult::Inserted);
    assert_eq!(root.insert(HttpCursor::new(host, b"/v1"), 4), InsertResult::Existing);

    assert_eq!(
        root.lookup(HttpCursor::new(host, b"/v1/users/7")),
        Some(&(host.to_vec(), 2))
    );
    assert_eq!(root.lookup(HttpCursor::new(host, b"/v1/orders")), Some(&(host.to_vec(), 1)));
    assert_eq!(root.lookup(HttpCursor::new(host, b"/static/app.js")), Some(&(host.to_vec(), 3)));
    assert_eq!(root.lookup(HttpCursor::new(host, b"/other")), None);
    assert_eq!(root.remove_recursive(HttpCursor::new(host, b"/v1")), RemoveResult::Removed);
    assert_eq!(root.lookup(HttpCursor::new(host, b"/v1/orders")), None);
    assert_eq!(
        root.lookup(HttpCursor::new(host, b"/v1/users/7")),
        Some(&(host.to_vec(), 2))
    );
}

#[test]
fn patterns_can_be_copied() {
    let pattern = MatchPattern::Regex(Matcher::new("cdn[0-9]+").unwrap());
    let copy = pattern.clone();
    assert_eq!(copy, pattern);
    let mut c = HttpCursor::new(b"js.cdn1", b"/");
    assert!(c.match_pattern(&copy));
    assert_eq!(c.current_slice(), b"js.");
    let m = Matcher::new("^a+$").unwrap();
    let n = m.clone();
    assert_eq!(n.source(), b"^a+$");
    assert!(n.is_match(b"aaa"));
    assert!(!n.is_match(b"aab"));
    assert!(Matcher::new("(").is_none());
    assert!(Matcher::from_bytes(&[0xff, 0xfe]).is_none());
}

#[test]
fn removal_takes_out_what_is_left_empty() {
    let mut root: TrieNode<u8> = TrieNode::root();
    assert_eq!(root.domain_insert(b"www.example.com".to_vec(), 1), InsertResult::Inserted);
    assert_eq!(root.domain_insert(b"test.example.com".to_vec(), 2), InsertResult::Inserted);
    assert_eq!(root.children.len(), 2);
    assert_eq!(root.domain_remove(&b"www.example.com".to_vec()), RemoveResult::Removed);
    assert_eq!(root.children.len(), 1);
    assert_eq!(root.child_keys, vec![b't']);
    assert_eq!(root.domain_lookup(b"www.example.com"), None);
    assert_eq!(root.domain_lookup(b"test.example.com"), Some(&(b"test.example.com".to_vec(), 2)));

    assert_eq!(root.domain_remove(&b"test.example.com".to_vec()), RemoveResult::Removed);
    assert!(root.children.is_empty());
    assert!(root.prefix.is_empty());
    assert!(root.key_value.is_none());
    assert_eq!(root.domain_remove(&b"test.example.com".to_vec()), RemoveResult::NotFound);
    assert_eq!(root.domain_insert(b"again.org".to_vec(), 3), InsertResult::Inserted);
    assert_eq!(root.prefix, b"gro.niaga".to_vec());
    assert_eq!(root.domain_lookup(b"again.org"), Some(&(b"again.org".to_vec(), 3)));
}

#[test]
fn removal_keeps_what_is_still_needed() {
    let mut root: TrieNode<u8> = TrieNode::root();
    assert_eq!(root.domain_insert(b"example.com".to_vec(), 1), InsertResult::Inserted);
    assert_eq!(root.domain_insert(b"www.example.com".to_vec(), 2), InsertResult::Inserted);
    assert_eq!(root.domain_insert(b"/a[0-9]+/.example.com".to_vec(), 3), InsertResult::Inserted);
    assert_eq!(root.domain_insert(b"/b[0-9]+/.example.com".to_vec(), 4), InsertResult::Inserted);
    assert_eq!(root.domain_insert(b"*.example.com".to_vec(), 5), InsertResult::Inserted);

    assert_eq!(root.domain_remove(&b"example.com".to_vec()), RemoveResult::Removed);
    assert_eq!(root.domain_lookup(b"example.com"), None);
    assert_eq!(root.domain_lookup(b"www.example.com"), Some(&(b"www.example.com".to_vec(), 2)));
    assert_eq!(root.domain_lookup(b"a1.example.com"), Some(&(b"/a[0-9]+/.example.com".to_vec(), 3)));

    assert_eq!(root.domain_remove(&b"/a[0-9]+/.example.com".to_vec()), RemoveResult::Removed);
    assert_eq!(root.domain_lookup(b"a1.example.com"), Some(&(b"*.example.com".to_vec(), 5)));
    assert_eq!(root.domain_lookup(b"b1.example.com"), Some(&(b"/b[0-9]+/.example.com".to_vec(), 4)));
    let dot = &root.children[0];
    assert_eq!(dot.regexes.len(), 1);
    assert_eq!(dot.regexes[0].source(), b"b[0-9]+");

    assert_eq!(root.domain_remove(&b"*.example.com".to_vec()), RemoveResult::Removed);
    assert_eq!(root.domain_lookup(b"a1.example.com"), None);
    assert!(root.children[0].wildcard.is_none());
    assert_eq!(root.domain_remove(&b"*.example.com".to_vec()), RemoveResult::NotFound);
}

#[test]
fn tries_of_the_same_insertions_are_equal() {
    let one = seeded();
    let mut other = seeded();
    assert_eq!(one, other);
    assert_eq!(other.domain_insert(b"more.com".to_vec(), 6), InsertResult::Inserted);
    assert_ne!(one, other);
    assert_eq!(other.domain_remove(&b"more.com".to_vec()), RemoveResult::Removed);
    assert_ne!(one, other);
    assert_eq!(one.domain_lookup(b"cdn.a7.example.com"), other.domain_lookup(b"cdn.a7.example.com"));
    assert_eq!(Matcher::new("a+").unwrap(), Matcher::new("a+").unwrap());
    assert_ne!(Matcher::new("a+").unwrap(), Matcher::new("a*").unwrap());
}
