//! A compressed trie over the bytes of reversed domains.
//!
//! Each node owns a run of bytes and keeps, for each of its children, the
//! first byte of the child's run. A pattern such as `*.example.com` is
//! stored like any other key, and found for a domain whose reversed name
//! parts from it at the `*` with one label left.

use vstd::prelude::*;
use vstd::slice::slice_subrange;
use crate::experiment8_trie_cursor::cursor::{
    bytes_to_vec, common_head, common_head_len, find_last_dot, first_index_of, last_dot,
    lemma_common_head_bound, lemma_first_index_of, position_of, STAR,
};
use crate::experiment8_trie_cursor::trie::{lemma_first_index_push, lemma_first_index_remove};
use crate::gen_seed::{
    gen_seed_wilcard_domain, gen_text_seed_domain, gen_uuid_seed_domain, unseeded_generator,
};
use crate::linear::reversed;
use crate::{Key, KeyValue};

pub use crate::{InsertResult, RemoveResult};

verus! {

/// Whether `path` begins with all of `run`.
pub open spec fn starts_with(path: Seq<u8>, run: Seq<u8>) -> bool {
    &&& run.len() <= path.len()
    &&& forall|i: int| 0 <= i < run.len() ==> path[i] == run[i]
}

/// The bytes that two sequences share at their starts are equal, and the
/// first bytes behind them differ.
pub proof fn lemma_common_head(a: Seq<u8>, b: Seq<u8>)
    ensures
        common_head(a, b) <= a.len(),
        common_head(a, b) <= b.len(),
        forall|i: int| 0 <= i < common_head(a, b) ==> a[i] == b[i],
        common_head(a, b) < a.len() && common_head(a, b) < b.len() ==> a[common_head(a, b) as int]
            != b[common_head(a, b) as int],
    decreases a.len(),
{
    if !(a.len() == 0 || b.len() == 0 || a.first() != b.first()) {
        lemma_common_head(a.drop_first(), b.drop_first());
        let n = common_head(a.drop_first(), b.drop_first()) as int;
        assert forall|i: int| 0 <= i < n + 1 implies a[i] == b[i] by {
            if i > 0 {
                assert(a[i] == a.drop_first()[i - 1]);
                assert(b[i] == b.drop_first()[i - 1]);
            }
        }
        if n + 1 < a.len() && n + 1 < b.len() {
            assert(a[n + 1] == a.drop_first()[n]);
            assert(b[n + 1] == b.drop_first()[n]);
        }
    }
}

/// A node of the trie.
#[derive(Debug, PartialEq)]
pub struct TrieNode<V> {
    /// The entry stored at this node, if a key ends here.
    pub key_value: Option<KeyValue<Key, V>>,
    /// The run of bytes that leads into this node.
    pub local_key: Key,
    /// The first bytes of the children's runs, one for each child.
    pub child_keys: Vec<u8>,
    /// The children.
    pub children: Vec<TrieNode<V>>,
}

impl<V> TrieNode<V> {
    /// The node's invariant, which holds of every node below it too: keys
    /// and children go in pairs, no two children start with the same byte,
    /// and each child's run starts with its key.
    pub open spec fn wf(&self) -> bool
        decreases self,
    {
        &&& self.child_keys@.len() == self.children@.len()
        &&& forall|i: int, j: int|
            0 <= i < j < self.child_keys@.len() ==> self.child_keys@[i] != self.child_keys@[j]
        &&& forall|i: int|
            0 <= i < self.children@.len() ==> {
                &&& (#[trigger] self.children@[i]).wf()
                &&& self.children@[i].local_key@.len() > 0
                &&& self.children@[i].local_key@[0] == self.child_keys@[i]
            }
    }

    /// Whether the node holds nothing at all.
    pub open spec fn is_blank(&self) -> bool {
        &&& self.key_value.is_none()
        &&& self.local_key@.len() == 0
        &&& self.child_keys@.len() == 0
        &&& self.children@.len() == 0
    }

    /// The entry that is stored under exactly the bytes of `path`, if
    /// there is one: the trie seen as a map.
    pub open spec fn stored(&self, path: Seq<u8>) -> Option<KeyValue<Key, V>>
        decreases self, 1nat,
    {
        if starts_with(path, self.local_key@) {
            self.stored_below(path.skip(self.local_key@.len() as int))
        } else {
            None
        }
    }

    /// The entry that is stored under `rest` behind the node's run.
    pub open spec fn stored_below(&self, rest: Seq<u8>) -> Option<KeyValue<Key, V>>
        decreases self, 0nat,
    {
        if rest.len() == 0 {
            self.key_value
        } else {
            match first_index_of(self.child_keys@, rest[0]) {
                Some(i) => if 0 <= i < self.children@.len() {
                    self.children@[i].stored(rest)
                } else {
                    None
                },
                None => None,
            }
        }
    }

    /// A trie that stores one entry, under `key` as it is written.
    pub fn new(key: Key, value: V) -> (node: TrieNode<V>)
        ensures
            node.wf(),
            node.local_key@ == key@,
            node.key_value matches Some(kv) && kv.0@ == key@ && kv.1 == value,
            node.children@.len() == 0,
    {
        let run = bytes_to_vec(key.as_slice());
        TrieNode {
            key_value: Some((key, value)),
            local_key: run,
            child_keys: Vec::new(),
            children: Vec::new(),
        }
    }

    /// An empty trie.
    pub fn root() -> (node: TrieNode<V>)
        ensures
            node.wf(),
            node.is_blank(),
    {
        TrieNode {
            key_value: None,
            local_key: Vec::new(),
            child_keys: Vec::new(),
            children: Vec::new(),
        }
    }

    /// Whether the node holds nothing at all.
    pub fn is_empty(&self) -> (b: bool)
        requires
            self.wf(),
        ensures
            b == self.is_blank(),
    {
        self.key_value.is_none() && self.local_key.len() == 0 && self.child_keys.len() == 0
    }

    /// The entry that is stored under exactly `partial_key`.
    pub fn get(&self, partial_key: &[u8]) -> (r: Option<&KeyValue<Key, V>>)
        requires
            self.wf(),
        ensures
            match r {
                Some(kv) => self.stored(partial_key@) == Some(*kv),
                None => self.stored(partial_key@).is_none(),
            },
        decreases self,
    {
        let n = common_head_len(partial_key, self.local_key.as_slice());
        proof {
            lemma_common_head(partial_key@, self.local_key@);
        }
        if n < self.local_key.len() {
            return None;
        }
        if partial_key.len() == n {
            assert(partial_key@.skip(n as int) =~= Seq::<u8>::empty());
            return self.key_value.as_ref();
        }
        let rest = slice_subrange(partial_key, n, partial_key.len());
        assert(rest@ =~= partial_key@.skip(n as int));
        match position_of(self.child_keys.as_slice(), partial_key[n]) {
            Some(i) => {
                proof {
                    lemma_first_index_of(self.child_keys@, partial_key@[n as int]);
                }
                self.children[i].get(rest)
            },
            None => None,
        }
    }
}


impl<V> TrieNode<V> {
    /// Cuts the node's run at `at`. The node keeps the first `at` bytes and
    /// hands everything else it holds to a single new child, which owns the
    /// rest of the run. What is stored under each path stays as it was.
    pub fn cut(&mut self, at: usize)
        requires
            old(self).wf(),
            at < old(self).local_key@.len(),
        ensures
            final(self).wf(),
            final(self).local_key@ == old(self).local_key@.take(at as int),
            final(self).key_value.is_none(),
            final(self).child_keys@ == seq![old(self).local_key@[at as int]],
            final(self).children@.len() == 1,
            final(self).children@[0].local_key@ == old(self).local_key@.skip(at as int),
            final(self).children@[0].key_value == old(self).key_value,
            final(self).children@[0].child_keys == old(self).child_keys,
            final(self).children@[0].children == old(self).children,
            forall|p: Seq<u8>| #[trigger] final(self).stored(p) == old(self).stored(p),
    {
        let ghost before = *self;
        let tail = self.local_key.split_off(at);
        let b = tail[0];
        let mut child = TrieNode::root();
        child.local_key = tail;
        child.key_value = self.key_value.take();
        std::mem::swap(&mut child.child_keys, &mut self.child_keys);
        std::mem::swap(&mut child.children, &mut self.children);
        assert(child.wf());
        self.child_keys.push(b);
        self.children.push(child);
        proof {
            let head = before.local_key@.take(at as int);
            let rest = before.local_key@.skip(at as int);
            assert(before.local_key@ =~= head + rest);
            assert(self.children@[0] == child);
            assert(first_index_of(self.child_keys@, b) == Some(0int));
            assert forall|p: Seq<u8>| #[trigger] self.stored(p) == before.stored(p) by {
                if starts_with(p, head) {
                    let q = p.skip(at as int);
                    if q.len() > 0 && q[0] == b {
                        assert(self.stored_below(q) == child.stored(q));
                        if starts_with(q, rest) {
                            assert forall|i: int| 0 <= i < before.local_key@.len() implies p[i]
                                == before.local_key@[i] by {
                                if i >= at {
                                    assert(p[i] == q[i - at]);
                                    assert(before.local_key@[i] == rest[i - at]);
                                }
                            }
                            assert(q.skip(rest.len() as int) =~= p.skip(
                                before.local_key@.len() as int,
                            ));
                            assert(child.stored_below(q.skip(rest.len() as int))
                                == before.stored_below(p.skip(before.local_key@.len() as int)));
                        } else {
                            if starts_with(p, before.local_key@) {
                                assert forall|i: int| 0 <= i < rest.len() implies q[i]
                                    == rest[i] by {
                                    assert(q[i] == p[i + at]);
                                }
                            }
                        }
                    } else {
                        if q.len() > 0 {
                            assert(q[0] == p[at as int]);
                            lemma_first_index_of(self.child_keys@, q[0]);
                        }
                        assert(self.stored(p).is_none());
                        assert(!starts_with(p, before.local_key@));
                    }
                } else {
                    if starts_with(p, before.local_key@) {
                        assert forall|i: int| 0 <= i < head.len() implies p[i] == head[i] by {
                            assert(head[i] == before.local_key@[i]);
                        }
                    }
                }
            }
        }
    }

    /// Adds a child under a byte that has none yet.
    pub fn attach(&mut self, b: u8, child: TrieNode<V>)
        requires
            old(self).wf(),
            child.wf(),
            child.local_key@.len() > 0,
            child.local_key@[0] == b,
            first_index_of(old(self).child_keys@, b).is_none(),
        ensures
            final(self).wf(),
            final(self).local_key == old(self).local_key,
            final(self).key_value == old(self).key_value,
            final(self).child_keys@ == old(self).child_keys@.push(b),
            final(self).children@ == old(self).children@.push(child),
            forall|q: Seq<u8>|
                #[trigger] final(self).stored_below(q) == if q.len() > 0 && q[0] == b {
                    child.stored(q)
                } else {
                    old(self).stored_below(q)
                },
    {
        proof {
            lemma_first_index_of(self.child_keys@, b);
        }
        let ghost before = *self;
        self.child_keys.push(b);
        self.children.push(child);
        proof {
            assert forall|q: Seq<u8>|
                #[trigger] self.stored_below(q) == if q.len() > 0 && q[0] == b {
                    child.stored(q)
                } else {
                    before.stored_below(q)
                } by {
                if q.len() > 0 {
                    lemma_first_index_push(before.child_keys@, b, q[0]);
                    lemma_first_index_of(before.child_keys@, q[0]);
                }
            }
        }
    }

    /// A node that stores one entry under the bytes of `run`.
    pub fn leaf(run: &[u8], key: &Key, value: V) -> (node: TrieNode<V>)
        ensures
            node.wf(),
            node.local_key@ == run@,
            node.children@.len() == 0,
            node.child_keys@.len() == 0,
            node.key_value matches Some(kv) && kv.0@ == key@ && kv.1 == value,
            node.stored(run@) == node.key_value,
            forall|p: Seq<u8>| p != run@ ==> (#[trigger] node.stored(p)).is_none(),
    {
        let node = TrieNode {
            key_value: Some((bytes_to_vec(key.as_slice()), value)),
            local_key: bytes_to_vec(run),
            child_keys: Vec::new(),
            children: Vec::new(),
        };
        proof {
            assert(run@.skip(run@.len() as int) =~= Seq::<u8>::empty());
            assert forall|p: Seq<u8>| p != run@ implies (#[trigger] node.stored(p)).is_none() by {
                if starts_with(p, run@) {
                    let q = p.skip(run@.len() as int);
                    if q.len() == 0 {
                        assert(p =~= run@);
                    } else {
                        lemma_first_index_of(node.child_keys@, q[0]);
                    }
                }
            }
        }
        node
    }

    /// Stores `value` under `partial_key`, with `key` as the bytes to
    /// report for it. The key must not be stored yet.
    pub fn add(&mut self, partial_key: &[u8], key: &Key, value: V)
        requires
            old(self).wf(),
            old(self).stored(partial_key@).is_none(),
        ensures
            final(self).wf(),
            final(self).stored(partial_key@) matches Some(kv) && kv.0@ == key@ && kv.1 == value,
            forall|p: Seq<u8>|
                p != partial_key@ ==> #[trigger] final(self).stored(p) == old(self).stored(p),
            old(self).local_key@.len() > 0 && partial_key@.len() > 0 && partial_key@[0] == old(
                self,
            ).local_key@[0] ==> final(self).local_key@.len() > 0 && final(self).local_key@[0]
                == old(self).local_key@[0],
        decreases *old(self),
    {
        let ghost before = *self;
        let ghost path = partial_key@;
        let n = common_head_len(partial_key, self.local_key.as_slice());
        let local_len = self.local_key.len();
        proof {
            lemma_common_head(path, self.local_key@);
        }
        if n == local_len {
            proof {
                assert(starts_with(path, before.local_key@));
            }
            if partial_key.len() > local_len {
                let c = partial_key[local_len];
                let rest = slice_subrange(partial_key, local_len, partial_key.len());
                proof {
                    assert(rest@ =~= path.skip(local_len as int));
                    lemma_first_index_of(self.child_keys@, c);
                }
                match position_of(self.child_keys.as_slice(), c) {
                    None => {
                        let child = Self::leaf(rest, key, value);
                        self.attach(c, child);
                        proof {
                            assert(self.stored(path) == self.stored_below(rest@));
                            assert(self.stored_below(rest@) == child.stored(rest@));
                            assert forall|p: Seq<u8>| p != path implies #[trigger] self.stored(p)
                                == before.stored(p) by {
                                if starts_with(p, before.local_key@) {
                                    let q = p.skip(local_len as int);
                                    if q == rest@ {
                                        assert(p =~= before.local_key@ + q);
                                        assert(path =~= before.local_key@ + rest@);
                                    }
                                    if q.len() > 0 && q[0] == c {
                                        assert(self.stored_below(q) == child.stored(q));
                                        assert(before.stored_below(q).is_none());
                                    }
                                }
                            }
                        }
                    },
                    Some(i) => {
                        self.children[i].add(rest, key, value);
                        proof {
                            assert(self.child_keys == before.child_keys);
                            assert(self.key_value == before.key_value);
                            assert(self.local_key == before.local_key);
                            assert(self.children@.len() == before.children@.len());
                            assert(self.stored_below(rest@) == self.children@[i as int].stored(
                                rest@,
                            ));
                            assert(self.stored(path) == self.stored_below(rest@));
                            assert forall|p: Seq<u8>| p != path implies #[trigger] self.stored(p)
                                == before.stored(p) by {
                                if starts_with(p, before.local_key@) {
                                    let q = p.skip(local_len as int);
                                    if q == rest@ {
                                        assert(p =~= before.local_key@ + q);
                                        assert(path =~= before.local_key@ + rest@);
                                    }
                                    if q.len() > 0 {
                                        lemma_first_index_of(self.child_keys@, q[0]);
                                        match first_index_of(self.child_keys@, q[0]) {
                                            Some(j) => {
                                                if j == i {
                                                    assert(self.children@[i as int].stored(q)
                                                        == before.children@[i as int].stored(q));
                                                } else {
                                                    assert(self.children@[j]
                                                        == before.children@[j]);
                                                }
                                                assert(self.stored_below(q)
                                                    == self.children@[j].stored(q));
                                                assert(before.stored_below(q)
                                                    == before.children@[j].stored(q));
                                            },
                                            None => {},
                                        }
                                    }
                                }
                            }
                        }
                    },
                }
            } else {
                proof {
                    assert(path.skip(local_len as int) =~= Seq::<u8>::empty());
                }
                self.key_value = Some((bytes_to_vec(key.as_slice()), value));
                proof {
                    assert(self.stored(path) == self.stored_below(path.skip(local_len as int)));
                    assert(self.stored(path) == self.key_value);
                    assert forall|p: Seq<u8>| p != path implies #[trigger] self.stored(p)
                        == before.stored(p) by {
                        if starts_with(p, before.local_key@) {
                            let q = p.skip(local_len as int);
                            if q.len() == 0 {
                                assert(p =~= path);
                            }
                        }
                    }
                }
            }
        } else {
            self.cut(n);
            let ghost halved = *self;
            if n == partial_key.len() {
                proof {
                    assert(path =~= halved.local_key@);
                    assert(path.skip(n as int) =~= Seq::<u8>::empty());
                }
                self.key_value = Some((bytes_to_vec(key.as_slice()), value));
                proof {
                    assert(starts_with(path, self.local_key@));
                    assert(self.stored(path) == self.stored_below(path.skip(n as int)));
                    assert(self.stored(path) == self.key_value);
                    assert forall|p: Seq<u8>| p != path implies #[trigger] self.stored(p)
                        == before.stored(p) by {
                        assert(halved.stored(p) == before.stored(p));
                        if starts_with(p, halved.local_key@) {
                            let q = p.skip(n as int);
                            if q.len() == 0 {
                                assert(p =~= path);
                            }
                        }
                    }
                }
            } else {
                let c = partial_key[n];
                let rest = slice_subrange(partial_key, n, partial_key.len());
                proof {
                    assert(rest@ =~= path.skip(n as int));
                    lemma_first_index_of(self.child_keys@, c);
                }
                let child = Self::leaf(rest, key, value);
                self.attach(c, child);
                proof {
                    assert(starts_with(path, halved.local_key@));
                    assert(self.stored(path) == self.stored_below(rest@));
                    assert(self.stored_below(rest@) == child.stored(rest@));
                    assert forall|p: Seq<u8>| p != path implies #[trigger] self.stored(p)
                        == before.stored(p) by {
                        assert(halved.stored(p) == before.stored(p));
                        if starts_with(p, halved.local_key@) {
                            let q = p.skip(n as int);
                            if q == rest@ {
                                assert(p =~= halved.local_key@ + q);
                                assert(path =~= halved.local_key@ + rest@);
                            }
                            if q.len() > 0 && q[0] == c {
                                assert(self.stored_below(q) == child.stored(q));
                                assert(halved.stored_below(q).is_none());
                            }
                        }
                    }
                }
            }
        }
    }
}


/// Whether `after` is `before` after an insertion of `value` under the path
/// `path`, with the key bytes `key`, that ended with `r`: an existing path
/// keeps its entry and nothing changes; a new path gets its entry, and every
/// other path keeps what it stored.
pub open spec fn grown<V>(
    before: TrieNode<V>,
    after: TrieNode<V>,
    path: Seq<u8>,
    key: Seq<u8>,
    value: V,
    r: InsertResult,
) -> bool {
    match r {
        InsertResult::Failed => false,
        InsertResult::Existing => before.stored(path).is_some() && after == before,
        InsertResult::Inserted => {
            &&& before.stored(path).is_none()
            &&& after.stored(path) matches Some(kv) && kv.0@ == key && kv.1 == value
            &&& forall|p: Seq<u8>| p != path ==> #[trigger] after.stored(p) == before.stored(p)
        },
    }
}

impl<V> TrieNode<V> {
    /// Nothing is stored in a node that holds nothing.
    pub proof fn lemma_blank_stores_nothing(&self, p: Seq<u8>)
        requires
            self.is_blank(),
        ensures
            self.stored(p).is_none(),
    {
        let q = p.skip(0);
        if q.len() > 0 {
            lemma_first_index_of(self.child_keys@, q[0]);
        }
    }

    /// Makes an empty trie store one entry under `partial_key`.
    pub fn fill(&mut self, partial_key: Vec<u8>, key: Key, value: V)
        requires
            old(self).wf(),
            old(self).is_blank(),
        ensures
            final(self).wf(),
            grown(*old(self), *final(self), partial_key@, key@, value, InsertResult::Inserted),
            final(self).local_key@ == partial_key@,
    {
        let ghost before = *self;
        let ghost path = partial_key@;
        self.local_key = partial_key;
        self.key_value = Some((key, value));
        proof {
            assert(path.skip(path.len() as int) =~= Seq::<u8>::empty());
            before.lemma_blank_stores_nothing(path);
            assert forall|p: Seq<u8>| p != path implies #[trigger] self.stored(p)
                == before.stored(p) by {
                before.lemma_blank_stores_nothing(p);
                if starts_with(p, path) {
                    let q = p.skip(path.len() as int);
                    if q.len() == 0 {
                        assert(p =~= path);
                    } else {
                        lemma_first_index_of(self.child_keys@, q[0]);
                    }
                }
            }
        }
    }

    /// Stores `value` under `key` as it is written, unless the key is
    /// stored already.
    pub fn insert(&mut self, key: Key, value: V) -> (r: InsertResult)
        requires
            old(self).wf(),
            key@.len() > 0 || old(self).is_blank(),
        ensures
            final(self).wf(),
            grown(*old(self), *final(self), key@, key@, value, r),
    {
        if self.is_empty() {
            let run = bytes_to_vec(key.as_slice());
            self.fill(run, key, value);
            return InsertResult::Inserted;
        }
        let path = bytes_to_vec(key.as_slice());
        self.insert_recursive(path.as_slice(), &key, value)
    }

    /// Stores `value` under `partial_key`, with `key` as the bytes to
    /// report for it, unless `partial_key` is stored already.
    pub fn insert_recursive(&mut self, partial_key: &[u8], key: &Key, value: V) -> (r: InsertResult)
        requires
            old(self).wf(),
            partial_key@.len() > 0,
        ensures
            final(self).wf(),
            grown(*old(self), *final(self), partial_key@, key@, value, r),
    {
        if self.get(partial_key).is_some() {
            return InsertResult::Existing;
        }
        self.add(partial_key, key, value);
        InsertResult::Inserted
    }

    /// Stores `value` under the domain pattern `key`: under its bytes from
    /// last to first.
    pub fn domain_insert(&mut self, key: Key, value: V) -> (r: InsertResult)
        requires
            old(self).wf(),
            key@.len() > 0 || old(self).is_blank(),
        ensures
            final(self).wf(),
            grown(*old(self), *final(self), key@.reverse(), key@, value, r),
    {
        let partial_key = reversed(key.as_slice());
        if self.is_empty() {
            self.fill(partial_key, key, value);
            return InsertResult::Inserted;
        }
        self.insert_recursive(partial_key.as_slice(), &key, value)
    }

    /// What a lookup of the reversed domain `partial_key` finds from this
    /// node. Where the key goes on behind the node's run, the child for its
    /// next byte decides; where it ends with the run, the node's entry is
    /// found. Where the key parts from the run at the run's last byte, and
    /// that byte is `*`, the node's entry is found if what is left of the
    /// key holds no dot.
    pub open spec fn lookup_spec(&self, partial_key: Seq<u8>) -> Option<KeyValue<Key, V>>
        decreases self,
    {
        let n = common_head(partial_key, self.local_key@);
        if n >= partial_key.len() || n >= self.local_key@.len() {
            if partial_key.len() > self.local_key@.len() {
                match first_index_of(self.child_keys@, partial_key[self.local_key@.len() as int]) {
                    Some(i) => if 0 <= i < self.children@.len() {
                        self.children@[i].lookup_spec(partial_key.skip(self.local_key@.len() as int))
                    } else {
                        None
                    },
                    None => None,
                }
            } else if partial_key.len() == self.local_key@.len() {
                self.key_value
            } else {
                None
            }
        } else if n + 1 == self.local_key@.len() && self.local_key@[n as int] == STAR && last_dot(
            partial_key.skip(n as int),
        ).is_none() {
            self.key_value
        } else {
            None
        }
    }

    /// Finds the entry whose pattern matches the reversed domain
    /// `partial_key`.
    pub fn domain_lookup_recursive(&self, partial_key: &[u8]) -> (r: Option<&KeyValue<Key, V>>)
        requires
            self.wf(),
            partial_key@.len() > 0,
        ensures
            match r {
                Some(kv) => self.lookup_spec(partial_key@) == Some(*kv),
                None => self.lookup_spec(partial_key@).is_none(),
            },
        decreases self,
    {
        let n = common_head_len(partial_key, self.local_key.as_slice());
        let local_len = self.local_key.len();
        proof {
            lemma_common_head_bound(partial_key@, self.local_key@);
        }
        if n >= partial_key.len() || n >= local_len {
            if partial_key.len() > local_len {
                match position_of(self.child_keys.as_slice(), partial_key[local_len]) {
                    None => None,
                    Some(i) => {
                        proof {
                            lemma_first_index_of(self.child_keys@, partial_key@[local_len as int]);
                        }
                        let rest = slice_subrange(partial_key, local_len, partial_key.len());
                        assert(rest@ =~= partial_key@.skip(local_len as int));
                        self.children[i].domain_lookup_recursive(rest)
                    },
                }
            } else if partial_key.len() == local_len {
                self.key_value.as_ref()
            } else {
                None
            }
        } else if n + 1 == local_len && self.local_key[n] == STAR {
            let left = slice_subrange(partial_key, n, partial_key.len());
            assert(left@ =~= partial_key@.skip(n as int));
            if find_last_dot(left).is_some() {
                None
            } else {
                self.key_value.as_ref()
            }
        } else {
            None
        }
    }

    /// Finds the entry whose pattern matches the domain `key`.
    pub fn domain_lookup(&self, key: &[u8]) -> (r: Option<&KeyValue<Key, V>>)
        requires
            self.wf(),
            key@.len() > 0,
        ensures
            match r {
                Some(kv) => self.lookup_spec(key@.reverse()) == Some(*kv),
                None => self.lookup_spec(key@.reverse()).is_none(),
            },
    {
        let partial_key = reversed(key);
        self.domain_lookup_recursive(partial_key.as_slice())
    }
}


/// Whether `after` is `before` after a removal of the path `path` that
/// ended with `r`: a path that is not stored is not found and nothing
/// changes; a stored path loses its entry, and every other path keeps what
/// it stored.
pub open spec fn shrunk<V>(
    before: TrieNode<V>,
    after: TrieNode<V>,
    path: Seq<u8>,
    r: RemoveResult,
) -> bool {
    match r {
        RemoveResult::NotFound => before.stored(path).is_none() && after == before,
        RemoveResult::Removed => {
            &&& before.stored(path).is_some()
            &&& after.stored(path).is_none()
            &&& forall|p: Seq<u8>| p != path ==> #[trigger] after.stored(p) == before.stored(p)
        },
    }
}

impl<V> TrieNode<V> {
    /// Whether the node holds no entry and no child; its run may be left.
    pub open spec fn bare(&self) -> bool {
        &&& self.key_value.is_none()
        &&& self.child_keys@.len() == 0
        &&& self.children@.len() == 0
    }

    /// Nothing is stored in a node that holds no entry and no child.
    pub proof fn lemma_bare_stores_nothing(&self, p: Seq<u8>)
        requires
            self.bare(),
        ensures
            self.stored(p).is_none(),
    {
        let q = p.skip(self.local_key@.len() as int);
        if q.len() > 0 {
            lemma_first_index_of(self.child_keys@, q[0]);
        }
    }

    /// Joins a node that holds no entry of its own with its only child:
    /// the node takes the child's run behind its own, and the child's entry
    /// and children. What is stored under each path stays as it was.
    pub fn merge_only_child(&mut self)
        requires
            old(self).wf(),
            old(self).children@.len() == 1,
            old(self).key_value.is_none(),
        ensures
            final(self).wf(),
            final(self).local_key@ == old(self).local_key@ + old(self).children@[0].local_key@,
            final(self).key_value == old(self).children@[0].key_value,
            final(self).child_keys == old(self).children@[0].child_keys,
            final(self).children == old(self).children@[0].children,
            forall|p: Seq<u8>| #[trigger] final(self).stored(p) == old(self).stored(p),
    {
        let ghost before = *self;
        let k = self.child_keys.remove(0);
        let mut child = self.children.remove(0);
        let ghost only = child;
        assert(before.children@[0] == only);
        assert(only.wf());
        self.key_value = child.key_value.take();
        self.local_key.append(&mut child.local_key);
        assert(child.child_keys == only.child_keys);
        assert(child.children == only.children);
        self.child_keys = child.child_keys;
        self.children = child.children;
        assert(self.wf());
        proof {
            let head = before.local_key@;
            let tail = only.local_key@;
            assert(before.children@[0] == only);
            assert(before.child_keys@ =~= seq![k]);
            assert(k == tail[0]);
            assert forall|p: Seq<u8>| #[trigger] self.stored(p) == before.stored(p) by {
                if starts_with(p, head) {
                    let q = p.skip(head.len() as int);
                    if q.len() > 0 {
                        lemma_first_index_of(before.child_keys@, q[0]);
                        assert(q[0] == p[head.len() as int]);
                        if q[0] == k {
                            assert(first_index_of(before.child_keys@, k) == Some(0int));
                            assert(before.stored(p) == only.stored(q));
                            if starts_with(q, tail) {
                                assert forall|i: int| 0 <= i < self.local_key@.len() implies p[i]
                                    == self.local_key@[i] by {
                                    if i >= head.len() {
                                        assert(p[i] == q[i - head.len()]);
                                    }
                                }
                                assert(q.skip(tail.len() as int) =~= p.skip(
                                    self.local_key@.len() as int,
                                ));
                                assert(self.stored_below(p.skip(self.local_key@.len() as int))
                                    == only.stored_below(q.skip(tail.len() as int)));
                            } else {
                                if starts_with(p, self.local_key@) {
                                    assert forall|i: int| 0 <= i < tail.len() implies q[i]
                                        == tail[i] by {
                                        assert(q[i] == p[i + head.len()]);
                                        assert(self.local_key@[i + head.len()] == tail[i]);
                                    }
                                }
                            }
                        } else {
                            assert(self.local_key@[head.len() as int] == k);
                            assert(!starts_with(p, self.local_key@));
                        }
                    } else {
                        assert(!starts_with(p, self.local_key@));
                    }
                } else {
                    if starts_with(p, self.local_key@) {
                        assert forall|i: int| 0 <= i < head.len() implies p[i] == head[i] by {
                            assert(self.local_key@[i] == head[i]);
                        }
                    }
                }
            }
        }
    }

    /// Removes the entry that is stored behind the node's run under
    /// `partial_key`, which must be stored there. A child that is left with
    /// no entry and no child is taken out, and a node that is left with no
    /// entry of its own and a single child is joined with that child.
    pub fn remove_present(&mut self, partial_key: &[u8])
        requires
            old(self).wf(),
            partial_key@.len() > 0,
            old(self).stored_below(partial_key@).is_some(),
        ensures
            final(self).wf(),
            final(self).stored(old(self).local_key@ + partial_key@).is_none(),
            forall|p: Seq<u8>|
                p != old(self).local_key@ + partial_key@ ==> #[trigger] final(self).stored(p)
                    == old(self).stored(p),
            old(self).local_key@.len() > 0 ==> final(self).local_key@.len() > 0
                && final(self).local_key@[0] == old(self).local_key@[0],
        decreases *old(self),
    {
        let ghost before = *self;
        let ghost rest = partial_key@;
        let ghost run = before.local_key@;
        let ghost path = run + rest;
        let c = partial_key[0];
        proof {
            lemma_first_index_of(self.child_keys@, c);
        }
        let index = match position_of(self.child_keys.as_slice(), c) {
            Some(i) => i,
            None => 0,
        };
        let ghost child = before.children@[index as int];
        let child_len = self.children[index].local_key.len();
        proof {
            assert(before.stored_below(rest) == child.stored(rest));
            assert(starts_with(rest, child.local_key@));
        }
        if partial_key.len() > child_len {
            let deeper = slice_subrange(partial_key, child_len, partial_key.len());
            proof {
                assert(deeper@ =~= rest.skip(child_len as int));
                assert(child.local_key@ + deeper@ =~= rest);
            }
            self.children[index].remove_present(deeper);
        } else {
            proof {
                assert(rest.skip(child_len as int) =~= Seq::<u8>::empty());
            }
            self.children[index].clear_entry();
        }
        let ghost post = *self;
        proof {
            assert(post.child_keys == before.child_keys);
            assert(post.key_value == before.key_value);
            assert(post.local_key == before.local_key);
            assert(post.children@.len() == before.children@.len());
            let after = post.children@[index as int];
            assert(after.stored(rest).is_none());
            assert forall|q: Seq<u8>| q != rest implies #[trigger] post.stored_below(q)
                == before.stored_below(q) by {
                if q.len() > 0 {
                    lemma_first_index_of(post.child_keys@, q[0]);
                    match first_index_of(post.child_keys@, q[0]) {
                        Some(j) => {
                            if j == index {
                                assert(after.stored(q) == child.stored(q));
                            } else {
                                assert(post.children@[j] == before.children@[j]);
                            }
                            assert(post.stored_below(q) == post.children@[j].stored(q));
                            assert(before.stored_below(q) == before.children@[j].stored(q));
                        },
                        None => {},
                    }
                }
            }
            assert(post.stored_below(rest) == after.stored(rest));
        }
        if self.children[index].key_value.is_none() && self.children[index].child_keys.len() == 0 {
            let ghost dropped = self.children@[index as int];
            self.child_keys.remove(index);
            self.children.remove(index);
            proof {
                assert forall|k: int| 0 <= k < self.children@.len() implies self.children@[k]
                    == post.children@[if k < index {
                    k
                } else {
                    k + 1
                }] && self.child_keys@[k] == post.child_keys@[if k < index {
                    k
                } else {
                    k + 1
                }] by {}
                assert(self.wf());
                assert forall|q: Seq<u8>| #[trigger] self.stored_below(q) == post.stored_below(
                    q,
                ) by {
                    if q.len() > 0 {
                        lemma_first_index_remove(post.child_keys@, index as int, q[0]);
                        lemma_first_index_of(post.child_keys@, q[0]);
                        match first_index_of(post.child_keys@, q[0]) {
                            Some(j) => {
                                if j == index {
                                    dropped.lemma_bare_stores_nothing(q);
                                }
                            },
                            None => {},
                        }
                    }
                }
            }
        }
        let ghost pruned = *self;
        proof {
            assert(pruned.local_key == before.local_key);
            assert(path.skip(run.len() as int) =~= rest);
            assert(starts_with(path, run));
            assert forall|p: Seq<u8>| p != path implies #[trigger] pruned.stored(p)
                == before.stored(p) by {
                if starts_with(p, run) {
                    let q = p.skip(run.len() as int);
                    if q == rest {
                        assert(p =~= run + q);
                    }
                    assert(pruned.stored_below(q) == post.stored_below(q));
                }
            }
            assert(pruned.stored_below(rest) == post.stored_below(rest));
        }
        if self.child_keys.len() == 1 && self.key_value.is_none() {
            self.merge_only_child();
        }
    }

    /// Takes the entry of this very node away.
    pub fn clear_entry(&mut self)
        requires
            old(self).wf(),
        ensures
            final(self).wf(),
            final(self).local_key == old(self).local_key,
            final(self).child_keys == old(self).child_keys,
            final(self).children == old(self).children,
            final(self).key_value.is_none(),
            final(self).stored(old(self).local_key@).is_none(),
            forall|p: Seq<u8>|
                p != old(self).local_key@ ==> #[trigger] final(self).stored(p) == old(self).stored(
                    p,
                ),
    {
        let ghost before = *self;
        self.key_value = None;
        proof {
            let run = before.local_key@;
            assert(run.skip(run.len() as int) =~= Seq::<u8>::empty());
            assert forall|p: Seq<u8>| p != run implies #[trigger] self.stored(p) == before.stored(
                p,
            ) by {
                if starts_with(p, run) {
                    let q = p.skip(run.len() as int);
                    if q.len() == 0 {
                        assert(p =~= run);
                    }
                }
            }
        }
    }

    /// Removes the entry that is stored behind the node's run under
    /// `partial_key`.
    pub fn remove_recursive(&mut self, partial_key: &[u8]) -> (r: RemoveResult)
        requires
            old(self).wf(),
            partial_key@.len() > 0,
        ensures
            final(self).wf(),
            shrunk(*old(self), *final(self), old(self).local_key@ + partial_key@, r),
    {
        let ghost path = self.local_key@ + partial_key@;
        proof {
            assert(path.skip(self.local_key@.len() as int) =~= partial_key@);
            assert(starts_with(path, self.local_key@));
            lemma_first_index_of(self.child_keys@, partial_key@[0]);
        }
        let found = match position_of(self.child_keys.as_slice(), partial_key[0]) {
            Some(i) => self.children[i].get(partial_key).is_some(),
            None => false,
        };
        if !found {
            return RemoveResult::NotFound;
        }
        self.remove_present(partial_key);
        RemoveResult::Removed
    }

    /// Removes the entry that is stored under `partial_key`.
    pub fn remove(&mut self, partial_key: &Key) -> (r: RemoveResult)
        requires
            old(self).wf(),
        ensures
            final(self).wf(),
            shrunk(*old(self), *final(self), partial_key@, r),
    {
        if self.get(partial_key.as_slice()).is_none() {
            return RemoveResult::NotFound;
        }
        let ghost before = *self;
        let local_len = self.local_key.len();
        if partial_key.len() > local_len {
            let rest = slice_subrange(partial_key.as_slice(), local_len, partial_key.len());
            proof {
                assert(rest@ =~= partial_key@.skip(local_len as int));
                assert(self.local_key@ + rest@ =~= partial_key@);
            }
            self.remove_present(rest);
        } else {
            proof {
                assert(partial_key@ =~= self.local_key@);
            }
            self.clear_entry();
            if self.child_keys.len() == 0 {
                let ghost cleared = *self;
                self.local_key = Vec::new();
                proof {
                    assert forall|p: Seq<u8>| #[trigger] self.stored(p) == cleared.stored(p) by {
                        self.lemma_bare_stores_nothing(p);
                        cleared.lemma_bare_stores_nothing(p);
                    }
                }
            }
        }
        RemoveResult::Removed
    }

    /// Removes the entry of the domain pattern `key`.
    pub fn domain_remove(&mut self, key: &Key) -> (r: RemoveResult)
        requires
            old(self).wf(),
        ensures
            final(self).wf(),
            shrunk(*old(self), *final(self), key@.reverse(), r),
    {
        let partial_key = reversed(key.as_slice());
        self.remove(&partial_key)
    }
}


/// Whether `after` comes from `before` by an insertion of some domain
/// pattern with the value 1 or 2, whatever that insertion answered.
pub open spec fn seed_step(before: TrieNode<u8>, after: TrieNode<u8>) -> bool {
    exists|key: Seq<u8>, value: u8, r: InsertResult|
        (value == 1 || value == 2) && #[trigger] grown(before, after, key.reverse(), key, value, r)
}

/// Whether `states` is a course of insertions from `before` to `after`.
pub open spec fn seed_course(
    before: TrieNode<u8>,
    after: TrieNode<u8>,
    states: Seq<TrieNode<u8>>,
) -> bool {
    &&& states.len() > 0
    &&& states[0] == before
    &&& states.last() == after
    &&& forall|i: int| 0 <= i < states.len() - 1 ==> #[trigger] seed_step(states[i], states[i + 1])
}

/// A course of insertions with one more insertion at its end is a course
/// again.
pub proof fn lemma_course_grows(
    start: TrieNode<u8>,
    before: TrieNode<u8>,
    after: TrieNode<u8>,
    states: Seq<TrieNode<u8>>,
) -> (longer: Seq<TrieNode<u8>>)
    requires
        seed_course(start, before, states),
        seed_step(before, after),
    ensures
        seed_course(start, after, longer),
{
    let longer = states.push(after);
    assert forall|i: int| 0 <= i < longer.len() - 1 implies #[trigger] seed_step(
        longer[i],
        longer[i + 1],
    ) by {
        if i < states.len() - 1 {
            assert(seed_step(states[i], states[i + 1]));
        }
    }
    longer
}

/// Fills `root` with random domains: for each of `tlds`, a third of
/// `nb_elems_seed` times, a domain of two identifiers with the value 1, a
/// domain of two of `domains` with the value 2, and a wildcard pattern with
/// the value 2.
pub fn seed_bench_trie(
    root: &mut TrieNode<u8>,
    nb_elems_seed: i32,
    tlds: &Vec<&str>,
    domains: &Vec<&str>,
)
    requires
        old(root).wf(),
        domains@.len() > 0,
    ensures
        final(root).wf(),
        exists|states: Seq<TrieNode<u8>>| seed_course(*old(root), *final(root), states),
{
    let mut random = unseeded_generator();
    let rounds = nb_elems_seed / 3;
    let ghost mut states: Seq<TrieNode<u8>> = seq![*root];
    let mut t: usize = 0;
    while t < tlds.len()
        invariant
            t <= tlds.len(),
            domains@.len() > 0,
            root.wf(),
            seed_course(*old(root), *root, states),
        decreases tlds.len() - t,
    {
        let tld = tlds[t];
        let mut n: i32 = 0;
        while n < rounds
            invariant
                domains@.len() > 0,
                root.wf(),
                seed_course(*old(root), *root, states),
            decreases rounds - n,
        {
            let ghost s0 = *root;
            let first = gen_uuid_seed_domain(tld);
            let ghost k0 = first@;
            let r0 = root.domain_insert(first, 1);
            proof {
                assert(grown(s0, *root, k0.reverse(), k0, 1u8, r0));
                states = lemma_course_grows(*old(root), s0, *root, states);
            }
            let ghost s1 = *root;
            let second = gen_text_seed_domain(tld, domains, &mut random);
            let ghost k1 = second@;
            let r1 = root.domain_insert(second, 2);
            proof {
                assert(grown(s1, *root, k1.reverse(), k1, 2u8, r1));
                states = lemma_course_grows(*old(root), s1, *root, states);
            }
            let ghost s2 = *root;
            let third = gen_seed_wilcard_domain(tld);
            let ghost k2 = third@;
            let r2 = root.domain_insert(third, 2);
            proof {
                assert(grown(s2, *root, k2.reverse(), k2, 2u8, r2));
                states = lemma_course_grows(*old(root), s2, *root, states);
            }
            n = n + 1;
        }
        t = t + 1;
    }
}


/// Whether the stored path `q` matches the reversed domain `p`: the two
/// are equal, or `q` ends in `*`, `p` starts with what stands before that
/// `*` and parts from `q` there, and what is left of `p` holds no dot.
pub open spec fn path_matches(q: Seq<u8>, p: Seq<u8>) -> bool {
    q == p || (q.len() > 0 && q.last() == STAR && common_head(p, q) == q.len() - 1 && p.len()
        >= q.len() && last_dot(p.skip(q.len() - 1)).is_none())
}

/// The bytes that a sequence shares with itself behind a common start are
/// those that the rests share.
pub proof fn lemma_common_head_behind(p: Seq<u8>, run: Seq<u8>, q: Seq<u8>)
    requires
        starts_with(p, run),
    ensures
        common_head(p, run + q) == run.len() + common_head(p.skip(run.len() as int), q),
    decreases run.len(),
{
    if run.len() == 0 {
        assert(run + q =~= q);
        assert(p.skip(0) =~= p);
    } else {
        assert((run + q).first() == run.first());
        assert(p.first() == run.first());
        assert((run + q).drop_first() =~= run.drop_first() + q);
        assert forall|i: int| 0 <= i < run.drop_first().len() implies p.drop_first()[i]
            == run.drop_first()[i] by {
            assert(p.drop_first()[i] == p[i + 1]);
            assert(run.drop_first()[i] == run[i + 1]);
        }
        lemma_common_head_behind(p.drop_first(), run.drop_first(), q);
        assert(p.drop_first().skip(run.len() - 1) =~= p.skip(run.len() as int));
    }
}

impl<V> TrieNode<V> {
    /// A reversed domain that is itself a stored path is found with the
    /// entry stored under it.
    pub proof fn law_stored_is_found(&self, p: Seq<u8>)
        requires
            self.wf(),
            self.stored(p).is_some(),
        ensures
            self.lookup_spec(p) == self.stored(p),
        decreases self,
    {
        let run = self.local_key@;
        lemma_common_head(p, run);
        let n = common_head(p, run);
        if n < run.len() && n < p.len() {
            assert(p[n as int] == run[n as int]);
        }
        let q = p.skip(run.len() as int);
        if q.len() > 0 {
            assert(q[0] == p[run.len() as int]);
            lemma_first_index_of(self.child_keys@, q[0]);
            let i = first_index_of(self.child_keys@, q[0]).unwrap();
            self.children@[i].law_stored_is_found(q);
        }
    }

    /// What a lookup finds is stored in the trie, under a path that matches
    /// the reversed domain. The path is the result of this proof.
    pub proof fn law_found_is_stored(&self, p: Seq<u8>) -> (q: Seq<u8>)
        requires
            self.wf(),
            self.lookup_spec(p).is_some(),
        ensures
            self.stored(q) == self.lookup_spec(p),
            path_matches(q, p),
        decreases self,
    {
        let run = self.local_key@;
        lemma_common_head(p, run);
        let n = common_head(p, run);
        if n >= p.len() || n >= run.len() {
            assert(starts_with(p, run));
            if p.len() > run.len() {
                let rest = p.skip(run.len() as int);
                let c = p[run.len() as int];
                lemma_first_index_of(self.child_keys@, c);
                let i = first_index_of(self.child_keys@, c).unwrap();
                let below = self.children@[i].law_found_is_stored(rest);
                let q = run + below;
                assert(q.skip(run.len() as int) =~= below);
                assert(starts_with(q, run));
                assert(self.children@[i].stored(below).is_some());
                assert(below[0] == self.children@[i].local_key@[0]);
                assert(self.stored(q) == self.children@[i].stored(below));
                if below == rest {
                    assert(q =~= p);
                } else {
                    lemma_common_head_behind(p, run, below);
                    assert(q.last() == below.last());
                    assert(p.skip(q.len() - 1) =~= rest.skip(below.len() - 1));
                }
                q
            } else {
                assert(p =~= run);
                assert(p.skip(run.len() as int) =~= Seq::<u8>::empty());
                p
            }
        } else {
            assert(run.skip(run.len() as int) =~= Seq::<u8>::empty());
            assert(starts_with(run, run));
            lemma_common_head(p, run);
            run
        }
    }
}

} // verus!
