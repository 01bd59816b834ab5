//! A list of patterns that is searched from its first entry to its last.
//!
//! Each entry keeps its key reversed byte by byte, so that a domain and a
//! pattern are compared from the top-level domain inwards. A pattern that
//! ends in `*` once reversed, such as `*.example.com`, stands for every
//! domain with one more label.

use vstd::prelude::*;
use vstd::slice::slice_subrange;
use crate::experiment8_trie_cursor::cursor::{
    bytes_equal, bytes_to_vec, common_head, common_head_len, find_last_dot, last_dot,
    lemma_common_head_bound, shorter, STAR,
};
use crate::{DomainLookup, InsertResult, Key, KeyValue, RemoveResult};

verus! {

/// Whether the reversed pattern `local` matches the reversed domain
/// `partial`: the two are equal, or they part at the last byte of the
/// pattern, that byte is `*`, and what is left of the domain holds no dot.
pub open spec fn entry_matches(local: Seq<u8>, partial: Seq<u8>) -> bool {
    let n = common_head(partial, local);
    if n >= shorter(partial, local) {
        partial.len() == local.len()
    } else {
        n + 1 == local.len() && local[n as int] == STAR && last_dot(partial.skip(n as int)).is_none()
    }
}

/// The index of the first entry from `from` on whose pattern matches
/// `partial`.
pub open spec fn first_match<V>(
    acl: Seq<(Vec<u8>, KeyValue<Key, V>)>,
    partial: Seq<u8>,
    from: int,
) -> Option<int>
    decreases acl.len() - from,
{
    if from < 0 || from >= acl.len() {
        None
    } else if entry_matches(acl[from].0@, partial) {
        Some(from)
    } else {
        first_match(acl, partial, from + 1)
    }
}

/// The index of the first entry from `from` on whose reversed key is
/// `partial`.
pub open spec fn first_entry<V>(
    acl: Seq<(Vec<u8>, KeyValue<Key, V>)>,
    partial: Seq<u8>,
    from: int,
) -> Option<int>
    decreases acl.len() - from,
{
    if from < 0 || from >= acl.len() {
        None
    } else if acl[from].0@ == partial {
        Some(from)
    } else {
        first_entry(acl, partial, from + 1)
    }
}

/// What a lookup of the domain `key` answers from the entries `acl`: the
/// entry of the first pattern that matches.
pub open spec fn acl_answer<V>(acl: Seq<(Vec<u8>, KeyValue<Key, V>)>, key: Seq<u8>) -> Option<
    KeyValue<Key, V>,
> {
    match first_match(acl, key.reverse(), 0) {
        Some(i) => Some(acl[i].1),
        None => None,
    }
}

/// Whether `after` is `acl` with one more entry at its end, which keeps
/// `stored` as its reversed key and answers with `key` and `value`.
pub open spec fn acl_pushed<V>(
    acl: Seq<(Vec<u8>, KeyValue<Key, V>)>,
    after: Seq<(Vec<u8>, KeyValue<Key, V>)>,
    stored: Seq<u8>,
    key: Seq<u8>,
    value: V,
) -> bool {
    &&& after.len() == acl.len() + 1
    &&& after.take(acl.len() as int) == acl
    &&& after.last().0@ == stored
    &&& after.last().1.0@ == key
    &&& after.last().1.1 == value
}

/// Whether `after` is `acl` after the removal of `key` that ended with `r`:
/// the first entry stored under the reversed key is gone, or there was none
/// and nothing changed.
pub open spec fn acl_removed<V>(
    acl: Seq<(Vec<u8>, KeyValue<Key, V>)>,
    after: Seq<(Vec<u8>, KeyValue<Key, V>)>,
    key: Seq<u8>,
    r: RemoveResult,
) -> bool {
    match first_entry(acl, key.reverse(), 0) {
        Some(i) => r == RemoveResult::Removed && after == acl.remove(i),
        None => r == RemoveResult::NotFound && after == acl,
    }
}

/// The bytes of `key` from its last to its first.
pub fn reversed(key: &[u8]) -> (r: Vec<u8>)
    ensures
        r@ == key@.reverse(),
{
    let mut r: Vec<u8> = Vec::new();
    let mut i: usize = key.len();
    while i > 0
        invariant
            i <= key.len(),
            r@.len() == key.len() - i,
            forall|j: int| 0 <= j < r@.len() ==> r@[j] == key@[key.len() - 1 - j],
        decreases i,
    {
        i = i - 1;
        r.push(key[i]);
    }
    assert(r@ =~= key@.reverse());
    r
}

/// Whether the reversed pattern `local` matches the reversed domain
/// `partial`.
pub fn pattern_matches(local: &[u8], partial: &[u8]) -> (b: bool)
    ensures
        b == entry_matches(local@, partial@),
{
    let n = common_head_len(partial, local);
    proof {
        lemma_common_head_bound(partial@, local@);
    }
    if n >= partial.len() || n >= local.len() {
        partial.len() == local.len()
    } else if n + 1 == local.len() && local[n] == STAR {
        find_last_dot(slice_subrange(partial, n, partial.len())).is_none()
    } else {
        false
    }
}

/// Searches the entries for the first pattern that matches the domain
/// `key`.
pub fn acl_lookup<'a, V>(acl: &'a Vec<(Vec<u8>, KeyValue<Key, V>)>, key: &[u8]) -> (r: Option<
    &'a KeyValue<Key, V>,
>)
    ensures
        match r {
            Some(kv) => acl_answer(acl@, key@) == Some(*kv),
            None => acl_answer(acl@, key@).is_none(),
        },
{
    let partial = reversed(key);
    let mut i: usize = 0;
    while i < acl.len()
        invariant
            i <= acl.len(),
            partial@ == key@.reverse(),
            first_match(acl@, partial@, 0) == first_match(acl@, partial@, i as int),
        decreases acl.len() - i,
    {
        if pattern_matches(acl[i].0.as_slice(), partial.as_slice()) {
            return Some(&acl[i].1);
        }
        i = i + 1;
    }
    None
}

/// Adds an entry for `key` at the end, stored under `stored`.
pub fn acl_push<V>(acl: &mut Vec<(Vec<u8>, KeyValue<Key, V>)>, stored: Vec<u8>, key: Key, value: V)
    ensures
        acl_pushed(old(acl)@, final(acl)@, stored@, key@, value),
{
    acl.push((stored, (key, value)));
    assert(acl@.take(old(acl)@.len() as int) =~= old(acl)@);
}

/// Removes the first entry that is stored under the reversed `key`.
pub fn acl_remove<V>(acl: &mut Vec<(Vec<u8>, KeyValue<Key, V>)>, key: &[u8]) -> (r: RemoveResult)
    ensures
        acl_removed(old(acl)@, final(acl)@, key@, r),
{
    let partial = reversed(key);
    let mut i: usize = 0;
    while i < acl.len()
        invariant
            i <= acl.len(),
            acl@ == old(acl)@,
            partial@ == key@.reverse(),
            first_entry(acl@, partial@, 0) == first_entry(acl@, partial@, i as int),
        decreases acl.len() - i,
    {
        if bytes_equal(acl[i].0.as_slice(), partial.as_slice()) {
            acl.remove(i);
            return RemoveResult::Removed;
        }
        i = i + 1;
    }
    RemoveResult::NotFound
}

/// A list of patterns with their entries, in the order of insertion.
#[derive(Debug)]
pub struct List<V> {
    pub acl: Vec<(Vec<u8>, KeyValue<Key, V>)>,
}

impl<V> List<V> {
    /// An empty list.
    pub fn new() -> (list: List<V>)
        ensures
            list.acl@.len() == 0,
    {
        List { acl: Vec::new() }
    }

    /// An empty list.
    pub fn root() -> (list: List<V>)
        ensures
            list.acl@.len() == 0,
    {
        List { acl: Vec::new() }
    }

    /// Adds an entry that is stored under `key` as it is written.
    pub fn insert(&mut self, key: Key, value: V) -> (r: InsertResult)
        ensures
            r == InsertResult::Inserted,
            acl_pushed(old(self).acl@, final(self).acl@, key@, key@, value),
    {
        let stored = bytes_to_vec(key.as_slice());
        acl_push(&mut self.acl, stored, key, value);
        InsertResult::Inserted
    }
}

impl<V> DomainLookup<V> for List<V> {
    /// A list has no invariant.
    open spec fn valid(&self) -> bool {
        true
    }

    open spec fn answer(&self, key: Seq<u8>) -> Option<KeyValue<Key, V>> {
        acl_answer(self.acl@, key)
    }

    /// Every insertion adds an entry at the end, also for a key that the
    /// list holds already.
    open spec fn inserted(&self, after: &Self, key: Seq<u8>, value: V, r: InsertResult) -> bool {
        r == InsertResult::Inserted && acl_pushed(self.acl@, after.acl@, key.reverse(), key, value)
    }

    open spec fn removed(&self, after: &Self, key: Seq<u8>, r: RemoveResult) -> bool {
        acl_removed(self.acl@, after.acl@, key, r)
    }

    fn domain_insert(&mut self, key: Key, value: V) -> (r: InsertResult) {
        let stored = reversed(key.as_slice());
        acl_push(&mut self.acl, stored, key, value);
        InsertResult::Inserted
    }

    fn domain_remove(&mut self, key: &Key) -> (r: RemoveResult) {
        acl_remove(&mut self.acl, key.as_slice())
    }

    fn domain_lookup(&self, key: &[u8]) -> (r: Option<&KeyValue<Key, V>>) {
        acl_lookup(&self.acl, key)
    }
}

} // verus!
