//! Lookup structures that map domain-name patterns to values.
//!
//! Every structure answers the same question: given a domain name, and for
//! the pattern trie also a URL path, which registered pattern is the most
//! specific one that matches it?

use vstd::prelude::*;

pub mod experiment3_trie;
pub mod experiment4_loop;
pub mod experiment6_fst_bitvec;
pub mod experiment8_trie_cursor;
pub mod gen_seed;
pub mod hashmap;
pub mod linear;
pub mod matcher;

verus! {

/// A stored key: the bytes of a pattern as its owner wrote them.
pub type Key = Vec<u8>;

/// A key together with the value registered under it.
pub type KeyValue<K, V> = (K, V);

/// How an insertion ended.
#[derive(Debug, PartialEq, Eq, Structural, Clone, Copy)]
pub enum InsertResult {
    /// The key was new and is now stored.
    Inserted,
    /// The key was already stored; nothing changed.
    Existing,
    /// The key is not a well-formed pattern; nothing changed.
    Failed,
}

/// How a removal ended.
#[derive(Debug, PartialEq, Eq, Structural, Clone, Copy)]
pub enum RemoveResult {
    /// The key was stored and is now gone.
    Removed,
    /// The key was not stored; nothing changed.
    NotFound,
}

/// A structure that maps domain-name patterns to values.
pub trait DomainLookup<V>: Sized {
    /// The invariant of the structure.
    spec fn valid(&self) -> bool;

    /// What a lookup of `key` answers.
    spec fn answer(&self, key: Seq<u8>) -> Option<KeyValue<Key, V>>;

    /// Whether `after` is this structure after an insertion of `value`
    /// under `key` that ended with `r`.
    spec fn inserted(&self, after: &Self, key: Seq<u8>, value: V, r: InsertResult) -> bool;

    /// Whether `after` is this structure after a removal of `key` that
    /// ended with `r`.
    spec fn removed(&self, after: &Self, key: Seq<u8>, r: RemoveResult) -> bool;

    /// Registers `value` under the pattern `key`.
    fn domain_insert(&mut self, key: Key, value: V) -> (r: InsertResult)
        requires
            old(self).valid(),
        ensures
            final(self).valid(),
            old(self).inserted(final(self), key@, value, r),
    ;

    /// Removes the pattern `key`.
    fn domain_remove(&mut self, key: &Key) -> (r: RemoveResult)
        requires
            old(self).valid(),
        ensures
            final(self).valid(),
            old(self).removed(final(self), key@, r),
    ;

    /// Finds the entry whose pattern matches the domain `key`.
    fn domain_lookup(&self, key: &[u8]) -> (r: Option<&KeyValue<Key, V>>)
        requires
            self.valid(),
        ensures
            match r {
                Some(kv) => self.answer(key@) == Some(*kv),
                None => self.answer(key@).is_none(),
            },
    ;
}

} // verus!
