//! A hash map from reversed domains to entries. It knows no wildcards: a
//! domain is found only under its own name.

use vstd::prelude::*;
use crate::linear::reversed;
use crate::{DomainLookup, InsertResult, Key, KeyValue, RemoveResult};

verus! {

/// A hash map of `hashbrown`, from the reversed key to the entry.
///
/// The map itself is hidden from the verifier; `entries` names what it
/// holds, and the four functions below say how each call changes that.
#[verifier::external_body]
pub struct DomainMap {
    table: hashbrown::HashMap<Vec<u8>, (Vec<u8>, u8)>,
}

/// What the map holds: for each reversed key that is present, its entry.
pub uninterp spec fn entries(map: DomainMap) -> Map<Seq<u8>, KeyValue<Key, u8>>;

/// The map that holds no entry.
pub open spec fn nothing() -> Map<Seq<u8>, KeyValue<Key, u8>> {
    Map::empty()
}

/// Calls `hashbrown::HashMap::new`, which gives a map that holds nothing.
#[verifier::external_body]
fn table_new() -> (map: DomainMap)
    ensures
        entries(map) == nothing(),
{
    DomainMap { table: hashbrown::HashMap::new() }
}

/// Calls `hashbrown::HashMap::insert`, which stores the entry under the key
/// and, where the key was present, replaces the entry it had.
#[verifier::external_body]
fn table_insert(map: &mut DomainMap, stored: Vec<u8>, entry: KeyValue<Key, u8>)
    ensures
        entries(*final(map)) == entries(*old(map)).insert(stored@, entry),
{
    map.table.insert(stored, entry);
}

/// Calls `hashbrown::HashMap::get`, which gives the entry stored under the
/// key, if the key is present.
#[verifier::external_body]
fn table_get<'a>(map: &'a DomainMap, stored: &[u8]) -> (r: Option<&'a KeyValue<Key, u8>>)
    ensures
        match r {
            Some(entry) => entries(*map).contains_key(stored@) && entries(*map)[stored@] == *entry,
            None => !entries(*map).contains_key(stored@),
        },
{
    map.table.get(stored)
}

/// Calls `hashbrown::HashMap::remove`, which takes the key and its entry
/// out of the map and tells whether the key was present.
#[verifier::external_body]
fn table_remove(map: &mut DomainMap, stored: &[u8]) -> (present: bool)
    ensures
        present == entries(*old(map)).contains_key(stored@),
        entries(*final(map)) == entries(*old(map)).remove(stored@),
{
    map.table.remove(stored).is_some()
}

impl DomainMap {
    /// An empty map.
    pub fn new() -> (map: DomainMap)
        ensures
            entries(map) == nothing(),
    {
        table_new()
    }
}

impl DomainLookup<u8> for DomainMap {
    /// A map has no invariant.
    open spec fn valid(&self) -> bool {
        true
    }

    /// A domain is answered with the entry stored under its reversed name.
    open spec fn answer(&self, key: Seq<u8>) -> Option<KeyValue<Key, u8>> {
        if entries(*self).contains_key(key.reverse()) {
            Some(entries(*self)[key.reverse()])
        } else {
            None
        }
    }

    /// Every insertion stores its entry under the reversed key, in place of
    /// an entry that the key had before.
    open spec fn inserted(&self, after: &Self, key: Seq<u8>, value: u8, r: InsertResult) -> bool {
        &&& r == InsertResult::Inserted
        &&& entries(*after).dom() == entries(*self).dom().insert(key.reverse())
        &&& entries(*after)[key.reverse()].0@ == key
        &&& entries(*after)[key.reverse()].1 == value
        &&& forall|other: Seq<u8>|
            other != key.reverse() && entries(*self).contains_key(other) ==> #[trigger] entries(
                *after,
            )[other] == entries(*self)[other]
    }

    /// A removal takes the reversed key out of the map, and finds nothing
    /// where the key is not present.
    open spec fn removed(&self, after: &Self, key: Seq<u8>, r: RemoveResult) -> bool {
        &&& (r == RemoveResult::Removed) == entries(*self).contains_key(key.reverse())
        &&& entries(*after) == entries(*self).remove(key.reverse())
    }

    fn domain_insert(&mut self, key: Key, value: u8) -> (r: InsertResult) {
        let stored = reversed(key.as_slice());
        table_insert(self, stored, (key, value));
        InsertResult::Inserted
    }

    fn domain_remove(&mut self, key: &Key) -> (r: RemoveResult) {
        let stored = reversed(key.as_slice());
        if table_remove(self, stored.as_slice()) {
            RemoveResult::Removed
        } else {
            RemoveResult::NotFound
        }
    }

    fn domain_lookup(&self, key: &[u8]) -> (r: Option<&KeyValue<Key, u8>>) {
        let stored = reversed(key);
        table_get(self, stored.as_slice())
    }
}

} // verus!
