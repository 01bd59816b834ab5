//! The list of patterns, with its operations as methods of its own.

use vstd::prelude::*;
use crate::experiment8_trie_cursor::cursor::bytes_to_vec;
use crate::gen_seed::{
    gen_seed_wilcard_domain, gen_text_seed_domain, gen_uuid_seed_domain, unseeded_generator,
};
use crate::linear::{
    acl_answer, acl_lookup, acl_push, acl_pushed, acl_remove, acl_removed, reversed,
};
use crate::{Key, KeyValue};

pub use crate::{InsertResult, RemoveResult};

verus! {

/// A list of patterns with their entries, in the order of insertion.
#[derive(Debug)]
pub struct List<V> {
    pub acl: Vec<(Vec<u8>, KeyValue<Key, V>)>,
}

impl<V> List<V> {
    /// An empty list.
    pub fn new() -> (list: List<V>)
        ensures
            list.acl@.len() == 0,
    {
        List { acl: Vec::new() }
    }

    /// An empty list.
    pub fn root() -> (list: List<V>)
        ensures
            list.acl@.len() == 0,
    {
        List { acl: Vec::new() }
    }

    /// Adds an entry that is stored under `key` as it is written.
    pub fn insert(&mut self, key: Key, value: V) -> (r: InsertResult)
        ensures
            r == InsertResult::Inserted,
            acl_pushed(old(self).acl@, final(self).acl@, key@, key@, value),
    {
        let stored = bytes_to_vec(key.as_slice());
        acl_push(&mut self.acl, stored, key, value);
        InsertResult::Inserted
    }

    /// Adds an entry for the domain pattern `key`, also where the list
    /// holds that key already.
    pub fn domain_insert(&mut self, key: Key, value: V) -> (r: InsertResult)
        ensures
            r == InsertResult::Inserted,
            acl_pushed(old(self).acl@, final(self).acl@, key@.reverse(), key@, value),
    {
        let stored = reversed(key.as_slice());
        acl_push(&mut self.acl, stored, key, value);
        InsertResult::Inserted
    }

    /// Removes the first entry of the domain pattern `key`.
    pub fn domain_remove(&mut self, key: &Key) -> (r: RemoveResult)
        ensures
            acl_removed(old(self).acl@, final(self).acl@, key@, r),
    {
        acl_remove(&mut self.acl, key.as_slice())
    }

    /// Finds the entry of the first pattern that matches the domain `key`.
    pub fn domain_lookup(&self, key: &[u8]) -> (r: Option<&KeyValue<Key, V>>)
        ensures
            match r {
                Some(kv) => acl_answer(self.acl@, key@) == Some(*kv),
                None => acl_answer(self.acl@, key@).is_none(),
            },
    {
        acl_lookup(&self.acl, key)
    }
}


/// Fills `root` with random domains: for each of `tlds`, a third of
/// `nb_elems_seed` times, a domain of two identifiers with the value 1, a
/// domain of two of `domains` with the value 2, and a wildcard pattern with
/// the value 2. Every insertion adds an entry, three in each round.
pub fn seed_bench_trie(
    root: &mut List<u8>,
    nb_elems_seed: i32,
    tlds: &Vec<&str>,
    domains: &Vec<&str>,
)
    requires
        domains@.len() > 0,
    ensures
        final(root).acl@.len() >= old(root).acl@.len(),
        final(root).acl@.take(old(root).acl@.len() as int) == old(root).acl@,
        forall|i: int|
            old(root).acl@.len() <= i < final(root).acl@.len() ==> {
                let entry = #[trigger] final(root).acl@[i];
                entry.0@ == entry.1.0@.reverse() && (entry.1.1 == 1 || entry.1.1 == 2)
            },
        nb_elems_seed >= 3 ==> final(root).acl@.len() == old(root).acl@.len() + 3 * tlds@.len() * (
        nb_elems_seed / 3),
        nb_elems_seed < 3 ==> final(root).acl@.len() == old(root).acl@.len(),
{
    let mut random = unseeded_generator();
    let rounds: i32 = if nb_elems_seed >= 3 {
        nb_elems_seed / 3
    } else {
        0
    };
    let ghost start = root.acl@;
    let mut t: usize = 0;
    assert(root.acl@.take(start.len() as int) =~= start);
    while t < tlds.len()
        invariant
            t <= tlds.len(),
            domains@.len() > 0,
            nb_elems_seed >= 3 ==> rounds == nb_elems_seed / 3,
            nb_elems_seed < 3 ==> rounds == 0,
            start == old(root).acl@,
            root.acl@.len() >= start.len(),
            root.acl@.take(start.len() as int) == start,
            forall|i: int|
                start.len() <= i < root.acl@.len() ==> {
                    let entry = #[trigger] root.acl@[i];
                    entry.0@ == entry.1.0@.reverse() && (entry.1.1 == 1 || entry.1.1 == 2)
                },
            rounds > 0 ==> root.acl@.len() == start.len() + 3 * t * rounds,
            rounds <= 0 ==> root.acl@.len() == start.len(),
        decreases tlds.len() - t,
    {
        let tld = tlds[t];
        let mut n: i32 = 0;
        let ghost at_tld = root.acl@.len();
        while n < rounds
            invariant
                0 <= n,
                n <= rounds || rounds <= 0,
                rounds <= 0 ==> n == 0,
                domains@.len() > 0,
                root.acl@.len() >= start.len(),
                root.acl@.take(start.len() as int) == start,
                forall|i: int|
                    start.len() <= i < root.acl@.len() ==> {
                        let entry = #[trigger] root.acl@[i];
                        entry.0@ == entry.1.0@.reverse() && (entry.1.1 == 1 || entry.1.1 == 2)
                    },
                root.acl@.len() == at_tld + 3 * n,
            decreases rounds - n,
        {
            let ghost before = root.acl@;
            root.domain_insert(gen_uuid_seed_domain(tld), 1);
            root.domain_insert(gen_text_seed_domain(tld, domains, &mut random), 2);
            root.domain_insert(gen_seed_wilcard_domain(tld), 2);
            proof {
                assert(root.acl@.take(start.len() as int) =~= start) by {
                    assert forall|i: int| 0 <= i < start.len() implies root.acl@[i] == start[i] by {
                        let a = root.acl@.take((before.len() + 2) as int);
                        let b = a.take((before.len() + 1) as int);
                        assert(root.acl@[i] == a[i]);
                        assert(a[i] == b[i]);
                        assert(b[i] == before[i]);
                        assert(before[i] == before.take(start.len() as int)[i]);
                    }
                }
                assert forall|i: int| start.len() <= i < root.acl@.len() implies {
                    let entry = #[trigger] root.acl@[i];
                    entry.0@ == entry.1.0@.reverse() && (entry.1.1 == 1 || entry.1.1 == 2)
                } by {
                    let a = root.acl@.take((before.len() + 2) as int);
                    let b = a.take((before.len() + 1) as int);
                    if i < before.len() {
                        assert(root.acl@[i] == a[i]);
                        assert(a[i] == b[i]);
                        assert(b[i] == before[i]);
                    } else if i == before.len() {
                        assert(root.acl@[i] == a[i]);
                        assert(a[i] == b[i]);
                        assert(b[i] == b.last());
                    } else if i == before.len() + 1 {
                        assert(root.acl@[i] == a[i]);
                        assert(a[i] == a.last());
                    }
                }
            }
            n = n + 1;
        }
        proof {
            if rounds > 0 {
                assert(3 * (t + 1) * rounds == 3 * t * rounds + 3 * rounds) by (nonlinear_arith);
            }
        }
        t = t + 1;
    }
}

} // verus!
