//! What an insertion or a removal promises leaves no later answer open.
//!
//! A regular expression that leads to no stored entry never decides a
//! lookup. So an answer depends on the stored entries and on the order of
//! the expressions that do lead somewhere, and both are fixed by what the
//! trie held before and by the key that was inserted or removed.

use vstd::prelude::*;
use crate::matcher::regex_accepts;
use crate::{DomainLookup, InsertResult, Key, KeyValue, RemoveResult};
use super::cursor::{first_index_of, lemma_first_index_of, CursorView};
use super::meaning::{
    extends, law_lookup_is_best_match, law_trie_is_bounded, lemma_live_is_bounded,
};
use super::trie::{
    domain_view, first_source, keeps_order, key_steps, lemma_first_source, sources,
    starts_with_bytes, thinned, Step, TrieNode,
};

verus! {

impl<V> TrieNode<V> {
    /// Those of `list` that lead to a stored entry behind `at`, in the order
    /// of `list`.
    pub open spec fn live_part(&self, at: Seq<Step>, list: Seq<Seq<u8>>) -> Seq<Seq<u8>>
        decreases list.len(),
    {
        if list.len() == 0 {
            Seq::empty()
        } else {
            let rest = self.live_part(at, list.drop_first());
            if self.live(at.push(Step::Regex(list.first()))) {
                seq![list.first()] + rest
            } else {
                rest
            }
        }
    }

    /// The regular expressions registered behind `at` that lead to a stored
    /// entry, in their order.
    pub open spec fn live_alternatives(&self, at: Seq<Step>) -> Seq<Seq<u8>> {
        self.live_part(at, self.alternatives(at))
    }

    /// What the regular expressions of `list` lead to behind `at`, tried
    /// one after the other.
    pub open spec fn first_hit(&self, bound: nat, at: Seq<Step>, c: CursorView, list: Seq<Seq<u8>>) -> Option<
        KeyValue<Key, V>,
    >
        decreases list.len(),
    {
        if list.len() == 0 {
            None
        } else {
            let here = if regex_accepts(list.first(), c.regex_subject()) {
                self.best(bound, at.push(Step::Regex(list.first())), c.after_regex())
            } else {
                None
            };
            if here.is_some() {
                here
            } else {
                self.first_hit(bound, at, c, list.drop_first())
            }
        }
    }
}

/// What the regular expressions behind `at` lead to is what they lead to
/// when tried one after the other.
pub proof fn lemma_regex_is_first_hit<V>(
    node: TrieNode<V>,
    bound: nat,
    at: Seq<Step>,
    c: CursorView,
    from: nat,
)
    requires
        at.len() <= bound,
        from <= node.alternatives(at).len(),
    ensures
        node.best_regex(bound, at, c, from) == node.first_hit(
            bound,
            at,
            c,
            node.alternatives(at).skip(from as int),
        ),
    decreases node.alternatives(at).len() - from,
{
    let all = node.alternatives(at);
    let list = all.skip(from as int);
    if from < all.len() {
        assert(list.first() == all[from as int]);
        assert(list.drop_first() =~= all.skip((from + 1) as int));
        lemma_regex_is_first_hit(node, bound, at, c, from + 1);
    }
}

/// A regular expression that leads to no stored entry is tried in vain:
/// leaving such expressions out of a list changes nothing.
pub proof fn lemma_hit_skips_dead<V>(
    node: TrieNode<V>,
    bound: nat,
    at: Seq<Step>,
    c: CursorView,
    list: Seq<Seq<u8>>,
)
    ensures
        node.first_hit(bound, at, c, list) == node.first_hit(bound, at, c, node.live_part(at, list)),
    decreases list.len(),
{
    if list.len() > 0 {
        let rest = list.drop_first();
        lemma_hit_skips_dead(node, bound, at, c, rest);
        if node.live(at.push(Step::Regex(list.first()))) {
            let kept = seq![list.first()] + node.live_part(at, rest);
            assert(kept.first() == list.first());
            assert(kept.drop_first() =~= node.live_part(at, rest));
        }
    }
}

/// Whether two answers are alike: both are none, or they give the same
/// key bytes and the same value.
pub open spec fn alike<V>(x: Option<KeyValue<Key, V>>, y: Option<KeyValue<Key, V>>) -> bool {
    match (x, y) {
        (Some(a), Some(b)) => a.0@ == b.0@ && a.1 == b.1,
        (None, None) => true,
        _ => false,
    }
}

/// Whether two tries store entries that are alike under the same paths.
pub open spec fn same_entries<V>(one: TrieNode<V>, other: TrieNode<V>) -> bool {
    forall|p: Seq<Step>| alike(#[trigger] one.stored(p), other.stored(p))
}

/// Two tries that store entries under the same paths have the same live
/// paths.
pub proof fn lemma_same_live<V>(one: TrieNode<V>, other: TrieNode<V>, at: Seq<Step>)
    requires
        same_entries(one, other),
    ensures
        one.live(at) == other.live(at),
{
    if one.live(at) {
        let p = choose|p: Seq<Step>| extends(p, at) && (#[trigger] one.stored(p)).is_some();
        assert(alike(one.stored(p), other.stored(p)));
        assert(other.stored(p).is_some());
    }
    if other.live(at) {
        let p = choose|p: Seq<Step>| extends(p, at) && (#[trigger] other.stored(p)).is_some();
        assert(alike(one.stored(p), other.stored(p)));
    }
}

/// Whether two tries store the same entries and keep the same order among
/// the regular expressions that lead to a stored entry.
pub open spec fn same_content<V>(one: TrieNode<V>, other: TrieNode<V>) -> bool {
    &&& same_entries(one, other)
    &&& forall|at: Seq<Step>| #[trigger] one.live_alternatives(at) == other.live_alternatives(at)
}

/// Behind `at`, two tries with the same content answer alike.
pub proof fn lemma_same_best<V>(
    one: TrieNode<V>,
    other: TrieNode<V>,
    bound: nat,
    at: Seq<Step>,
    c: CursorView,
)
    requires
        same_content(one, other),
        one.bounded(bound),
        other.bounded(bound),
    ensures
        alike(one.best(bound, at, c), other.best(bound, at, c)),
    decreases bound + 1 - at.len(), 1nat, 0nat,
{
    lemma_same_live(one, other, at);
    if one.live(at) {
        lemma_live_is_bounded(one, bound, at);
        assert(alike(one.stored(at), other.stored(at)));
        if !c.at_end() {
            lemma_same_best(one, other, bound, at.push(Step::Byte(c.next_byte())), c.skip(1));
            lemma_regex_is_first_hit(one, bound, at, c, 0);
            lemma_regex_is_first_hit(other, bound, at, c, 0);
            assert(one.alternatives(at).skip(0) =~= one.alternatives(at));
            assert(other.alternatives(at).skip(0) =~= other.alternatives(at));
            lemma_hit_skips_dead(one, bound, at, c, one.alternatives(at));
            lemma_hit_skips_dead(other, bound, at, c, other.alternatives(at));
            assert(one.live_alternatives(at) == other.live_alternatives(at));
            lemma_same_hits(one, other, bound, at, c, one.live_alternatives(at));
            if c.accepts_wildcard() {
                lemma_same_best(one, other, bound, at.push(Step::Wildcard), c.drop_uri(0));
            }
        }
    }
}

/// Behind `at`, the regular expressions of `list` lead two tries with the
/// same content to the same entry.
pub proof fn lemma_same_hits<V>(
    one: TrieNode<V>,
    other: TrieNode<V>,
    bound: nat,
    at: Seq<Step>,
    c: CursorView,
    list: Seq<Seq<u8>>,
)
    requires
        same_content(one, other),
        one.bounded(bound),
        other.bounded(bound),
        at.len() <= bound,
    ensures
        alike(one.first_hit(bound, at, c, list), other.first_hit(bound, at, c, list)),
    decreases bound + 1 - at.len(), 0nat, list.len(),
{
    if list.len() > 0 {
        lemma_same_best(one, other, bound, at.push(Step::Regex(list.first())), c.after_regex());
        lemma_same_hits(one, other, bound, at, c, list.drop_first());
    }
}

/// Two tries that store entries with the same keys and values under the
/// same paths, and keep the same order among the regular expressions that
/// lead to a stored entry, answer every request alike.
pub proof fn law_same_live_content_same_answers<V>(
    one: TrieNode<V>,
    other: TrieNode<V>,
    c: CursorView,
)
    requires
        one.wf(),
        other.wf(),
        c.is_settled(),
        same_content(one, other),
    ensures
        alike(one.lookup_spec(c), other.lookup_spec(c)),
{
    let bound = law_trie_is_bounded(one);
    assert forall|p: Seq<Step>| (#[trigger] other.stored(p)).is_some() implies p.len()
        <= bound by {
        assert(alike(one.stored(p), other.stored(p)));
    }
    law_lookup_is_best_match(one, bound, c);
    law_lookup_is_best_match(other, bound, c);
    lemma_same_best(one, other, bound, Seq::empty(), c);
}


/// A regular expression behind which a stored path goes on is registered
/// at that branch point. The result is its place there.
pub proof fn lemma_live_is_registered<V>(node: TrieNode<V>, at: Seq<Step>, source: Seq<u8>) -> (i:
    int)
    requires
        node.wf(),
        node.live(at.push(Step::Regex(source))),
    ensures
        0 <= i < node.alternatives(at).len(),
        node.alternatives(at)[i] == source,
    decreases node,
{
    let tip = at.push(Step::Regex(source));
    let p = choose|p: Seq<Step>| extends(p, tip) && (#[trigger] node.stored(p)).is_some();
    let run = node.prefix@;
    let rl = run.len() as int;
    assert forall|k: int| 0 <= k < tip.len() implies p[k] == tip[k] by {
        assert(p.take(tip.len() as int)[k] == p[k]);
    }
    assert(p[at.len() as int] == Step::Regex(source));
    if at.len() < rl {
        assert(p[at.len() as int] == Step::Byte(run[at.len() as int]));
        assert(false);
        0
    } else {
        assert forall|k: int| 0 <= k < rl implies at[k] == Step::Byte(run[k]) by {
            assert(at[k] == tip[k]);
        }
        let q = at.skip(rl);
        let pq = p.skip(rl);
        if q.len() == 0 {
            assert(pq[0] == Step::Regex(source));
            lemma_first_source(node.regexes@, source);
            first_source(node.regexes@, source).unwrap()
        } else {
            assert(q[0] == at[rl]);
            assert(pq[0] == q[0]);
            match q[0] {
                Step::Byte(b) => {
                    lemma_first_index_of(node.child_keys@, b);
                    let k = first_index_of(node.child_keys@, b).unwrap();
                    let child = node.children@[k];
                    let below = q.push(Step::Regex(source));
                    assert(pq.take(below.len() as int) =~= below) by {
                        assert forall|m: int| 0 <= m < below.len() implies pq[m] == below[m] by {
                            assert(pq[m] == p[rl + m]);
                            assert(tip[rl + m] == below[m]);
                        }
                    }
                    assert(extends(pq, below));
                    assert(child.stored(pq).is_some());
                    lemma_live_is_registered(child, q, source)
                },
                Step::Regex(x) => {
                    lemma_first_source(node.regexes@, x);
                    let k = first_source(node.regexes@, x).unwrap();
                    let child = node.regex_children@[k];
                    let below = q.skip(1).push(Step::Regex(source));
                    let rest = pq.skip(1);
                    assert(rest.take(below.len() as int) =~= below) by {
                        assert forall|m: int| 0 <= m < below.len() implies rest[m] == below[m] by {
                            assert(rest[m] == p[rl + 1 + m]);
                            assert(tip[rl + 1 + m] == below[m]);
                        }
                    }
                    assert(extends(rest, below));
                    assert(child.stored(rest).is_some());
                    lemma_live_is_registered(child, q.skip(1), source)
                },
                Step::Wildcard => {
                    let child = *node.wildcard.unwrap();
                    let below = q.skip(1).push(Step::Regex(source));
                    let rest = pq.skip(1);
                    assert(rest.take(below.len() as int) =~= below) by {
                        assert forall|m: int| 0 <= m < below.len() implies rest[m] == below[m] by {
                            assert(rest[m] == p[rl + 1 + m]);
                            assert(tip[rl + 1 + m] == below[m]);
                        }
                    }
                    assert(extends(rest, below));
                    assert(child.stored(rest).is_some());
                    lemma_live_is_registered(child, q.skip(1), source)
                },
            }
        }
    }
}

/// No regular expression is registered twice at one branch point.
pub proof fn lemma_alternatives_differ<V>(node: TrieNode<V>, at: Seq<Step>)
    requires
        node.wf(),
    ensures
        forall|i: int, j: int|
            0 <= i < j < node.alternatives(at).len() ==> node.alternatives(at)[i]
                != node.alternatives(at)[j],
    decreases node,
{
    let run = node.prefix@;
    let all = node.alternatives(at);
    if starts_with_bytes(at, run) {
        let q = at.skip(run.len() as int);
        if q.len() == 0 {
            assert(all == sources(node.regexes@));
            assert forall|i: int, j: int| 0 <= i < j < all.len() implies all[i] != all[j] by {
                assert(all[i] == node.regexes@[i]@);
                assert(all[j] == node.regexes@[j]@);
            }
        } else {
            match q[0] {
                Step::Byte(b) => {
                    lemma_first_index_of(node.child_keys@, b);
                    match first_index_of(node.child_keys@, b) {
                        Some(k) => {
                            lemma_alternatives_differ(node.children@[k], q);
                            assert(all == node.children@[k].alternatives(q));
                        },
                        None => {},
                    }
                },
                Step::Regex(x) => {
                    lemma_first_source(node.regexes@, x);
                    match first_source(node.regexes@, x) {
                        Some(k) => {
                            lemma_alternatives_differ(node.regex_children@[k], q.skip(1));
                            assert(all == node.regex_children@[k].alternatives(q.skip(1)));
                        },
                        None => {},
                    }
                },
                Step::Wildcard => {
                    match node.wildcard {
                        Some(w) => {
                            lemma_alternatives_differ(*w, q.skip(1));
                            assert(all == w.alternatives(q.skip(1)));
                        },
                        None => {},
                    }
                },
            }
        }
    }
}

/// Two tries with the same live paths find the same live part in a list.
pub proof fn lemma_live_part_same<V>(
    one: TrieNode<V>,
    other: TrieNode<V>,
    at: Seq<Step>,
    list: Seq<Seq<u8>>,
)
    requires
        same_entries(one, other),
    ensures
        one.live_part(at, list) == other.live_part(at, list),
    decreases list.len(),
{
    if list.len() > 0 {
        lemma_same_live(one, other, at.push(Step::Regex(list.first())));
        lemma_live_part_same(one, other, at, list.drop_first());
    }
}

/// The live part of two lists, one behind the other, is the live part of
/// the first and then that of the second.
pub proof fn lemma_live_part_add<V>(
    node: TrieNode<V>,
    at: Seq<Step>,
    x: Seq<Seq<u8>>,
    y: Seq<Seq<u8>>,
)
    ensures
        node.live_part(at, x + y) == node.live_part(at, x) + node.live_part(at, y),
    decreases x.len(),
{
    if x.len() == 0 {
        assert(x + y =~= y);
        assert(node.live_part(at, x) + node.live_part(at, y) =~= node.live_part(at, y));
    } else {
        lemma_live_part_add(node, at, x.drop_first(), y);
        assert((x + y).drop_first() =~= x.drop_first() + y);
        assert((x + y).first() == x.first());
        let rest = node.live_part(at, x.drop_first());
        let tail = node.live_part(at, y);
        assert((seq![x.first()] + rest) + tail =~= seq![x.first()] + (rest + tail));
    }
}

/// The live part of a list in which nothing is live is empty.
pub proof fn lemma_live_part_none<V>(node: TrieNode<V>, at: Seq<Step>, list: Seq<Seq<u8>>)
    requires
        forall|i: int| 0 <= i < list.len() ==> !node.live(at.push(Step::Regex(#[trigger] list[i]))),
    ensures
        node.live_part(at, list).len() == 0,
    decreases list.len(),
{
    if list.len() > 0 {
        assert(list.first() == list[0]);
        assert forall|i: int| 0 <= i < list.drop_first().len() implies !node.live(
            at.push(Step::Regex(#[trigger] list.drop_first()[i])),
        ) by {
            assert(list.drop_first()[i] == list[i + 1]);
        }
        lemma_live_part_none(node, at, list.drop_first());
    }
}

/// Taking an element that is not live out of a list leaves its live part
/// as it is.
pub proof fn lemma_live_part_remove<V>(
    node: TrieNode<V>,
    at: Seq<Step>,
    list: Seq<Seq<u8>>,
    k: int,
)
    requires
        0 <= k < list.len(),
        !node.live(at.push(Step::Regex(list[k]))),
    ensures
        node.live_part(at, list.remove(k)) == node.live_part(at, list),
{
    let front = list.take(k);
    let back = list.skip(k + 1);
    let one = seq![list[k]];
    assert(list =~= front + (one + back));
    assert(list.remove(k) =~= front + back);
    lemma_live_part_add(node, at, front, one + back);
    lemma_live_part_add(node, at, one, back);
    lemma_live_part_add(node, at, front, back);
    assert forall|i: int| 0 <= i < one.len() implies !node.live(
        at.push(Step::Regex(#[trigger] one[i])),
    ) by {}
    lemma_live_part_none(node, at, one);
    assert(node.live_part(at, one) + node.live_part(at, back) =~= node.live_part(at, back));
}

/// A removal leaves no later answer open: two tries that both are what a
/// trie may be after the removal of a key answer every request alike.
pub proof fn law_removal_is_pinned<V>(
    start: TrieNode<V>,
    one: TrieNode<V>,
    other: TrieNode<V>,
    key: Seq<u8>,
    r: RemoveResult,
    c: CursorView,
)
    requires
        start.wf(),
        one.wf(),
        other.wf(),
        c.is_settled(),
        start.removed(&one, key, r),
        start.removed(&other, key, r),
    ensures
        alike(one.lookup_spec(c), other.lookup_spec(c)),
{
    if r == RemoveResult::Removed {
        let path = key_steps(domain_view(key));
        assert forall|p: Seq<Step>| alike(#[trigger] one.stored(p), other.stored(p)) by {
            if p != path {
                assert(one.stored(p) == start.stored(p));
                assert(other.stored(p) == start.stored(p));
            }
        }
        assert forall|at: Seq<Step>| #[trigger] one.live_alternatives(at)
            == other.live_alternatives(at) by {
            lemma_thinned_live_part(start, one, at);
            lemma_thinned_live_part(start, other, at);
            lemma_live_part_same(one, other, at, start.alternatives(at));
        }
        law_same_live_content_same_answers(one, other, c);
    }
}

/// Where a trie has lost at most one regular expression at a branch
/// point, its live expressions there are the live ones among those that it
/// had.
pub proof fn lemma_thinned_live_part<V>(start: TrieNode<V>, after: TrieNode<V>, at: Seq<Step>)
    requires
        start.wf(),
        after.wf(),
        thinned(start.alternatives(at), after.alternatives(at)),
    ensures
        after.live_alternatives(at) == after.live_part(at, start.alternatives(at)),
{
    let had = start.alternatives(at);
    let has = after.alternatives(at);
    if has != had {
        let k = choose|k: int| 0 <= k < had.len() && has == had.remove(k);
        lemma_alternatives_differ(start, at);
        if after.live(at.push(Step::Regex(had[k]))) {
            let i = lemma_live_is_registered(after, at, had[k]);
            assert(has[i] == had[if i < k {
                i
            } else {
                i + 1
            }]);
        }
        lemma_live_part_remove(after, at, had, k);
    }
}


/// The regular expression with which `path` goes on behind `at`, if it
/// goes on with one.
pub open spec fn passes(path: Seq<Step>, at: Seq<Step>) -> Option<Seq<u8>> {
    if extends(path, at) && path.len() > at.len() {
        match path[at.len() as int] {
            Step::Regex(source) => Some(source),
            _ => None,
        }
    } else {
        None
    }
}

/// What a new path adds to the regular expressions behind `at`: the
/// expression it goes on with there, unless `had` holds that one already.
pub open spec fn added(path: Seq<Step>, at: Seq<Step>, had: Seq<Seq<u8>>) -> Seq<Seq<u8>> {
    match passes(path, at) {
        Some(source) => if had.contains(source) {
            Seq::empty()
        } else {
            seq![source]
        },
        None => Seq::empty(),
    }
}

/// The live part of a list of different elements, of which none is live
/// but perhaps `target`, is `target` alone if the list holds it and it is
/// live, and else empty.
pub proof fn lemma_live_part_single<V>(
    node: TrieNode<V>,
    at: Seq<Step>,
    list: Seq<Seq<u8>>,
    target: Option<Seq<u8>>,
)
    requires
        forall|i: int, j: int| 0 <= i < j < list.len() ==> list[i] != list[j],
        forall|i: int|
            0 <= i < list.len() && node.live(at.push(Step::Regex(#[trigger] list[i]))) ==> target
                == Some(list[i]),
    ensures
        node.live_part(at, list) == match target {
            Some(source) => if list.contains(source) && node.live(at.push(Step::Regex(source))) {
                seq![source]
            } else {
                Seq::empty()
            },
            None => Seq::empty(),
        },
    decreases list.len(),
{
    if list.len() > 0 {
        let x = list.first();
        let rest = list.drop_first();
        assert(x == list[0]);
        assert forall|i: int| 0 <= i < rest.len() implies rest[i] == list[i + 1] by {}
        assert forall|i: int, j: int| 0 <= i < j < rest.len() implies rest[i] != rest[j] by {
            assert(rest[i] == list[i + 1]);
            assert(rest[j] == list[j + 1]);
        }
        assert forall|i: int|
            0 <= i < rest.len() && node.live(
                at.push(Step::Regex(#[trigger] rest[i])),
            ) implies target == Some(rest[i]) by {
            assert(rest[i] == list[i + 1]);
        }
        lemma_live_part_single(node, at, rest, target);
        if node.live(at.push(Step::Regex(x))) {
            assert(target == Some(x));
            assert forall|i: int| 0 <= i < rest.len() implies !node.live(
                at.push(Step::Regex(#[trigger] rest[i])),
            ) by {
                assert(rest[i] == list[i + 1]);
                assert(list[i + 1] != list[0]);
            }
            lemma_live_part_none(node, at, rest);
            assert(node.live_part(at, list) =~= seq![x]);
            assert(list.contains(x));
        } else {
            match target {
                Some(source) => {
                    if list.contains(source) && node.live(at.push(Step::Regex(source))) {
                        let i = choose|i: int| 0 <= i < list.len() && list[i] == source;
                        assert(i > 0);
                        assert(rest[i - 1] == source);
                        assert(rest.contains(source));
                    }
                    if rest.contains(source) {
                        let i = choose|i: int| 0 <= i < rest.len() && rest[i] == source;
                        assert(list[i + 1] == source);
                        assert(list.contains(source));
                    }
                },
                None => {},
            }
        }
    } else {
        match target {
            Some(source) => {
                assert(!list.contains(source));
            },
            None => {},
        }
    }
}

/// Where a trie has gained one path, and has kept its regular expressions
/// in front, its live expressions at a branch point are the live ones among
/// those it had, and then what the new path adds.
pub proof fn lemma_grown_live_part<V>(
    start: TrieNode<V>,
    after: TrieNode<V>,
    path: Seq<Step>,
    at: Seq<Step>,
)
    requires
        start.wf(),
        after.wf(),
        start.stored(path).is_none(),
        after.stored(path).is_some(),
        forall|p: Seq<Step>| p != path ==> #[trigger] after.stored(p) == start.stored(p),
        keeps_order(start.alternatives(at), after.alternatives(at)),
    ensures
        after.live_alternatives(at) == after.live_part(at, start.alternatives(at)) + added(
            path,
            at,
            start.alternatives(at),
        ),
{
    let had = start.alternatives(at);
    let has = after.alternatives(at);
    let extra = has.skip(had.len() as int);
    let target = passes(path, at);
    assert(has =~= had + extra);
    lemma_live_part_add(after, at, had, extra);
    lemma_alternatives_differ(after, at);
    assert forall|i: int, j: int| 0 <= i < j < extra.len() implies extra[i] != extra[j] by {
        assert(extra[i] == has[had.len() + i]);
        assert(extra[j] == has[had.len() + j]);
    }
    assert forall|i: int|
        0 <= i < extra.len() && after.live(
            at.push(Step::Regex(#[trigger] extra[i])),
        ) implies target == Some(extra[i]) by {
        let e = extra[i];
        let tip = at.push(Step::Regex(e));
        let p = choose|p: Seq<Step>| extends(p, tip) && (#[trigger] after.stored(p)).is_some();
        assert(extra[i] == has[had.len() + i]);
        if p != path {
            assert(start.stored(p).is_some());
            assert(start.live(tip));
            let m = lemma_live_is_registered(start, at, e);
            assert(has[m] == had[m]);
            assert(false);
        }
        assert(path.take(tip.len() as int) == tip);
        assert(path[at.len() as int] == path.take(tip.len() as int)[at.len() as int]);
        assert(path.take(at.len() as int) =~= path.take(tip.len() as int).take(at.len() as int));
        assert(tip.take(at.len() as int) =~= at);
    }
    lemma_live_part_single(after, at, extra, target);
    match target {
        Some(source) => {
            let tip = at.push(Step::Regex(source));
            assert(path.take(tip.len() as int) =~= tip) by {
                assert(path.take(at.len() as int) == at);
                assert forall|k: int| 0 <= k < tip.len() implies path[k] == tip[k] by {
                    if k < at.len() {
                        assert(path.take(at.len() as int)[k] == path[k]);
                    }
                }
            }
            assert(extends(path, tip));
            assert(after.live(tip));
            let m = lemma_live_is_registered(after, at, source);
            if had.contains(source) {
                let k = choose|k: int| 0 <= k < had.len() && had[k] == source;
                assert(has[k] == had[k]);
                if extra.contains(source) {
                    let i = choose|i: int| 0 <= i < extra.len() && extra[i] == source;
                    assert(extra[i] == has[had.len() + i]);
                    assert(false);
                }
            } else {
                if m < had.len() {
                    assert(has[m] == had[m]);
                    assert(had.contains(source));
                }
                assert(extra[m - had.len()] == has[m]);
                assert(extra.contains(source));
            }
        },
        None => {},
    }
}

/// An insertion leaves no later answer open: two tries that both are what
/// a trie may be after the insertion of a key with a value answer every
/// request alike.
pub proof fn law_insertion_is_pinned<V>(
    start: TrieNode<V>,
    one: TrieNode<V>,
    other: TrieNode<V>,
    key: Seq<u8>,
    value: V,
    r: InsertResult,
    c: CursorView,
)
    requires
        start.wf(),
        one.wf(),
        other.wf(),
        c.is_settled(),
        start.inserted(&one, key, value, r),
        start.inserted(&other, key, value, r),
    ensures
        alike(one.lookup_spec(c), other.lookup_spec(c)),
{
    if r == InsertResult::Inserted {
        let path = key_steps(domain_view(key));
        assert forall|p: Seq<Step>| alike(#[trigger] one.stored(p), other.stored(p)) by {
            if p != path {
                assert(one.stored(p) == start.stored(p));
                assert(other.stored(p) == start.stored(p));
            }
        }
        assert forall|at: Seq<Step>| #[trigger] one.live_alternatives(at)
            == other.live_alternatives(at) by {
            assert(keeps_order(start.alternatives(at), one.alternatives(at)));
            assert(keeps_order(start.alternatives(at), other.alternatives(at)));
            lemma_grown_live_part(start, one, path, at);
            lemma_grown_live_part(start, other, path, at);
            lemma_live_part_same(one, other, at, start.alternatives(at));
        }
        law_same_live_content_same_answers(one, other, c);
    }
}

} // verus!
