//! What a lookup means, apart from the shape of the trie.
//!
//! A trie stands for two things: the entries it stores, each under its
//! path, and the order of the regular expressions at each branch point.
//! `best` says which entry a request is answered with in terms of these two
//! alone, and `law_lookup_is_best_match` shows that a lookup finds exactly
//! that entry. So two tries that store the same and keep the same order
//! answer alike, however their nodes are cut.

use vstd::prelude::*;
use crate::matcher::regex_accepts;
use crate::{Key, KeyValue};
use super::cursor::{
    first_index_of, lemma_first_index_of, lemma_skip_skip, lemma_skip_zero, CursorView,
};
use super::laws::{lemma_after_regex_settled, lemma_answer_below, lemma_run_fits, lemma_run_len_bound};
use super::trie::{
    byte_steps, first_source, lemma_first_source, sources, starts_with_bytes, Step, TrieNode,
};

verus! {

/// Whether the path `p` starts with all of `at`.
pub open spec fn extends(p: Seq<Step>, at: Seq<Step>) -> bool {
    at.len() <= p.len() && p.take(at.len() as int) == at
}

impl<V> TrieNode<V> {
    /// Whether some stored path starts with `at`.
    pub open spec fn live(&self, at: Seq<Step>) -> bool {
        exists|p: Seq<Step>| extends(p, at) && (#[trigger] self.stored(p)).is_some()
    }

    /// Whether no stored path is longer than `bound`.
    pub open spec fn bounded(&self, bound: nat) -> bool {
        forall|p: Seq<Step>| (#[trigger] self.stored(p)).is_some() ==> p.len() <= bound
    }

    /// The entry that answers the request under `c`, for a lookup that has
    /// followed the path `at` so far. Where no stored path starts with `at`,
    /// there is none. At the end of the request it is the entry stored under
    /// `at`. Else the path is followed on: first with the next byte of the
    /// request, then with each regular expression registered behind `at`
    /// that accepts, in their order, then with the wildcard if the rest of
    /// the host is one label; the first of these that leads to an entry
    /// decides, and if none does, the entry stored under `at` is the answer.
    pub open spec fn best(&self, bound: nat, at: Seq<Step>, c: CursorView) -> Option<
        KeyValue<Key, V>,
    >
        decreases bound + 1 - at.len(), self.alternatives(at).len() + 1,
    {
        if at.len() > bound || !self.live(at) {
            None
        } else if c.at_end() {
            self.stored(at)
        } else {
            let literal = self.best(bound, at.push(Step::Byte(c.next_byte())), c.skip(1));
            if literal.is_some() {
                literal
            } else {
                let by_regex = self.best_regex(bound, at, c, 0);
                if by_regex.is_some() {
                    by_regex
                } else {
                    let by_wildcard = if c.accepts_wildcard() {
                        self.best(bound, at.push(Step::Wildcard), c.drop_uri(0))
                    } else {
                        None
                    };
                    if by_wildcard.is_some() {
                        by_wildcard
                    } else {
                        self.stored(at)
                    }
                }
            }
        }
    }

    /// What the regular expressions behind `at` lead to, from the one with
    /// number `from` on.
    pub open spec fn best_regex(&self, bound: nat, at: Seq<Step>, c: CursorView, from: nat) -> Option<
        KeyValue<Key, V>,
    >
        decreases bound + 1 - at.len(), self.alternatives(at).len() - from,
    {
        if at.len() > bound || from >= self.alternatives(at).len() {
            None
        } else {
            let source = self.alternatives(at)[from as int];
            let here = if regex_accepts(source, c.regex_subject()) {
                self.best(bound, at.push(Step::Regex(source)), c.after_regex())
            } else {
                None
            };
            if here.is_some() {
                here
            } else {
                self.best_regex(bound, at, c, from + 1)
            }
        }
    }
}

/// In a well-formed node each key of a literal child is found at the
/// child's own index.
pub proof fn lemma_child_index<V>(node: TrieNode<V>, i: int)
    requires
        node.wf(),
        0 <= i < node.children@.len(),
    ensures
        first_index_of(node.child_keys@, node.child_keys@[i]) == Some(i),
{
    lemma_first_index_of(node.child_keys@, node.child_keys@[i]);
}

/// In a well-formed node each regular expression is found at its own
/// index.
pub proof fn lemma_regex_index<V>(node: TrieNode<V>, j: int)
    requires
        node.wf(),
        0 <= j < node.regexes@.len(),
    ensures
        first_source(node.regexes@, node.regexes@[j]@) == Some(j),
{
    lemma_first_source(node.regexes@, node.regexes@[j]@);
}

/// What a node stores, and which order it keeps, behind its run and the
/// first step of `q` is what the branch for that step stores and keeps.
pub proof fn lemma_behind_run<V>(node: TrieNode<V>, q: Seq<Step>)
    requires
        node.wf(),
    ensures
        node.stored(byte_steps(node.prefix@) + q) == node.stored_below(q),
        node.alternatives(byte_steps(node.prefix@) + q) == node.alternatives_below(q),
{
    let run = node.prefix@;
    let p = byte_steps(run) + q;
    assert(starts_with_bytes(p, run));
    assert(p.skip(run.len() as int) =~= q);
}

/// A stored path starts with the run of the node.
pub proof fn lemma_stored_behind_run<V>(node: TrieNode<V>, p: Seq<Step>)
    requires
        node.stored(p).is_some() || node.alternatives(p).len() > 0,
    ensures
        starts_with_bytes(p, node.prefix@),
        p == byte_steps(node.prefix@) + p.skip(node.prefix@.len() as int),
{
    assert(p =~= byte_steps(node.prefix@) + p.skip(node.prefix@.len() as int));
}


/// Whether `q` lies in the reach of a branch: behind the step `first`, or
/// anywhere where there is no such step.
pub open spec fn within(first: Option<Step>, q: Seq<Step>) -> bool {
    match first {
        Some(step) => q.len() > 0 && q[0] == step,
        None => true,
    }
}

/// Whether `low` stores and keeps, in the reach of `first`, what `high`
/// stores and keeps there behind the path `pre`.
pub open spec fn hangs_below<V>(
    high: TrieNode<V>,
    low: TrieNode<V>,
    pre: Seq<Step>,
    first: Option<Step>,
) -> bool {
    &&& forall|q: Seq<Step>| within(first, q) ==> high.stored(pre + q) == #[trigger] low.stored(q)
    &&& forall|q: Seq<Step>|
        within(first, q) ==> high.alternatives(pre + q) == #[trigger] low.alternatives(q)
}

/// A path lives in `high` behind `pre` exactly when its rest lives in
/// `low`.
pub proof fn lemma_live_below<V>(
    high: TrieNode<V>,
    low: TrieNode<V>,
    pre: Seq<Step>,
    first: Option<Step>,
    q: Seq<Step>,
)
    requires
        hangs_below(high, low, pre, first),
        within(first, q),
    ensures
        high.live(pre + q) == low.live(q),
{
    if low.live(q) {
        let p = choose|p: Seq<Step>| extends(p, q) && (#[trigger] low.stored(p)).is_some();
        assert(p[0] == p.take(q.len() as int)[0] || q.len() == 0);
        assert(within(first, p));
        assert((pre + p).take((pre + q).len() as int) =~= pre + q);
        assert(extends(pre + p, pre + q));
        assert(high.stored(pre + p).is_some());
    }
    if high.live(pre + q) {
        let p = choose|p: Seq<Step>|
            extends(p, pre + q) && (#[trigger] high.stored(p)).is_some();
        let rest = p.skip(pre.len() as int);
        assert(p.take((pre + q).len() as int).take(pre.len() as int) =~= p.take(pre.len() as int));
        assert((pre + q).take(pre.len() as int) =~= pre);
        assert(p =~= pre + rest);
        assert(rest.take(q.len() as int) =~= p.take((pre + q).len() as int).skip(pre.len() as int));
        assert((pre + q).skip(pre.len() as int) =~= q);
        assert(extends(rest, q));
        if q.len() > 0 {
            assert(rest[0] == rest.take(q.len() as int)[0]);
        }
        assert(within(first, rest));
        assert(low.stored(rest).is_some());
    }
}

/// A path that lives is no longer than a bound of the trie.
pub proof fn lemma_live_is_bounded<V>(node: TrieNode<V>, bound: nat, at: Seq<Step>)
    requires
        node.bounded(bound),
        node.live(at),
    ensures
        at.len() <= bound,
{
    let p = choose|p: Seq<Step>| extends(p, at) && (#[trigger] node.stored(p)).is_some();
    assert(p.len() <= bound);
}

/// Behind `pre`, `high` answers as `low` does.
pub proof fn lemma_shift<V>(
    high: TrieNode<V>,
    low: TrieNode<V>,
    pre: Seq<Step>,
    first: Option<Step>,
    bound: nat,
    q: Seq<Step>,
    c: CursorView,
)
    requires
        hangs_below(high, low, pre, first),
        within(first, q),
        high.bounded(bound),
        low.bounded(bound),
    ensures
        high.best(bound, pre + q, c) == low.best(bound, q, c),
    decreases bound + 1 - q.len(), low.alternatives(q).len() + 1,
{
    lemma_live_below(high, low, pre, first, q);
    if low.live(q) {
        lemma_live_is_bounded(high, bound, pre + q);
        lemma_live_is_bounded(low, bound, q);
        if !c.at_end() {
            let b = Step::Byte(c.next_byte());
            assert((pre + q).push(b) =~= pre + q.push(b));
            lemma_shift(high, low, pre, first, bound, q.push(b), c.skip(1));
            lemma_shift_regex(high, low, pre, first, bound, q, c, 0);
            if c.accepts_wildcard() {
                assert((pre + q).push(Step::Wildcard) =~= pre + q.push(Step::Wildcard));
                lemma_shift(high, low, pre, first, bound, q.push(Step::Wildcard), c.drop_uri(0));
            }
        }
    }
}

/// `lemma_shift` for the regular expressions from number `from` on.
pub proof fn lemma_shift_regex<V>(
    high: TrieNode<V>,
    low: TrieNode<V>,
    pre: Seq<Step>,
    first: Option<Step>,
    bound: nat,
    q: Seq<Step>,
    c: CursorView,
    from: nat,
)
    requires
        hangs_below(high, low, pre, first),
        within(first, q),
        high.bounded(bound),
        low.bounded(bound),
        q.len() <= bound,
        (pre + q).len() <= bound,
    ensures
        high.best_regex(bound, pre + q, c, from) == low.best_regex(bound, q, c, from),
    decreases bound + 1 - q.len(), low.alternatives(q).len() - from,
{
    assert(high.alternatives(pre + q) == low.alternatives(q));
    if from < low.alternatives(q).len() {
        let source = low.alternatives(q)[from as int];
        if regex_accepts(source, c.regex_subject()) {
            let step = Step::Regex(source);
            assert((pre + q).push(step) =~= pre + q.push(step));
            lemma_shift(high, low, pre, first, bound, q.push(step), c.after_regex());
        }
        lemma_shift_regex(high, low, pre, first, bound, q, c, from + 1);
    }
}


/// A literal child stores and keeps what its parent stores and keeps behind
/// the parent's run and the child's key.
pub proof fn lemma_literal_child_hangs<V>(node: TrieNode<V>, i: int)
    requires
        node.wf(),
        0 <= i < node.children@.len(),
    ensures
        hangs_below(
            node,
            node.children@[i],
            byte_steps(node.prefix@),
            Some(Step::Byte(node.child_keys@[i])),
        ),
{
    let first = Some(Step::Byte(node.child_keys@[i]));
    let pre = byte_steps(node.prefix@);
    lemma_child_index(node, i);
    assert forall|q: Seq<Step>| within(first, q) implies node.stored(pre + q)
        == #[trigger] node.children@[i].stored(q) by {
        lemma_behind_run(node, q);
    }
    assert forall|q: Seq<Step>| within(first, q) implies node.alternatives(pre + q)
        == #[trigger] node.children@[i].alternatives(q) by {
        lemma_behind_run(node, q);
    }
}

/// The child below a regular expression stores and keeps what its parent
/// stores and keeps behind the parent's run and the expression.
pub proof fn lemma_regex_child_hangs<V>(node: TrieNode<V>, j: int)
    requires
        node.wf(),
        0 <= j < node.regex_children@.len(),
    ensures
        hangs_below(
            node,
            node.regex_children@[j],
            byte_steps(node.prefix@).push(Step::Regex(node.regexes@[j]@)),
            None,
        ),
{
    let step = Step::Regex(node.regexes@[j]@);
    let pre = byte_steps(node.prefix@).push(step);
    lemma_regex_index(node, j);
    assert forall|q: Seq<Step>| within(None, q) implies node.stored(pre + q)
        == #[trigger] node.regex_children@[j].stored(q) by {
        lemma_behind_run(node, seq![step] + q);
        assert(pre + q =~= byte_steps(node.prefix@) + (seq![step] + q));
        assert((seq![step] + q).skip(1) =~= q);
    }
    assert forall|q: Seq<Step>| within(None, q) implies node.alternatives(pre + q)
        == #[trigger] node.regex_children@[j].alternatives(q) by {
        lemma_behind_run(node, seq![step] + q);
        assert(pre + q =~= byte_steps(node.prefix@) + (seq![step] + q));
        assert((seq![step] + q).skip(1) =~= q);
    }
}

/// The child below the wildcard stores and keeps what its parent stores and
/// keeps behind the parent's run and the wildcard.
pub proof fn lemma_wildcard_child_hangs<V>(node: TrieNode<V>)
    requires
        node.wf(),
        node.wildcard.is_some(),
    ensures
        hangs_below(
            node,
            *node.wildcard.unwrap(),
            byte_steps(node.prefix@).push(Step::Wildcard),
            None,
        ),
{
    let step = Step::Wildcard;
    let pre = byte_steps(node.prefix@).push(step);
    let child = *node.wildcard.unwrap();
    assert forall|q: Seq<Step>| within(None, q) implies node.stored(pre + q)
        == #[trigger] child.stored(q) by {
        lemma_behind_run(node, seq![step] + q);
        assert(pre + q =~= byte_steps(node.prefix@) + (seq![step] + q));
        assert((seq![step] + q).skip(1) =~= q);
    }
    assert forall|q: Seq<Step>| within(None, q) implies node.alternatives(pre + q)
        == #[trigger] child.alternatives(q) by {
        lemma_behind_run(node, seq![step] + q);
        assert(pre + q =~= byte_steps(node.prefix@) + (seq![step] + q));
        assert((seq![step] + q).skip(1) =~= q);
    }
}

/// What hangs below a bounded trie, and stores nothing out of its reach, is
/// bounded by the same bound.
pub proof fn lemma_low_is_bounded<V>(
    high: TrieNode<V>,
    low: TrieNode<V>,
    pre: Seq<Step>,
    first: Option<Step>,
    bound: nat,
)
    requires
        hangs_below(high, low, pre, first),
        high.bounded(bound),
        forall|q: Seq<Step>| (#[trigger] low.stored(q)).is_some() ==> within(first, q),
    ensures
        low.bounded(bound),
{
    assert forall|q: Seq<Step>| (#[trigger] low.stored(q)).is_some() implies q.len()
        <= bound by {
        assert(high.stored(pre + q).is_some());
        assert((pre + q).len() <= bound);
    }
}

/// No stored path goes on from the run of a node with a step for which the
/// node has no branch.
pub proof fn lemma_missing_branch_is_dead<V>(node: TrieNode<V>, step: Step)
    requires
        node.wf(),
        match step {
            Step::Byte(b) => first_index_of(node.child_keys@, b).is_none(),
            Step::Regex(source) => first_source(node.regexes@, source).is_none(),
            Step::Wildcard => node.wildcard.is_none(),
        },
    ensures
        !node.live(byte_steps(node.prefix@).push(step)),
{
    let at = byte_steps(node.prefix@).push(step);
    assert forall|p: Seq<Step>| extends(p, at) implies (#[trigger] node.stored(p)).is_none() by {
        if node.stored(p).is_some() {
            lemma_stored_behind_run(node, p);
            let q = p.skip(node.prefix@.len() as int);
            assert(q[0] == p.take(at.len() as int)[node.prefix@.len() as int]);
            assert(q[0] == step);
        }
    }
}

/// No stored path leaves the run of a node before the run ends.
pub proof fn lemma_off_run_is_dead<V>(node: TrieNode<V>, k: int, step: Step)
    requires
        0 <= k < node.prefix@.len(),
        step != Step::Byte(node.prefix@[k]),
    ensures
        !node.live(byte_steps(node.prefix@.take(k)).push(step)),
{
    let at = byte_steps(node.prefix@.take(k)).push(step);
    assert forall|p: Seq<Step>| extends(p, at) implies (#[trigger] node.stored(p)).is_none() by {
        if node.stored(p).is_some() {
            assert(p[k] == p.take(at.len() as int)[k]);
            assert(p[k] == step);
        }
    }
}

/// A lookup finds the entry that `best` names: of the stored paths that
/// match the request, the one that the order of trying reaches first. What a
/// lookup answers depends on the stored entries and on the order of the
/// regular expressions, and on nothing else.
pub proof fn law_lookup_is_best_match<V>(node: TrieNode<V>, bound: nat, c: CursorView)
    requires
        node.wf(),
        c.is_settled(),
        node.bounded(bound),
    ensures
        node.lookup_spec(c) == node.best(bound, Seq::empty(), c),
    decreases node, 3nat, 0nat,
{
    lemma_in_run(node, bound, c, 0);
    assert(node.prefix@.take(0) =~= Seq::<u8>::empty());
    assert(byte_steps(Seq::<u8>::empty()) =~= Seq::<Step>::empty());
    assert(node.prefix@.skip(0) =~= node.prefix@);
}

/// `law_lookup_is_best_match` for a lookup that has read `k` bytes of the
/// run of the node.
pub proof fn lemma_in_run<V>(node: TrieNode<V>, bound: nat, c: CursorView, k: int)
    requires
        node.wf(),
        c.is_settled(),
        node.bounded(bound),
        0 <= k <= node.prefix@.len(),
    ensures
        node.best(bound, byte_steps(node.prefix@.take(k)), c) == if c.run_len(
            node.prefix@.skip(k),
        ) < node.prefix@.len() - k {
            None
        } else {
            node.lookup_below(c.skip(node.prefix@.len() - k))
        },
    decreases node, 2nat, node.prefix@.len() - k,
{
    let run = node.prefix@;
    let at = byte_steps(run.take(k));
    let left = run.skip(k);
    let goal = if c.run_len(left) < run.len() - k {
        None
    } else {
        node.lookup_below(c.skip(run.len() - k))
    };
    if k == run.len() {
        lemma_skip_zero(c);
        assert(run.take(k) =~= run);
        assert(left =~= Seq::<u8>::empty());
        lemma_branch(node, bound, c);
        assert(node.best(bound, at, c) == goal);
    } else {
        lemma_run_len_bound(c, left);
        let full = c.run_len(left) == left.len();
        if full {
            lemma_run_fits(c, left);
        }
        if !node.live(at) {
            if full && node.lookup_below(c.skip(run.len() - k)).is_some() {
                let q = lemma_answer_below(node, c.skip(run.len() - k));
                lemma_behind_run(node, q);
                let p = byte_steps(run) + q;
                assert(p.take(at.len() as int) =~= at);
                assert(extends(p, at));
            }
            assert(node.best(bound, at, c) == goal);
        } else {
            lemma_live_is_bounded(node, bound, at);
            assert(!starts_with_bytes(at, run));
            assert(node.stored(at).is_none());
            assert(node.alternatives(at).len() == 0);
            assert(node.best_regex(bound, at, c, 0).is_none());
            if c.at_end() {
                assert(c.run_len(left) == 0);
                assert(node.best(bound, at, c) == goal);
            } else {
                let b = c.next_byte();
                lemma_off_run_is_dead(node, k, Step::Wildcard);
                assert(node.best(bound, at.push(Step::Wildcard), c.drop_uri(0)).is_none());
                assert(left.first() == run[k]);
                if b == run[k] {
                    assert(at.push(Step::Byte(b)) =~= byte_steps(run.take(k + 1)));
                    assert(left.drop_first() =~= run.skip(k + 1));
                    lemma_skip_skip(c, 1, 0);
                    lemma_in_run(node, bound, c.skip(1), k + 1);
                    assert(c.run_len(left) == 1 + c.skip(1).run_len(run.skip(k + 1)));
                    if full {
                        lemma_skip_skip(c, 1, run.len() - k - 1);
                    }
                    assert(node.best(bound, at.push(Step::Byte(b)), c.skip(1)) == goal);
                    assert(node.best(bound, at, c) == goal);
                } else {
                    lemma_off_run_is_dead(node, k, Step::Byte(b));
                    assert(c.run_len(left) == 0);
                    assert(node.best(bound, at.push(Step::Byte(b)), c.skip(1)).is_none());
                    assert(node.best(bound, at, c) == goal);
                }
            }
        }
    }
}

/// `law_lookup_is_best_match` behind the run of the node.
pub proof fn lemma_branch<V>(node: TrieNode<V>, bound: nat, c: CursorView)
    requires
        node.wf(),
        c.is_settled(),
        node.bounded(bound),
    ensures
        node.best(bound, byte_steps(node.prefix@), c) == node.lookup_below(c),
    decreases node, 1nat, 0nat,
{
    let run = node.prefix@;
    let at = byte_steps(run);
    lemma_behind_run(node, Seq::empty());
    assert(at + Seq::<Step>::empty() =~= at);
    if !node.live(at) {
        if node.lookup_below(c).is_some() {
            let q = lemma_answer_below(node, c);
            lemma_behind_run(node, q);
            let p = at + q;
            assert(p.take(at.len() as int) =~= at);
            assert(extends(p, at));
        }
    } else {
        lemma_live_is_bounded(node, bound, at);
        if !c.at_end() {
            let b = c.next_byte();
            lemma_skip_skip(c, 1, 0);
            match first_index_of(node.child_keys@, b) {
                Some(i) => {
                    lemma_first_index_of(node.child_keys@, b);
                    let child = node.children@[i];
                    lemma_literal_child_hangs(node, i);
                    assert forall|q: Seq<Step>| (#[trigger] child.stored(q)).is_some() implies within(
                        Some(Step::Byte(b)),
                        q,
                    ) by {
                        assert(q[0] == Step::Byte(child.prefix@[0]));
                    }
                    lemma_low_is_bounded(node, child, at, Some(Step::Byte(b)), bound);
                    law_lookup_is_best_match(child, bound, c);
                    lemma_in_run(child, bound, c, 0);
                    lemma_in_run(child, bound, c.skip(1), 1);
                    assert(child.prefix@.take(0) =~= Seq::<u8>::empty());
                    assert(byte_steps(Seq::<u8>::empty()) =~= Seq::<Step>::empty());
                    assert(child.prefix@.skip(0) =~= child.prefix@);
                    assert(byte_steps(child.prefix@.take(1)) =~= seq![Step::Byte(b)]);
                    assert(child.prefix@.drop_first() =~= child.prefix@.skip(1));
                    lemma_run_len_bound(c, child.prefix@);
                    if c.run_len(child.prefix@) == child.prefix@.len() {
                        lemma_run_fits(c, child.prefix@);
                        lemma_skip_skip(c, 1, child.prefix@.len() - 1);
                    }
                    assert(child.best(bound, Seq::empty(), c) == child.best(
                        bound,
                        seq![Step::Byte(b)],
                        c.skip(1),
                    ));
                    lemma_shift(
                        node,
                        child,
                        at,
                        Some(Step::Byte(b)),
                        bound,
                        seq![Step::Byte(b)],
                        c.skip(1),
                    );
                    assert(at.push(Step::Byte(b)) =~= at + seq![Step::Byte(b)]);
                },
                None => {
                    lemma_missing_branch_is_dead(node, Step::Byte(b));
                },
            }
            lemma_branch_regex(node, bound, c, 0);
            match node.wildcard {
                Some(w) => {
                    if c.accepts_wildcard() {
                        lemma_wildcard_child_hangs(node);
                        let pre = at.push(Step::Wildcard);
                        lemma_low_is_bounded(node, *w, pre, None, bound);
                        law_lookup_is_best_match(*w, bound, c.drop_uri(0));
                        lemma_shift(node, *w, pre, None, bound, Seq::empty(), c.drop_uri(0));
                        assert(pre + Seq::<Step>::empty() =~= pre);
                    }
                },
                None => {
                    lemma_missing_branch_is_dead(node, Step::Wildcard);
                },
            }
        }
    }
}

/// `law_lookup_is_best_match` for the regular expressions of the node from
/// number `from` on.
pub proof fn lemma_branch_regex<V>(node: TrieNode<V>, bound: nat, c: CursorView, from: nat)
    requires
        node.wf(),
        c.is_settled(),
        node.bounded(bound),
        byte_steps(node.prefix@).len() <= bound,
    ensures
        node.best_regex(bound, byte_steps(node.prefix@), c, from) == node.lookup_regexes(c, from),
    decreases node, 0nat, node.regexes@.len() - from,
{
    let at = byte_steps(node.prefix@);
    lemma_behind_run(node, Seq::empty());
    assert(at + Seq::<Step>::empty() =~= at);
    assert(node.alternatives(at) == sources(node.regexes@));
    if from < node.regexes@.len() {
        let source = node.regexes@[from as int]@;
        if regex_accepts(source, c.regex_subject()) {
            let child = node.regex_children@[from as int];
            let pre = at.push(Step::Regex(source));
            lemma_regex_child_hangs(node, from as int);
            lemma_low_is_bounded(node, child, pre, None, bound);
            lemma_after_regex_settled(c);
            law_lookup_is_best_match(child, bound, c.after_regex());
            lemma_shift(node, child, pre, None, bound, Seq::empty(), c.after_regex());
            assert(pre + Seq::<Step>::empty() =~= pre);
        }
        lemma_branch_regex(node, bound, c, from + 1);
    }
}


/// Every trie has a bound: its stored paths are no longer than the number
/// that this proof gives.
pub proof fn law_trie_is_bounded<V>(node: TrieNode<V>) -> (bound: nat)
    requires
        node.wf(),
    ensures
        node.bounded(bound),
    decreases node, 1nat, 0nat,
{
    let below_literal = lemma_children_bounded(node, node.children@.len() as int);
    let below_regex = lemma_regex_children_bounded(node, node.regex_children@.len() as int);
    let below_wildcard = match node.wildcard {
        Some(w) => law_trie_is_bounded(*w),
        None => 0,
    };
    let bound = node.prefix@.len() + 1 + below_literal + below_regex + below_wildcard;
    assert forall|p: Seq<Step>| (#[trigger] node.stored(p)).is_some() implies p.len()
        <= bound by {
        let q = p.skip(node.prefix@.len() as int);
        if q.len() > 0 {
            match q[0] {
                Step::Byte(b) => {
                    lemma_first_index_of(node.child_keys@, b);
                    let i = first_index_of(node.child_keys@, b).unwrap();
                    assert(node.children@[i].stored(q).is_some());
                },
                Step::Regex(source) => {
                    lemma_first_source(node.regexes@, source);
                    let j = first_source(node.regexes@, source).unwrap();
                    assert(node.regex_children@[j].stored(q.skip(1)).is_some());
                },
                Step::Wildcard => {
                    assert(node.wildcard.unwrap().stored(q.skip(1)).is_some());
                },
            }
        }
    }
    bound
}

/// A bound for the first `n` literal children of a node.
pub proof fn lemma_children_bounded<V>(node: TrieNode<V>, n: int) -> (bound: nat)
    requires
        node.wf(),
        0 <= n <= node.children@.len(),
    ensures
        forall|i: int| 0 <= i < n ==> (#[trigger] node.children@[i]).bounded(bound),
    decreases node, 0nat, n,
{
    if n == 0 {
        0
    } else {
        let before = lemma_children_bounded(node, n - 1);
        let last = law_trie_is_bounded(node.children@[n - 1]);
        let bound = before + last;
        assert forall|i: int| 0 <= i < n implies (#[trigger] node.children@[i]).bounded(
            bound,
        ) by {
            let child = node.children@[i];
            assert(child.bounded(if i < n - 1 {
                before
            } else {
                last
            }));
            assert forall|p: Seq<Step>| (#[trigger] child.stored(p)).is_some() implies p.len()
                <= bound by {}
        }
        bound
    }
}

/// A bound for the first `n` children below regular expressions.
pub proof fn lemma_regex_children_bounded<V>(node: TrieNode<V>, n: int) -> (bound: nat)
    requires
        node.wf(),
        0 <= n <= node.regex_children@.len(),
    ensures
        forall|i: int| 0 <= i < n ==> (#[trigger] node.regex_children@[i]).bounded(bound),
    decreases node, 0nat, n,
{
    if n == 0 {
        0
    } else {
        let before = lemma_regex_children_bounded(node, n - 1);
        let last = law_trie_is_bounded(node.regex_children@[n - 1]);
        let bound = before + last;
        assert forall|i: int| 0 <= i < n implies (#[trigger] node.regex_children@[i]).bounded(
            bound,
        ) by {
            let child = node.regex_children@[i];
            assert(child.bounded(if i < n - 1 {
                before
            } else {
                last
            }));
            assert forall|p: Seq<Step>| (#[trigger] child.stored(p)).is_some() implies p.len()
                <= bound by {}
        }
        bound
    }
}

/// Two tries that store the same entries under the same paths, and keep
/// the same regular expressions in the same order at every branch point,
/// answer every request alike.
pub proof fn law_same_content_same_answers<V>(one: TrieNode<V>, other: TrieNode<V>, c: CursorView)
    requires
        one.wf(),
        other.wf(),
        c.is_settled(),
        forall|p: Seq<Step>| #[trigger] one.stored(p) == other.stored(p),
        forall|at: Seq<Step>| #[trigger] one.alternatives(at) == other.alternatives(at),
    ensures
        one.lookup_spec(c) == other.lookup_spec(c),
{
    let bound = law_trie_is_bounded(one);
    assert forall|p: Seq<Step>| (#[trigger] other.stored(p)).is_some() implies p.len()
        <= bound by {
        assert(one.stored(p) == other.stored(p));
    }
    law_lookup_is_best_match(one, bound, c);
    law_lookup_is_best_match(other, bound, c);
    let nothing = Seq::<Step>::empty();
    assert forall|q: Seq<Step>| within(None, q) implies one.stored(nothing + q)
        == #[trigger] other.stored(q) by {
        assert(nothing + q =~= q);
    }
    assert forall|q: Seq<Step>| within(None, q) implies one.alternatives(nothing + q)
        == #[trigger] other.alternatives(q) by {
        assert(nothing + q =~= q);
    }
    lemma_shift(one, other, nothing, None, bound, nothing, c);
    assert(nothing + nothing =~= nothing);
}

} // verus!
