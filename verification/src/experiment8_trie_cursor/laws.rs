//! What holds of every pattern trie: which entries a lookup can answer
//! with, and which entry it must answer with.

use vstd::prelude::*;
use crate::matcher::regex_accepts;
use crate::{DomainLookup, InsertResult, Key, KeyValue};
use super::cursor::{
    first_index_of, is_special, last_dot, lemma_first_index_of, lemma_skip_skip, lemma_skip_zero,
    CursorView, MatchPatternType, TILDE,
};
use super::trie::{
    byte_steps, domain_view, key_steps, keeps_order, lemma_key_unfold, next_step, sources,
    starts_with_bytes, valid_key, Step, TrieNode,
};

verus! {

/// The bytes that a cursor has left, in the order in which it yields them:
/// the host from its end, then the path.
pub open spec fn stream(c: CursorView) -> Seq<u8> {
    c.host.reverse() + c.uri
}

/// Whether the key under the cursor is meant literally: its host holds no
/// `*` and no `/`, and its path no `~`.
pub open spec fn plain(c: CursorView) -> bool {
    &&& forall|i: int| 0 <= i < c.host.len() ==> !is_special(#[trigger] c.host[i])
    &&& forall|i: int| 0 <= i < c.uri.len() ==> #[trigger] c.uri[i] != TILDE
}

/// Whether the path `p` matches the request under the cursor: each literal
/// byte comes next, each regular expression accepts what it is tried on, and
/// each wildcard finds the rest of the host to be one label. What is left of
/// the request behind the path does not matter.
pub open spec fn matches_path(p: Seq<Step>, c: CursorView) -> bool
    decreases p.len(),
{
    if p.len() == 0 {
        true
    } else if c.at_end() {
        false
    } else {
        match p[0] {
            Step::Byte(b) => c.next_byte() == b && matches_path(p.skip(1), c.skip(1)),
            Step::Regex(source) => regex_accepts(source, c.regex_subject()) && matches_path(
                p.skip(1),
                c.after_regex(),
            ),
            Step::Wildcard => c.accepts_wildcard() && matches_path(p.skip(1), c.drop_uri(0)),
        }
    }
}

/// The first byte of the stream is the byte that comes next, and reading it
/// drops it from the stream.
pub proof fn lemma_stream_step(c: CursorView)
    requires
        c.is_settled(),
        !c.at_end(),
    ensures
        stream(c).len() > 0,
        stream(c)[0] == c.next_byte(),
        stream(c.skip(1)) == stream(c).skip(1),
        c.skip(1).is_settled(),
        c.skip(1).remaining() == c.remaining() - 1,
        stream(c).len() == c.remaining(),
{
    lemma_skip_skip(c, 1, 0);
    let hl = c.host.len() as int;
    if hl > 0 {
        assert(c.host.reverse()[0] == c.host.last());
        if 1 < hl {
            assert(c.host.take(hl - 1).reverse() =~= c.host.reverse().skip(1));
            assert(stream(c.skip(1)) =~= stream(c).skip(1));
        } else {
            assert(c.uri.skip(0) =~= c.uri);
            assert(stream(c.skip(1)) =~= stream(c).skip(1));
        }
    } else {
        assert(c.host.reverse() =~= Seq::<u8>::empty());
        assert(stream(c.skip(1)) =~= stream(c).skip(1));
    }
}

/// A plain key is well formed, and its path is its own bytes, one step for
/// each.
pub proof fn lemma_plain_key(c: CursorView)
    requires
        c.is_settled(),
        plain(c),
    ensures
        valid_key(c),
        key_steps(c) == byte_steps(stream(c)),
    decreases c.remaining(),
{
    if c.at_end() {
        assert(c.host.reverse() =~= Seq::<u8>::empty());
        assert(key_steps(c) =~= byte_steps(stream(c)));
    } else {
        lemma_stream_step(c);
        let next = c.skip(1);
        if c.in_host {
            assert(!is_special(c.host[c.host.len() - 1]));
        } else {
            assert(c.uri[0] != TILDE);
        }
        assert(plain(next)) by {
            assert forall|i: int| 0 <= i < next.host.len() implies !is_special(
                #[trigger] next.host[i],
            ) by {
                assert(next.host[i] == c.host[i]);
            }
            assert forall|i: int| 0 <= i < next.uri.len() implies #[trigger] next.uri[i]
                != TILDE by {
                if c.in_host {
                    assert(next.uri[i] == c.uri[i]);
                } else {
                    assert(next.uri[i] == c.uri[i + 1]);
                }
            }
        }
        lemma_plain_key(next);
        assert(next_step(c) == Some((Step::Byte(c.next_byte()), 1nat)));
        assert(key_steps(c) =~= byte_steps(stream(c)));
    }
}


/// A cursor whose stream starts with `run` yields all of `run`, and then
/// stands where the stream goes on.
pub proof fn lemma_run_of_stream(c: CursorView, run: Seq<u8>)
    requires
        c.is_settled(),
        starts_with_bytes(byte_steps(stream(c)), run),
    ensures
        c.run_len(run) == run.len(),
        run.len() <= c.remaining(),
        c.skip(run.len() as int).is_settled(),
        byte_steps(stream(c)).skip(run.len() as int) == byte_steps(
            stream(c.skip(run.len() as int)),
        ),
    decreases run.len(),
{
    if run.len() == 0 {
        lemma_skip_zero(c);
        assert(byte_steps(stream(c)).skip(0) =~= byte_steps(stream(c)));
    } else {
        assert(byte_steps(stream(c))[0] == Step::Byte(run[0]));
        assert(stream(c).len() > 0);
        if c.at_end() {
            assert(c.host.reverse() =~= Seq::<u8>::empty());
        }
        lemma_stream_step(c);
        let next = c.skip(1);
        let rest = run.drop_first();
        assert(starts_with_bytes(byte_steps(stream(next)), rest)) by {
            assert forall|i: int| 0 <= i < rest.len() implies byte_steps(stream(next))[i]
                == Step::Byte(rest[i]) by {
                assert(byte_steps(stream(c))[i + 1] == Step::Byte(run[i + 1]));
            }
        }
        lemma_run_of_stream(next, rest);
        lemma_skip_skip(c, 1, rest.len() as int);
        assert(byte_steps(stream(c)).skip(run.len() as int) =~= byte_steps(stream(next)).skip(
            rest.len() as int,
        ));
    }
}

/// Of a request whose own bytes are a stored path, the lookup answers
/// with the entry stored under that path, whatever regular expressions and
/// wildcards stand beside it: the literal branch is tried first.
pub proof fn law_exact_bytes_win<V>(node: TrieNode<V>, c: CursorView)
    requires
        node.wf(),
        c.is_settled(),
        node.stored(byte_steps(stream(c))).is_some(),
    ensures
        node.lookup_spec(c) == node.stored(byte_steps(stream(c))),
    decreases node,
{
    let path = byte_steps(stream(c));
    let run = node.prefix@;
    lemma_run_of_stream(c, run);
    let behind = c.skip(run.len() as int);
    let rest = path.skip(run.len() as int);
    assert(node.stored(path) == node.stored_below(rest));
    assert(node.lookup_spec(c) == node.lookup_below(behind));
    if rest.len() == 0 {
        assert(stream(behind).len() == 0);
        assert(behind.at_end());
    } else {
        assert(stream(behind).len() > 0);
        if behind.at_end() {
            assert(behind.host.reverse() =~= Seq::<u8>::empty());
        }
        lemma_stream_step(behind);
        let b = behind.next_byte();
        assert(rest[0] == Step::Byte(b));
        lemma_first_index_of(node.child_keys@, b);
        let i = first_index_of(node.child_keys@, b).unwrap();
        law_exact_bytes_win(node.children@[i], behind);
    }
}

/// A path that starts with a run matches a request that yields the run and
/// then matches the rest of the path.
pub proof fn lemma_matches_run(c: CursorView, run: Seq<u8>, q: Seq<Step>)
    requires
        c.run_len(run) == run.len(),
        run.len() <= c.remaining(),
        matches_path(q, c.skip(run.len() as int)),
        c.is_settled(),
    ensures
        matches_path(byte_steps(run) + q, c),
    decreases run.len(),
{
    let p = byte_steps(run) + q;
    if run.len() == 0 {
        lemma_skip_zero(c);
        assert(p =~= q);
    } else {
        let rest = run.drop_first();
        lemma_skip_skip(c, 1, rest.len() as int);
        lemma_matches_run(c.skip(1), rest, q);
        assert(p.skip(1) =~= byte_steps(rest) + q);
        assert(p[0] == Step::Byte(run[0]));
    }
}

/// A cursor yields no more of a run than the run holds.
pub proof fn lemma_run_len_bound(c: CursorView, run: Seq<u8>)
    ensures
        c.run_len(run) <= run.len(),
    decreases run.len(),
{
    if !(run.len() == 0 || c.at_end() || c.next_byte() != run.first()) {
        lemma_run_len_bound(c.skip(1), run.drop_first());
    }
}

/// Yielding a whole run takes as many bytes as the run is long.
pub proof fn lemma_run_fits(c: CursorView, run: Seq<u8>)
    requires
        c.is_settled(),
        c.run_len(run) == run.len(),
    ensures
        run.len() <= c.remaining(),
        c.skip(run.len() as int).is_settled(),
    decreases run.len(),
{
    if run.len() == 0 {
        lemma_skip_zero(c);
    } else {
        lemma_stream_step(c);
        lemma_run_fits(c.skip(1), run.drop_first());
        lemma_skip_skip(c, 1, run.len() - 1);
    }
}

/// What a lookup answers with is stored in the trie, under a path that
/// matches the request. The path is the result of this proof.
pub proof fn law_answer_is_stored_match<V>(node: TrieNode<V>, c: CursorView) -> (p: Seq<Step>)
    requires
        node.wf(),
        c.is_settled(),
        node.lookup_spec(c).is_some(),
    ensures
        node.stored(p) == node.lookup_spec(c),
        matches_path(p, c),
    decreases node, node.regexes@.len() + 2,
{
    let run = node.prefix@;
    lemma_run_len_bound(c, run);
    lemma_run_fits(c, run);
    let behind = c.skip(run.len() as int);
    let q = lemma_answer_below(node, behind);
    lemma_matches_run(c, run, q);
    let p = byte_steps(run) + q;
    assert(p.skip(run.len() as int) =~= q);
    assert(starts_with_bytes(p, run));
    p
}

/// `law_answer_is_stored_match` behind the run of a node.
pub proof fn lemma_answer_below<V>(node: TrieNode<V>, c: CursorView) -> (q: Seq<Step>)
    requires
        node.wf(),
        c.is_settled(),
        node.lookup_below(c).is_some(),
    ensures
        node.stored_below(q) == node.lookup_below(c),
        matches_path(q, c),
    decreases node, node.regexes@.len() + 1,
{
    if c.at_end() {
        return Seq::empty();
    }
    let literal = match first_index_of(node.child_keys@, c.next_byte()) {
        Some(i) => if 0 <= i < node.children@.len() {
            node.children@[i].lookup_spec(c)
        } else {
            None
        },
        None => None,
    };
    if literal.is_some() {
        let b = c.next_byte();
        lemma_first_index_of(node.child_keys@, b);
        let i = first_index_of(node.child_keys@, b).unwrap();
        let q = law_answer_is_stored_match(node.children@[i], c);
        assert(q[0] == Step::Byte(node.children@[i].prefix@[0]));
        return q;
    }
    if node.lookup_regexes(c, 0).is_some() {
        let (j, sub) = lemma_answer_by_regex(node, c, 0);
        let q = seq![Step::Regex(node.regexes@[j]@)] + sub;
        super::trie::lemma_first_source(node.regexes@, node.regexes@[j]@);
        assert(q.skip(1) =~= sub);
        lemma_after_regex_settled(c);
        return q;
    }
    let by_wildcard = match node.wildcard {
        Some(w) => if c.accepts_wildcard() {
            w.lookup_spec(c.drop_uri(0))
        } else {
            None
        },
        None => None,
    };
    if by_wildcard.is_some() {
        let w = node.wildcard.unwrap();
        let sub = law_answer_is_stored_match(*w, c.drop_uri(0));
        let q = seq![Step::Wildcard] + sub;
        assert(q.skip(1) =~= sub);
        return q;
    }
    Seq::empty()
}

/// `law_answer_is_stored_match` for the regular expressions of a node from
/// index `from` on. The result names the expression that decided and the
/// path below it.
pub proof fn lemma_answer_by_regex<V>(node: TrieNode<V>, c: CursorView, from: nat) -> (r: (
    int,
    Seq<Step>,
))
    requires
        node.wf(),
        c.is_settled(),
        node.lookup_regexes(c, from).is_some(),
    ensures
        from <= r.0 < node.regexes@.len(),
        regex_accepts(node.regexes@[r.0]@, c.regex_subject()),
        node.regex_children@[r.0].stored(r.1) == node.lookup_regexes(c, from),
        matches_path(r.1, c.after_regex()),
    decreases node, node.regexes@.len() - from,
{
    let here = if regex_accepts(node.regexes@[from as int]@, c.regex_subject()) {
        node.regex_children@[from as int].lookup_spec(c.after_regex())
    } else {
        None
    };
    if here.is_some() {
        lemma_after_regex_settled(c);
        let sub = law_answer_is_stored_match(node.regex_children@[from as int], c.after_regex());
        (from as int, sub)
    } else {
        lemma_answer_by_regex(node, c, from + 1)
    }
}

/// A settled cursor stays settled when a regular expression has matched.
pub proof fn lemma_after_regex_settled(c: CursorView)
    requires
        c.is_settled(),
    ensures
        c.after_regex().is_settled(),
{
}

/// Where no stored path matches a request, the lookup finds nothing.
pub proof fn law_no_match_no_answer<V>(node: TrieNode<V>, c: CursorView)
    requires
        node.wf(),
        c.is_settled(),
        forall|p: Seq<Step>| (#[trigger] node.stored(p)).is_some() ==> !matches_path(p, c),
    ensures
        node.lookup_spec(c).is_none(),
{
    if node.lookup_spec(c).is_some() {
        let p = law_answer_is_stored_match(node, c);
        assert(node.stored(p).is_some());
    }
}

/// A path that starts with the wildcard matches only a request that
/// stands in its host, with a single label left: the wildcard does not
/// reach over a dot.
pub proof fn law_wildcard_is_one_label(p: Seq<Step>, c: CursorView)
    requires
        p.len() > 0,
        p[0] == Step::Wildcard,
        matches_path(p, c),
    ensures
        c.in_host,
        last_dot(c.host).is_none(),
{
}

/// Of the regular expressions at one node, the first in the order of
/// registration that matches and leads to an entry decides what the
/// expressions find; those behind it are not asked.
pub proof fn law_first_regex_decides<V>(node: TrieNode<V>, c: CursorView, i: int)
    requires
        node.wf(),
        0 <= i < node.regexes@.len(),
        regex_accepts(node.regexes@[i]@, c.regex_subject()),
        node.regex_children@[i].lookup_spec(c.after_regex()).is_some(),
        forall|j: int|
            0 <= j < i ==> !(regex_accepts(node.regexes@[j]@, c.regex_subject()) && (
            #[trigger] node.regex_children@[j]).lookup_spec(c.after_regex()).is_some()),
    ensures
        node.lookup_regexes(c, 0) == node.regex_children@[i].lookup_spec(c.after_regex()),
{
    lemma_regexes_before(node, c, i, 0);
}

/// `law_first_regex_decides` for the expressions from index `from` on.
pub proof fn lemma_regexes_before<V>(node: TrieNode<V>, c: CursorView, i: int, from: nat)
    requires
        node.wf(),
        from <= i < node.regexes@.len(),
        regex_accepts(node.regexes@[i]@, c.regex_subject()),
        node.regex_children@[i].lookup_spec(c.after_regex()).is_some(),
        forall|j: int|
            0 <= j < i ==> !(regex_accepts(node.regexes@[j]@, c.regex_subject()) && (
            #[trigger] node.regex_children@[j]).lookup_spec(c.after_regex()).is_some()),
    ensures
        node.lookup_regexes(c, from) == node.regex_children@[i].lookup_spec(c.after_regex()),
    decreases i - from,
{
    if from < i {
        assert(!(regex_accepts(node.regexes@[from as int]@, c.regex_subject())
            && node.regex_children@[from as int].lookup_spec(c.after_regex()).is_some()));
        lemma_regexes_before(node, c, i, from + 1);
    }
}


/// A plain domain that is stored as a key is answered with its own entry,
/// even where a wildcard or a regular expression beside it matches the
/// domain too.
pub proof fn law_literal_key_answers<V>(node: TrieNode<V>, key: Seq<u8>)
    requires
        node.wf(),
        plain(domain_view(key)),
        node.stored(key_steps(domain_view(key))).is_some(),
    ensures
        node.answer(key) == node.stored(key_steps(domain_view(key))),
{
    lemma_plain_key(domain_view(key));
    law_exact_bytes_win(node, domain_view(key));
}

/// Inserting a key a second time changes nothing: the second insertion
/// answers `Existing`, the trie is the one the first insertion left, and the
/// key still holds the first value.
pub proof fn law_duplicate_insert_is_idle<V>(
    start: TrieNode<V>,
    once: TrieNode<V>,
    twice: TrieNode<V>,
    key: Seq<u8>,
    first: V,
    second: V,
    r: InsertResult,
)
    requires
        start.inserted(&once, key, first, InsertResult::Inserted),
        once.inserted(&twice, key, second, r),
    ensures
        r == InsertResult::Existing,
        twice == once,
        twice.stored(key_steps(domain_view(key))) matches Some(kv) && kv.0@ == key && kv.1
            == first,
{
}

/// After a plain key was inserted once and then once more, a lookup of it
/// answers with the first value.
pub proof fn law_duplicate_insert_keeps_answer<V>(
    start: TrieNode<V>,
    once: TrieNode<V>,
    twice: TrieNode<V>,
    key: Seq<u8>,
    first: V,
    second: V,
    r: InsertResult,
)
    requires
        once.wf(),
        plain(domain_view(key)),
        start.inserted(&once, key, first, InsertResult::Inserted),
        once.inserted(&twice, key, second, r),
    ensures
        twice.answer(key) == once.answer(key),
        twice.answer(key) matches Some(kv) && kv.0@ == key && kv.1 == first,
{
    law_literal_key_answers(once, key);
}

/// Two plain keys that were inserted one after the other are both
/// answered, each with its own entry, also where one is the tail of the
/// other.
pub proof fn law_both_keys_answer<V>(
    start: TrieNode<V>,
    one: TrieNode<V>,
    both: TrieNode<V>,
    a: Seq<u8>,
    x: V,
    b: Seq<u8>,
    y: V,
)
    requires
        both.wf(),
        plain(domain_view(a)),
        plain(domain_view(b)),
        start.inserted(&one, a, x, InsertResult::Inserted),
        one.inserted(&both, b, y, InsertResult::Inserted),
    ensures
        both.answer(a) matches Some(kv) && kv.0@ == a && kv.1 == x,
        both.answer(b) matches Some(kv) && kv.0@ == b && kv.1 == y,
{
    let pa = key_steps(domain_view(a));
    let pb = key_steps(domain_view(b));
    assert(pa != pb);
    assert(both.stored(pa) == one.stored(pa));
    law_literal_key_answers(both, a);
    law_literal_key_answers(both, b);
}


/// An insertion leaves the regular expressions of every branch point in
/// the places they had: the expression that was registered as number `i`
/// behind `at` is number `i` there afterwards, whatever the insertion
/// answered. So an expression that was registered first is tried first.
pub proof fn law_registration_order_is_kept<V>(
    before: TrieNode<V>,
    after: TrieNode<V>,
    key: Seq<u8>,
    value: V,
    r: InsertResult,
    at: Seq<Step>,
    i: int,
)
    requires
        before.inserted(&after, key, value, r),
        0 <= i < before.alternatives(at).len(),
    ensures
        i < after.alternatives(at).len(),
        after.alternatives(at)[i] == before.alternatives(at)[i],
{
    assert(keeps_order(before.alternatives(at), after.alternatives(at)));
}

/// The regular expressions that a lookup tries behind the run of a node are
/// those registered at that branch point, in their order.
pub proof fn law_alternatives_are_tried_in_order<V>(node: TrieNode<V>)
    ensures
        node.alternatives(byte_steps(node.prefix@)) == sources(node.regexes@),
{
    let at = byte_steps(node.prefix@);
    assert(at.skip(node.prefix@.len() as int) =~= Seq::<Step>::empty());
}

} // verus!
