//! The pattern trie.
//!
//! A node owns a run of literal bytes, written in the order in which a
//! cursor yields them: host bytes from the end of the host, then path bytes.
//! Below its run a node branches on the next literal byte, on regular
//! expressions in the order of their registration, and on the wildcard.

use vstd::prelude::*;
use crate::matcher::{regex_accepts, Matcher};
use crate::{DomainLookup, InsertResult, Key, KeyValue, RemoveResult};
use vstd::slice::slice_subrange;
use super::cursor::{
    bytes_equal, bytes_to_vec, first_index_of, label_start_of, lemma_first_index_of,
    lemma_label_bounds, lemma_skip_skip, position_of, CursorView, HttpCursor, MatchPattern,
    MatchPatternType, PatternView, SLASH,
};

verus! {

/// One step of the path that a key describes through the trie.
pub enum Step {
    /// A literal byte.
    Byte(u8),
    /// A regular expression, by its source text.
    Regex(Seq<u8>),
    /// The wildcard.
    Wildcard,
}

/// Whether `path` begins with the literal bytes of `run`.
pub open spec fn starts_with_bytes(path: Seq<Step>, run: Seq<u8>) -> bool {
    &&& run.len() <= path.len()
    &&& forall|i: int| 0 <= i < run.len() ==> path[i] == Step::Byte(run[i])
}

/// The index of the first matcher whose source is `source`, if there is one.
pub open spec fn first_source(regexes: Seq<Matcher>, source: Seq<u8>) -> Option<int>
    decreases regexes.len(),
{
    if regexes.len() == 0 {
        None
    } else if regexes.first()@ == source {
        Some(0)
    } else {
        match first_source(regexes.drop_first(), source) {
            Some(i) => Some(i + 1),
            None => None,
        }
    }
}

/// `first_source` finds a matcher with that source, and none stands before
/// it; it finds none only where there is none.
pub proof fn lemma_first_source(regexes: Seq<Matcher>, source: Seq<u8>)
    ensures
        match first_source(regexes, source) {
            Some(i) => 0 <= i < regexes.len() && regexes[i]@ == source && forall|j: int|
                0 <= j < i ==> regexes[j]@ != source,
            None => forall|j: int| 0 <= j < regexes.len() ==> regexes[j]@ != source,
        },
    decreases regexes.len(),
{
    if regexes.len() > 0 && regexes.first()@ != source {
        let rest = regexes.drop_first();
        lemma_first_source(rest, source);
        match first_source(rest, source) {
            Some(i) => {
                assert forall|j: int| 0 <= j < i + 1 implies regexes[j]@ != source by {
                    if j > 0 {
                        assert(regexes[j] == rest[j - 1]);
                    }
                }
            },
            None => {
                assert forall|j: int| 0 <= j < regexes.len() implies regexes[j]@ != source by {
                    if j > 0 {
                        assert(regexes[j] == rest[j - 1]);
                    }
                }
            },
        }
    }
}

/// The literal bytes of `run` as steps.
pub open spec fn byte_steps(run: Seq<u8>) -> Seq<Step> {
    Seq::new(run.len(), |i: int| Step::Byte(run[i]))
}

/// The step that a key under the cursor describes next, with the number of
/// bytes it takes up: a literal byte, the wildcard for a `*` that ends the
/// host, or the regular expression that the cursor's next pattern holds.
/// `None` at the end of the key and where the key is malformed.
pub open spec fn next_step(c: CursorView) -> Option<(Step, nat)> {
    if c.at_end() {
        None
    } else {
        match c.next_type() {
            MatchPatternType::Prefix(b) => Some((Step::Byte(b), 1)),
            MatchPatternType::SniWildcard => Some((Step::Wildcard, 1)),
            MatchPatternType::Regex => match c.next_pattern() {
                Some((n, PatternView::Regex(source))) => Some(
                    (
                        Step::Regex(source),
                        if c.in_host {
                            n
                        } else {
                            n + 1
                        },
                    ),
                ),
                _ => None,
            },
        }
    }
}

/// Whether the key under the cursor is well formed: every `/` that ends a
/// host label closes a regular expression that fills the label and
/// compiles, and what follows a `~` in the path compiles.
pub open spec fn valid_key(c: CursorView) -> bool
    decreases c.remaining(),
{
    if c.at_end() {
        true
    } else {
        match next_step(c) {
            Some((_, n)) => 1 <= n <= c.remaining() && valid_key(c.skip(n as int)),
            None => false,
        }
    }
}

/// The path that the key under the cursor describes.
pub open spec fn key_steps(c: CursorView) -> Seq<Step>
    decreases c.remaining(),
{
    if c.at_end() {
        Seq::empty()
    } else {
        match next_step(c) {
            Some((step, n)) => if 1 <= n <= c.remaining() {
                seq![step] + key_steps(c.skip(n as int))
            } else {
                Seq::empty()
            },
            None => Seq::empty(),
        }
    }
}

/// How a well-formed key that has not ended unfolds into its first step and
/// the rest.
pub proof fn lemma_key_unfold(c: CursorView)
    requires
        valid_key(c),
        !c.at_end(),
    ensures
        next_step(c).is_some(),
        1 <= next_step(c).unwrap().1 <= c.remaining(),
        valid_key(c.skip(next_step(c).unwrap().1 as int)),
        c.skip(next_step(c).unwrap().1 as int).is_settled(),
        key_steps(c).len() > 0,
        key_steps(c)[0] == next_step(c).unwrap().0,
        key_steps(c).skip(1) == key_steps(c.skip(next_step(c).unwrap().1 as int)),
{
    let n = next_step(c).unwrap().1 as int;
    lemma_skip_skip(c, n, 0);
    assert(key_steps(c).skip(1) =~= key_steps(c.skip(n)));
}

/// A path that starts with the bytes of `run` continues behind them.
pub proof fn lemma_starts_with_split(path: Seq<Step>, run: Seq<u8>)
    requires
        starts_with_bytes(path, run),
    ensures
        path == byte_steps(run) + path.skip(run.len() as int),
{
    assert(path =~= byte_steps(run) + path.skip(run.len() as int));
}

/// What `first_index_of` finds after one more key was added at the end.
pub proof fn lemma_first_index_push(keys: Seq<u8>, b: u8, x: u8)
    ensures
        first_index_of(keys.push(b), x) == match first_index_of(keys, x) {
            Some(i) => Some(i),
            None => if x == b {
                Some(keys.len() as int)
            } else {
                None
            },
        },
    decreases keys.len(),
{
    if keys.len() == 0 {
        assert(keys.push(b).drop_first() =~= keys);
    } else {
        assert(keys.push(b).drop_first() =~= keys.drop_first().push(b));
        if keys.first() != x {
            lemma_first_index_push(keys.drop_first(), b, x);
        }
    }
}

/// What `first_source` finds after one more matcher was added at the end.
pub proof fn lemma_first_source_push(regexes: Seq<Matcher>, m: Matcher, source: Seq<u8>)
    ensures
        first_source(regexes.push(m), source) == match first_source(regexes, source) {
            Some(i) => Some(i),
            None => if m@ == source {
                Some(regexes.len() as int)
            } else {
                None
            },
        },
    decreases regexes.len(),
{
    if regexes.len() == 0 {
        assert(regexes.push(m).drop_first() =~= regexes);
    } else {
        assert(regexes.push(m).drop_first() =~= regexes.drop_first().push(m));
        if regexes.first()@ != source {
            lemma_first_source_push(regexes.drop_first(), m, source);
        }
    }
}

/// The source texts of a list of matchers, in its order.
pub open spec fn sources(regexes: Seq<Matcher>) -> Seq<Seq<u8>> {
    Seq::new(regexes.len(), |i: int| regexes[i]@)
}

/// Whether `later` starts with all of `earlier`: what was registered keeps
/// its place, and what is new comes behind it.
pub open spec fn keeps_order(earlier: Seq<Seq<u8>>, later: Seq<Seq<u8>>) -> bool {
    &&& earlier.len() <= later.len()
    &&& forall|i: int| 0 <= i < earlier.len() ==> later[i] == earlier[i]
}

/// Whether `later` is `earlier`, or `earlier` without one of its
/// elements: what is left keeps its order.
pub open spec fn thinned(earlier: Seq<Seq<u8>>, later: Seq<Seq<u8>>) -> bool {
    later == earlier || exists|k: int| 0 <= k < earlier.len() && later == earlier.remove(k)
}

/// What `first_index_of` finds after the key at index `i` was taken out of
/// keys that differ from each other.
pub proof fn lemma_first_index_remove(keys: Seq<u8>, i: int, x: u8)
    requires
        0 <= i < keys.len(),
        forall|a: int, b: int| 0 <= a < b < keys.len() ==> keys[a] != keys[b],
    ensures
        first_index_of(keys.remove(i), x) == match first_index_of(keys, x) {
            Some(j) => if j == i {
                None
            } else if j < i {
                Some(j)
            } else {
                Some(j - 1)
            },
            None => None,
        },
{
    let fewer = keys.remove(i);
    lemma_first_index_of(keys, x);
    lemma_first_index_of(fewer, x);
    assert forall|m: int| 0 <= m < fewer.len() implies fewer[m] == keys[if m < i {
        m
    } else {
        m + 1
    }] by {}
    match first_index_of(fewer, x) {
        Some(m) => {
            let j = if m < i {
                m
            } else {
                m + 1
            };
            assert(keys[j] == x);
            match first_index_of(keys, x) {
                Some(j2) => {
                    assert(j2 == j);
                },
                None => {},
            }
        },
        None => {
            match first_index_of(keys, x) {
                Some(j) => {
                    if j < i {
                        assert(fewer[j] == x);
                    } else if j > i {
                        assert(fewer[j - 1] == x);
                    }
                },
                None => {},
            }
        },
    }
}

/// What `first_source` finds after the matcher at index `i` was taken out
/// of matchers whose sources differ from each other.
pub proof fn lemma_first_source_remove(regexes: Seq<Matcher>, i: int, x: Seq<u8>)
    requires
        0 <= i < regexes.len(),
        forall|a: int, b: int| 0 <= a < b < regexes.len() ==> regexes[a]@ != regexes[b]@,
    ensures
        first_source(regexes.remove(i), x) == match first_source(regexes, x) {
            Some(j) => if j == i {
                None
            } else if j < i {
                Some(j)
            } else {
                Some(j - 1)
            },
            None => None,
        },
        sources(regexes.remove(i)) == sources(regexes).remove(i),
{
    let fewer = regexes.remove(i);
    lemma_first_source(regexes, x);
    lemma_first_source(fewer, x);
    assert forall|m: int| 0 <= m < fewer.len() implies fewer[m] == regexes[if m < i {
        m
    } else {
        m + 1
    }] by {}
    assert(sources(fewer) =~= sources(regexes).remove(i));
    match first_source(fewer, x) {
        Some(m) => {
            let j = if m < i {
                m
            } else {
                m + 1
            };
            assert(regexes[j]@ == x);
            match first_source(regexes, x) {
                Some(j2) => {
                    assert(j2 == j);
                },
                None => {},
            }
        },
        None => {
            match first_source(regexes, x) {
                Some(j) => {
                    if j < i {
                        assert(fewer[j]@ == x);
                    } else if j > i {
                        assert(fewer[j - 1]@ == x);
                    }
                },
                None => {},
            }
        },
    }
}

/// Whether the entry that a lookup hands out is the entry `s`.
pub open spec fn same_entry<V>(r: Option<&KeyValue<Key, V>>, s: Option<KeyValue<Key, V>>) -> bool {
    match r {
        Some(kv) => s == Some(*kv),
        None => s.is_none(),
    }
}

/// A node of the trie.
#[derive(Debug, PartialEq)]
pub struct TrieNode<V> {
    /// The entry stored at this node, if a key ends here.
    pub key_value: Option<KeyValue<Key, V>>,
    /// The literal run that leads into this node.
    pub prefix: Key,
    /// The first bytes of the literal children, one for each child.
    pub child_keys: Vec<u8>,
    /// The literal children.
    pub children: Vec<TrieNode<V>>,
    /// The regular expressions, in the order in which they are tried.
    pub regexes: Vec<Matcher>,
    /// The children below the regular expressions, one for each.
    pub regex_children: Vec<TrieNode<V>>,
    /// The child below the wildcard.
    pub wildcard: Option<Box<TrieNode<V>>>,
}

impl<V> TrieNode<V> {
    /// The node's invariant, which holds of every node below it too: keys
    /// and children go in pairs, no two literal children start with the same
    /// byte, each literal child's run starts with its key, and no regular
    /// expression is registered twice.
    pub open spec fn wf(&self) -> bool
        decreases self,
    {
        &&& self.child_keys@.len() == self.children@.len()
        &&& self.regexes@.len() == self.regex_children@.len()
        &&& forall|i: int, j: int|
            0 <= i < j < self.child_keys@.len() ==> self.child_keys@[i] != self.child_keys@[j]
        &&& forall|i: int, j: int|
            0 <= i < j < self.regexes@.len() ==> self.regexes@[i]@ != self.regexes@[j]@
        &&& forall|i: int|
            0 <= i < self.children@.len() ==> {
                &&& (#[trigger] self.children@[i]).wf()
                &&& self.children@[i].prefix@.len() > 0
                &&& self.children@[i].prefix@[0] == self.child_keys@[i]
            }
        &&& forall|i: int|
            0 <= i < self.regex_children@.len() ==> (#[trigger] self.regex_children@[i]).wf()
        &&& match self.wildcard {
            Some(w) => w.wf(),
            None => true,
        }
    }

    /// Whether the node holds nothing at all.
    pub open spec fn is_blank(&self) -> bool {
        &&& self.key_value.is_none()
        &&& self.prefix@.len() == 0
        &&& self.child_keys@.len() == 0
        &&& self.children@.len() == 0
        &&& self.regexes@.len() == 0
        &&& self.regex_children@.len() == 0
        &&& self.wildcard.is_none()
    }

    /// The entry that is stored under exactly `path`, if there is one. This
    /// is the trie seen as a map from paths to entries: the path has to
    /// start with the node's run, and what follows the run leads on below.
    pub open spec fn stored(&self, path: Seq<Step>) -> Option<KeyValue<Key, V>>
        decreases self, 1nat,
    {
        if starts_with_bytes(path, self.prefix@) {
            self.stored_below(path.skip(self.prefix@.len() as int))
        } else {
            None
        }
    }

    /// The entry that is stored under `rest` behind the node's run: the
    /// node's own entry for the empty path; else what the branch for the
    /// first step stores.
    pub open spec fn stored_below(&self, rest: Seq<Step>) -> Option<KeyValue<Key, V>>
        decreases self, 0nat,
    {
        if rest.len() == 0 {
            self.key_value
        } else {
            match rest[0] {
                Step::Byte(b) => match first_index_of(self.child_keys@, b) {
                    Some(i) => if 0 <= i < self.children@.len() {
                        self.children@[i].stored(rest)
                    } else {
                        None
                    },
                    None => None,
                },
                Step::Regex(source) => match first_source(self.regexes@, source) {
                    Some(i) => if 0 <= i < self.regex_children@.len() {
                        self.regex_children@[i].stored(rest.skip(1))
                    } else {
                        None
                    },
                    None => None,
                },
                Step::Wildcard => match self.wildcard {
                    Some(w) => w.stored(rest.skip(1)),
                    None => None,
                },
            }
        }
    }

    /// The regular expressions that are registered at the branch point
    /// behind `at`, by their source texts and in the order in which a lookup
    /// tries them. Empty where the trie branches nowhere behind `at`.
    pub open spec fn alternatives(&self, at: Seq<Step>) -> Seq<Seq<u8>>
        decreases self, 1nat,
    {
        if starts_with_bytes(at, self.prefix@) {
            self.alternatives_below(at.skip(self.prefix@.len() as int))
        } else {
            Seq::empty()
        }
    }

    /// `alternatives` behind the node's run.
    pub open spec fn alternatives_below(&self, rest: Seq<Step>) -> Seq<Seq<u8>>
        decreases self, 0nat,
    {
        if rest.len() == 0 {
            sources(self.regexes@)
        } else {
            match rest[0] {
                Step::Byte(b) => match first_index_of(self.child_keys@, b) {
                    Some(i) => if 0 <= i < self.children@.len() {
                        self.children@[i].alternatives(rest)
                    } else {
                        Seq::empty()
                    },
                    None => Seq::empty(),
                },
                Step::Regex(source) => match first_source(self.regexes@, source) {
                    Some(i) => if 0 <= i < self.regex_children@.len() {
                        self.regex_children@[i].alternatives(rest.skip(1))
                    } else {
                        Seq::empty()
                    },
                    None => Seq::empty(),
                },
                Step::Wildcard => match self.wildcard {
                    Some(w) => w.alternatives(rest.skip(1)),
                    None => Seq::empty(),
                },
            }
        }
    }

    /// What a lookup finds from this node: nothing unless the node's run
    /// comes next; then what `lookup_below` finds behind the run.
    pub open spec fn lookup_spec(&self, c: CursorView) -> Option<KeyValue<Key, V>>
        decreases self, self.regexes@.len() + 2,
    {
        if c.run_len(self.prefix@) < self.prefix@.len() {
            None
        } else {
            self.lookup_below(c.skip(self.prefix@.len() as int))
        }
    }

    /// What a lookup finds behind the node's run. At the end of the request
    /// that is the node's own entry. Else the literal child for the next
    /// byte is tried, then the regular expressions in their order, then the
    /// wildcard, and the first that finds an entry decides; if none does,
    /// the node's own entry is the answer.
    pub open spec fn lookup_below(&self, c: CursorView) -> Option<KeyValue<Key, V>>
        decreases self, self.regexes@.len() + 1,
    {
        if c.at_end() {
            self.key_value
        } else {
            let literal = match first_index_of(self.child_keys@, c.next_byte()) {
                Some(i) => if 0 <= i < self.children@.len() {
                    self.children@[i].lookup_spec(c)
                } else {
                    None
                },
                None => None,
            };
            if literal.is_some() {
                literal
            } else {
                let by_regex = self.lookup_regexes(c, 0);
                if by_regex.is_some() {
                    by_regex
                } else {
                    let by_wildcard = match self.wildcard {
                        Some(w) => if c.accepts_wildcard() {
                            w.lookup_spec(c.drop_uri(0))
                        } else {
                            None
                        },
                        None => None,
                    };
                    if by_wildcard.is_some() {
                        by_wildcard
                    } else {
                        self.key_value
                    }
                }
            }
        }
    }

    /// What the regular expressions from index `from` on find: the entry
    /// found below the first one that matches and leads to an entry.
    pub open spec fn lookup_regexes(&self, c: CursorView, from: nat) -> Option<KeyValue<Key, V>>
        decreases self, self.regexes@.len() - from,
    {
        if from >= self.regexes@.len() || from >= self.regex_children@.len() {
            None
        } else {
            let here = if regex_accepts(self.regexes@[from as int]@, c.regex_subject()) {
                self.regex_children@[from as int].lookup_spec(c.after_regex())
            } else {
                None
            };
            if here.is_some() {
                here
            } else {
                self.lookup_regexes(c, from + 1)
            }
        }
    }

    /// An empty trie.
    pub fn root() -> (node: TrieNode<V>)
        ensures
            node.is_blank(),
            node.wf(),
    {
        TrieNode {
            key_value: None,
            prefix: Vec::new(),
            child_keys: Vec::new(),
            children: Vec::new(),
            regexes: Vec::new(),
            regex_children: Vec::new(),
            wildcard: None,
        }
    }

    /// Finds the most specific entry that matches the request under the
    /// cursor.
    pub fn lookup(&self, cursor: HttpCursor) -> (r: Option<&KeyValue<Key, V>>)
        requires
            self.wf(),
        ensures
            same_entry(r, self.lookup_spec(cursor@.settled())),
    {
        let mut cursor = cursor;
        cursor.settle();
        self.lookup_from(cursor)
    }

    /// `lookup` for a cursor that is settled.
    pub fn lookup_from(&self, cursor: HttpCursor) -> (r: Option<&KeyValue<Key, V>>)
        requires
            self.wf(),
            cursor@.is_settled(),
        ensures
            same_entry(r, self.lookup_spec(cursor@)),
        decreases self,
    {
        let mut cur = cursor;
        let n = cur.match_run(self.prefix.as_slice());
        if n < self.prefix.len() {
            return None;
        }
        assert(self.lookup_spec(cursor@) == self.lookup_below(cur@));
        if cur.at_end() {
            return self.key_value.as_ref();
        }
        let c = cur.next_char();
        match position_of(self.child_keys.as_slice(), c) {
            Some(i) => {
                proof {
                    lemma_first_index_of(self.child_keys@, c);
                }
                let r = self.children[i].lookup_from(cur);
                if r.is_some() {
                    return r;
                }
            },
            None => {},
        }
        let ghost literal = match first_index_of(self.child_keys@, cur@.next_byte()) {
            Some(i) => if 0 <= i < self.children@.len() {
                self.children@[i].lookup_spec(cur@)
            } else {
                None
            },
            None => None,
        };
        assert(literal.is_none());
        let mut i: usize = 0;
        while i < self.regexes.len()
            invariant
                self.wf(),
                i <= self.regexes.len(),
                cur@.is_settled(),
                !cur@.at_end(),
                self.lookup_spec(cursor@) == self.lookup_below(cur@),
                literal.is_none(),
                literal == match first_index_of(self.child_keys@, cur@.next_byte()) {
                    Some(i) => if 0 <= i < self.children@.len() {
                        self.children@[i].lookup_spec(cur@)
                    } else {
                        None
                    },
                    None => None,
                },
                self.lookup_regexes(cur@, 0) == self.lookup_regexes(cur@, i as nat),
            decreases self.regexes.len() - i,
        {
            let mut branch = cur;
            if branch.match_regex(&self.regexes[i]) {
                let r = self.regex_children[i].lookup_from(branch);
                if r.is_some() {
                    return r;
                }
            }
            i = i + 1;
        }
        match &self.wildcard {
            Some(w) => {
                let mut branch = cur;
                if branch.match_sni_wildcard() {
                    let r = w.lookup_from(branch);
                    if r.is_some() {
                        return r;
                    }
                }
            },
            None => {},
        }
        self.key_value.as_ref()
    }
}


/// Reads the bytes of `run` one after another for as long as the key's next
/// step is that literal byte, and gives their number.
pub fn match_key_run(cursor: &mut HttpCursor, run: &[u8]) -> (n: usize)
    requires
        old(cursor)@.is_settled(),
        valid_key(old(cursor)@),
    ensures
        n <= run@.len(),
        final(cursor)@ == old(cursor)@.skip(n as int),
        final(cursor)@.is_settled(),
        valid_key(final(cursor)@),
        key_steps(old(cursor)@) == byte_steps(run@.take(n as int)) + key_steps(final(cursor)@),
        n < run@.len() ==> (key_steps(final(cursor)@).len() == 0 || key_steps(
            final(cursor)@,
        )[0] != Step::Byte(run@[n as int])),
{
    let mut i: usize = 0;
    proof {
        super::cursor::lemma_skip_zero(cursor@);
        assert(key_steps(cursor@) =~= byte_steps(run@.take(0)) + key_steps(cursor@));
    }
    while i < run.len()
        invariant
            i <= run.len(),
            cursor@ == old(cursor)@.skip(i as int),
            i <= old(cursor)@.remaining(),
            cursor@.is_settled(),
            valid_key(cursor@),
            key_steps(old(cursor)@) == byte_steps(run@.take(i as int)) + key_steps(cursor@),
        decreases run.len() - i,
    {
        if cursor.at_end() {
            return i;
        }
        proof {
            lemma_key_unfold(cursor@);
        }
        match cursor.next_pattern_type() {
            MatchPatternType::Prefix(b) => {
                if b != run[i] {
                    return i;
                }
            },
            _ => {
                return i;
            },
        }
        proof {
            lemma_skip_skip(old(cursor)@, i as int, 1);
            assert(byte_steps(run@.take(i + 1)) =~= byte_steps(run@.take(i as int)) + seq![
                Step::Byte(run@[i as int]),
            ]);
            assert(key_steps(cursor@) =~= seq![Step::Byte(run@[i as int])] + key_steps(
                cursor@.skip(1),
            ));
        }
        cursor.advance(1);
        i = i + 1;
    }
    i
}

/// Reads the literal bytes that the key starts with, up to the end of the
/// part the cursor stands in, and gives them in the order read.
pub fn read_literal_run(cursor: &mut HttpCursor) -> (run: Vec<u8>)
    requires
        old(cursor)@.is_settled(),
        valid_key(old(cursor)@),
    ensures
        final(cursor)@ == old(cursor)@.skip(run@.len() as int),
        run@.len() <= old(cursor)@.remaining(),
        final(cursor)@.is_settled(),
        valid_key(final(cursor)@),
        key_steps(old(cursor)@) == byte_steps(run@) + key_steps(final(cursor)@),
        key_steps(old(cursor)@).len() > 0 && key_steps(old(cursor)@)[0] is Byte ==> run@.len()
            > 0,
{
    let mut run: Vec<u8> = Vec::new();
    let in_host = cursor.in_host();
    let mut go = true;
    proof {
        super::cursor::lemma_skip_zero(cursor@);
        assert(key_steps(cursor@) =~= byte_steps(run@) + key_steps(cursor@));
    }
    while go
        invariant
            cursor@ == old(cursor)@.skip(run@.len() as int),
            run@.len() <= old(cursor)@.remaining(),
            cursor@.is_settled(),
            valid_key(cursor@),
            key_steps(old(cursor)@) == byte_steps(run@) + key_steps(cursor@),
            in_host == old(cursor)@.in_host,
            go || run@.len() > 0 || !(key_steps(old(cursor)@).len() > 0 && key_steps(
                old(cursor)@,
            )[0] is Byte),
        decreases cursor@.remaining(), (if go { 1nat } else { 0nat }),
    {
        if cursor.at_end() || cursor.in_host() != in_host {
            go = false;
        } else {
            proof {
                lemma_key_unfold(cursor@);
            }
            match cursor.next_pattern_type() {
                MatchPatternType::Prefix(b) => {
                    proof {
                        lemma_skip_skip(old(cursor)@, run@.len() as int, 1);
                        assert(byte_steps(run@.push(b)) =~= byte_steps(run@) + seq![Step::Byte(b)]);
                        assert(key_steps(cursor@) =~= seq![Step::Byte(b)] + key_steps(
                            cursor@.skip(1),
                        ));
                    }
                    run.push(b);
                    cursor.advance(1);
                },
                _ => {
                    go = false;
                },
            }
        }
    }
    run
}

/// The index of the first of `regexes` whose source is `source`.
pub fn source_position(regexes: &Vec<Matcher>, source: &[u8]) -> (r: Option<usize>)
    ensures
        match r {
            Some(i) => first_source(regexes@, source@) == Some(i as int),
            None => first_source(regexes@, source@).is_none(),
        },
{
    let mut i: usize = 0;
    while i < regexes.len()
        invariant
            i <= regexes.len(),
            forall|j: int| 0 <= j < i ==> regexes@[j]@ != source@,
        decreases regexes.len() - i,
    {
        if bytes_equal(regexes[i].source(), source) {
            proof {
                lemma_first_source(regexes@, source@);
            }
            return Some(i);
        }
        i = i + 1;
    }
    proof {
        lemma_first_source(regexes@, source@);
    }
    None
}


impl<V> TrieNode<V> {
    /// Adds a literal child under a byte that has none yet.
    pub fn attach_literal(&mut self, b: u8, child: TrieNode<V>)
        requires
            old(self).wf(),
            child.wf(),
            child.prefix@.len() > 0,
            child.prefix@[0] == b,
            first_index_of(old(self).child_keys@, b).is_none(),
        ensures
            final(self).wf(),
            final(self).prefix == old(self).prefix,
            final(self).key_value == old(self).key_value,
            forall|q: Seq<Step>|
                #[trigger] final(self).stored_below(q) == if q.len() > 0 && q[0] == Step::Byte(b) {
                    child.stored(q)
                } else {
                    old(self).stored_below(q)
                },
            forall|q: Seq<Step>|
                keeps_order(
                    old(self).alternatives_below(q),
                    #[trigger] final(self).alternatives_below(q),
                ),
    {
        proof {
            lemma_first_index_of(self.child_keys@, b);
        }
        let ghost before = *self;
        self.child_keys.push(b);
        self.children.push(child);
        proof {
            assert forall|q: Seq<Step>|
                keeps_order(
                    before.alternatives_below(q),
                    #[trigger] self.alternatives_below(q),
                ) by {
                if q.len() > 0 {
                    match q[0] {
                        Step::Byte(x) => {
                            lemma_first_index_push(before.child_keys@, b, x);
                            lemma_first_index_of(before.child_keys@, x);
                        },
                        _ => {},
                    }
                }
            }
            assert forall|q: Seq<Step>|
                #[trigger] self.stored_below(q) == if q.len() > 0 && q[0] == Step::Byte(b) {
                    child.stored(q)
                } else {
                    before.stored_below(q)
                } by {
                if q.len() > 0 {
                    match q[0] {
                        Step::Byte(x) => {
                            lemma_first_index_push(before.child_keys@, b, x);
                            lemma_first_index_of(before.child_keys@, x);
                        },
                        _ => {},
                    }
                }
            }
        }
    }

    /// Adds a regular expression that is not registered yet, with its child.
    pub fn attach_regex(&mut self, m: Matcher, child: TrieNode<V>)
        requires
            old(self).wf(),
            child.wf(),
            first_source(old(self).regexes@, m@).is_none(),
        ensures
            final(self).wf(),
            final(self).prefix == old(self).prefix,
            final(self).key_value == old(self).key_value,
            forall|q: Seq<Step>|
                #[trigger] final(self).stored_below(q) == if q.len() > 0 && q[0] == Step::Regex(
                    m@,
                ) {
                    child.stored(q.skip(1))
                } else {
                    old(self).stored_below(q)
                },
            forall|q: Seq<Step>|
                keeps_order(
                    old(self).alternatives_below(q),
                    #[trigger] final(self).alternatives_below(q),
                ),
            sources(final(self).regexes@) == sources(old(self).regexes@).push(m@),
    {
        proof {
            lemma_first_source(self.regexes@, m@);
        }
        let ghost before = *self;
        let ghost source = m@;
        self.regexes.push(m);
        self.regex_children.push(child);
        proof {
            assert(sources(self.regexes@) =~= sources(before.regexes@).push(source));
            assert forall|q: Seq<Step>|
                keeps_order(
                    before.alternatives_below(q),
                    #[trigger] self.alternatives_below(q),
                ) by {
                if q.len() > 0 {
                    match q[0] {
                        Step::Regex(x) => {
                            lemma_first_source_push(before.regexes@, self.regexes@.last(), x);
                            lemma_first_source(before.regexes@, x);
                        },
                        _ => {},
                    }
                }
            }
            assert forall|q: Seq<Step>|
                #[trigger] self.stored_below(q) == if q.len() > 0 && q[0] == Step::Regex(source) {
                    child.stored(q.skip(1))
                } else {
                    before.stored_below(q)
                } by {
                if q.len() > 0 {
                    match q[0] {
                        Step::Regex(x) => {
                            lemma_first_source_push(before.regexes@, self.regexes@.last(), x);
                            lemma_first_source(before.regexes@, x);
                        },
                        _ => {},
                    }
                }
            }
        }
    }

    /// Adds the child below the wildcard, where there is none yet.
    pub fn attach_wildcard(&mut self, child: TrieNode<V>)
        requires
            old(self).wf(),
            child.wf(),
            old(self).wildcard.is_none(),
        ensures
            final(self).wf(),
            final(self).prefix == old(self).prefix,
            final(self).key_value == old(self).key_value,
            forall|q: Seq<Step>|
                #[trigger] final(self).stored_below(q) == if q.len() > 0 && q[0] == Step::Wildcard {
                    child.stored(q.skip(1))
                } else {
                    old(self).stored_below(q)
                },
            forall|q: Seq<Step>|
                keeps_order(
                    old(self).alternatives_below(q),
                    #[trigger] final(self).alternatives_below(q),
                ),
    {
        self.wildcard = Some(Box::new(child));
    }
}


impl<V> TrieNode<V> {
    /// Cuts the node's run at `at`. The node keeps the first `at` bytes and
    /// hands everything else it holds to a single new literal child, which
    /// owns the rest of the run. What is stored under each path stays as it
    /// was.
    pub fn split(&mut self, at: usize)
        requires
            old(self).wf(),
            at < old(self).prefix@.len(),
        ensures
            final(self).wf(),
            final(self).prefix@ == old(self).prefix@.take(at as int),
            final(self).key_value.is_none(),
            final(self).child_keys@ == seq![old(self).prefix@[at as int]],
            final(self).regexes@.len() == 0,
            final(self).wildcard.is_none(),
            forall|p: Seq<Step>| #[trigger] final(self).stored(p) == old(self).stored(p),
            forall|p: Seq<Step>|
                #[trigger] final(self).alternatives(p) == old(self).alternatives(p),
    {
        let ghost before = *self;
        let tail = self.prefix.split_off(at);
        let b = tail[0];
        let mut child = TrieNode::root();
        child.prefix = tail;
        child.key_value = self.key_value.take();
        std::mem::swap(&mut child.child_keys, &mut self.child_keys);
        std::mem::swap(&mut child.children, &mut self.children);
        std::mem::swap(&mut child.regexes, &mut self.regexes);
        std::mem::swap(&mut child.regex_children, &mut self.regex_children);
        child.wildcard = self.wildcard.take();
        assert(child.wf());
        self.child_keys.push(b);
        self.children.push(child);
        proof {
            let head = before.prefix@.take(at as int);
            let rest = before.prefix@.skip(at as int);
            assert(before.prefix@ =~= head + rest);
            assert(self.children@[0] == child);
            assert(first_index_of(self.child_keys@, b) == Some(0int));
            assert(sources(self.regexes@) =~= Seq::<Seq<u8>>::empty());
            assert forall|p: Seq<Step>| #[trigger] self.alternatives(p) == before.alternatives(
                p,
            ) by {
                if starts_with_bytes(p, head) {
                    let q = p.skip(at as int);
                    if q.len() > 0 && q[0] == Step::Byte(b) {
                        assert(self.alternatives_below(q) == child.alternatives(q));
                        if starts_with_bytes(q, rest) {
                            assert forall|i: int| 0 <= i < before.prefix@.len() implies p[i]
                                == Step::Byte(before.prefix@[i]) by {
                                if i >= at {
                                    assert(p[i] == q[i - at]);
                                    assert(before.prefix@[i] == rest[i - at]);
                                }
                            }
                            assert(q.skip(rest.len() as int) =~= p.skip(
                                before.prefix@.len() as int,
                            ));
                            assert(child.alternatives_below(q.skip(rest.len() as int))
                                == before.alternatives_below(p.skip(before.prefix@.len() as int)));
                        } else {
                            if starts_with_bytes(p, before.prefix@) {
                                assert forall|i: int| 0 <= i < rest.len() implies q[i]
                                    == Step::Byte(rest[i]) by {
                                    assert(q[i] == p[i + at]);
                                }
                            }
                        }
                    } else {
                        if q.len() > 0 {
                            assert(q[0] == p[at as int]);
                            match q[0] {
                                Step::Byte(x) => {
                                    lemma_first_index_of(self.child_keys@, x);
                                    assert(first_index_of(self.child_keys@, x).is_none());
                                },
                                Step::Regex(x) => {
                                    lemma_first_source(self.regexes@, x);
                                },
                                Step::Wildcard => {},
                            }
                        }
                        assert(self.alternatives(p) =~= Seq::<Seq<u8>>::empty());
                        assert(!starts_with_bytes(p, before.prefix@));
                    }
                } else {
                    if starts_with_bytes(p, before.prefix@) {
                        assert forall|i: int| 0 <= i < head.len() implies p[i] == Step::Byte(
                            head[i],
                        ) by {
                            assert(head[i] == before.prefix@[i]);
                        }
                    }
                }
            }
            assert forall|p: Seq<Step>| #[trigger] self.stored(p) == before.stored(p) by {
                if starts_with_bytes(p, head) {
                    let q = p.skip(at as int);
                    if q.len() > 0 && q[0] == Step::Byte(b) {
                        assert(self.stored_below(q) == child.stored(q));
                        if starts_with_bytes(q, rest) {
                            assert forall|i: int| 0 <= i < before.prefix@.len() implies p[i]
                                == Step::Byte(before.prefix@[i]) by {
                                if i >= at {
                                    assert(p[i] == q[i - at]);
                                    assert(before.prefix@[i] == rest[i - at]);
                                }
                            }
                            assert(q.skip(rest.len() as int) =~= p.skip(
                                before.prefix@.len() as int,
                            ));
                            assert(child.stored_below(q.skip(rest.len() as int))
                                == before.stored_below(p.skip(before.prefix@.len() as int)));
                        } else {
                            if starts_with_bytes(p, before.prefix@) {
                                assert forall|i: int| 0 <= i < rest.len() implies q[i]
                                    == Step::Byte(rest[i]) by {
                                    assert(q[i] == p[i + at]);
                                }
                            }
                        }
                    } else {
                        if q.len() > 0 {
                            assert(q[0] == p[at as int]);
                            match q[0] {
                                Step::Byte(x) => {
                                    lemma_first_index_of(self.child_keys@, x);
                                    assert(first_index_of(self.child_keys@, x).is_none());
                                },
                                _ => {},
                            }
                        }
                        assert(self.stored(p).is_none());
                        assert(!starts_with_bytes(p, before.prefix@));
                    }
                } else {
                    if starts_with_bytes(p, before.prefix@) {
                        assert forall|i: int| 0 <= i < head.len() implies p[i] == Step::Byte(
                            head[i],
                        ) by {
                            assert(head[i] == before.prefix@[i]);
                        }
                    }
                }
            }
        }
    }
}


/// Reads the regular expression that the key holds next, and compiles it.
/// For a well-formed key the result is never `None`.
pub fn read_regex(cursor: &mut HttpCursor) -> (r: Option<Matcher>)
    requires
        old(cursor)@.is_settled(),
        valid_key(old(cursor)@),
        !old(cursor)@.at_end(),
        old(cursor)@.next_type() == MatchPatternType::Regex,
    ensures
        match r {
            Some(m) => key_steps(old(cursor)@)[0] == Step::Regex(m@),
            None => false,
        },
        key_steps(old(cursor)@).len() > 0,
        key_steps(old(cursor)@).skip(1) == key_steps(final(cursor)@),
        final(cursor)@.is_settled(),
        valid_key(final(cursor)@),
        final(cursor)@.remaining() < old(cursor)@.remaining(),
{
    proof {
        lemma_key_unfold(cursor@);
        lemma_skip_skip(cursor@, next_step(cursor@).unwrap().1 as int, 0);
    }
    let in_host = cursor.in_host();
    let limit = cursor.current_slice().len();
    match cursor.next_pattern() {
        Some((n, MatchPattern::Regex(m))) => {
            let len = if in_host {
                n
            } else {
                n + 1
            };
            cursor.advance(len);
            Some(m)
        },
        _ => None,
    }
}

impl<V> TrieNode<V> {
    /// Builds the trie that stores one entry, under the key that the cursor
    /// holds.
    pub fn build(cursor: HttpCursor, key: Key, value: V) -> (node: TrieNode<V>)
        requires
            cursor@.is_settled(),
            valid_key(cursor@),
        ensures
            node.wf(),
            node.stored(key_steps(cursor@)) == Some((key, value)),
            forall|p: Seq<Step>| p != key_steps(cursor@) ==> (#[trigger] node.stored(p)).is_none(),
            key_steps(cursor@).len() > 0 && key_steps(cursor@)[0] is Byte ==> node.prefix@.len() > 0
                && key_steps(cursor@)[0] == Step::Byte(node.prefix@[0]),
        decreases cursor@.remaining(),
    {
        let ghost path = key_steps(cursor@);
        let mut cur = cursor;
        let mut node = TrieNode::root();
        let ghost blank = node;
        node.prefix = read_literal_run(&mut cur);
        let ghost run = node.prefix@;
        let ghost rest = key_steps(cur@);
        proof {
            assert(path.skip(run.len() as int) =~= rest);
            assert(starts_with_bytes(path, run));
            assert(run.len() > 0 ==> path[0] == Step::Byte(run[0]));
            assert forall|q: Seq<Step>| (#[trigger] node.stored_below(q)).is_none() by {
                if q.len() > 0 {
                    match q[0] {
                        Step::Byte(x) => {
                            lemma_first_index_of(node.child_keys@, x);
                        },
                        Step::Regex(x) => {
                            lemma_first_source(node.regexes@, x);
                        },
                        Step::Wildcard => {},
                    }
                }
            }
        }
        let ghost bare = node;
        if cur.at_end() {
            node.key_value = Some((key, value));
            proof {
                assert forall|p: Seq<Step>| p != path implies (#[trigger] node.stored(p)).is_none() by {
                    if starts_with_bytes(p, run) {
                        lemma_starts_with_split(p, run);
                        lemma_starts_with_split(path, run);
                        let q = p.skip(run.len() as int);
                        assert(q.len() > 0);
                        assert(node.stored_below(q) == bare.stored_below(q));
                    }
                }
            }
            return node;
        }
        proof {
            lemma_key_unfold(cur@);
        }
        match cur.next_pattern_type() {
            MatchPatternType::Prefix(b) => {
                proof {
                    lemma_first_index_of(node.child_keys@, b);
                }
                let child = Self::build(cur, key, value);
                node.attach_literal(b, child);
                proof {
                    assert(rest[0] == Step::Byte(b));
                    assert(node.stored_below(rest) == child.stored(rest));
                    assert forall|p: Seq<Step>| p != path implies (#[trigger] node.stored(
                        p,
                    )).is_none() by {
                        if starts_with_bytes(p, run) {
                            lemma_starts_with_split(p, run);
                            lemma_starts_with_split(path, run);
                            let q = p.skip(run.len() as int);
                            assert(q != rest);
                            if q.len() > 0 && q[0] == Step::Byte(b) {
                                assert(node.stored_below(q) == child.stored(q));
                            } else {
                                assert(node.stored_below(q) == bare.stored_below(q));
                            }
                        }
                    }
                }
            },
            MatchPatternType::Regex => {
                match read_regex(&mut cur) {
                    Some(m) => {
                        proof {
                            lemma_first_source(node.regexes@, m@);
                        }
                        let ghost source = m@;
                        let child = Self::build(cur, key, value);
                        node.attach_regex(m, child);
                        proof {
                            assert(rest[0] == Step::Regex(source));
                            assert(node.stored_below(rest) == child.stored(rest.skip(1)));
                            assert forall|p: Seq<Step>| p != path implies (#[trigger] node.stored(
                                p,
                            )).is_none() by {
                                if starts_with_bytes(p, run) {
                                    lemma_starts_with_split(p, run);
                                    lemma_starts_with_split(path, run);
                                    let q = p.skip(run.len() as int);
                                    assert(q != rest);
                                    if q.len() > 0 && q[0] == Step::Regex(source) {
                                        assert(node.stored_below(q) == child.stored(q.skip(1)));
                                        if q.skip(1) == rest.skip(1) {
                                            assert(q =~= seq![q[0]] + q.skip(1));
                                            assert(rest =~= seq![rest[0]] + rest.skip(1));
                                        }
                                    } else {
                                        assert(node.stored_below(q) == bare.stored_below(q));
                                    }
                                }
                            }
                        }
                    },
                    None => {},
                }
            },
            MatchPatternType::SniWildcard => {
                proof {
                    lemma_skip_skip(cur@, 1, 0);
                }
                cur.advance(1);
                let child = Self::build(cur, key, value);
                node.attach_wildcard(child);
                proof {
                    assert(rest[0] == Step::Wildcard);
                    assert(node.stored_below(rest) == child.stored(rest.skip(1)));
                    assert forall|p: Seq<Step>| p != path implies (#[trigger] node.stored(
                        p,
                    )).is_none() by {
                        if starts_with_bytes(p, run) {
                            lemma_starts_with_split(p, run);
                            lemma_starts_with_split(path, run);
                            let q = p.skip(run.len() as int);
                            assert(q != rest);
                            if q.len() > 0 && q[0] == Step::Wildcard {
                                assert(node.stored_below(q) == child.stored(q.skip(1)));
                                if q.skip(1) == rest.skip(1) {
                                    assert(q =~= seq![q[0]] + q.skip(1));
                                    assert(rest =~= seq![rest[0]] + rest.skip(1));
                                }
                            } else {
                                assert(node.stored_below(q) == bare.stored_below(q));
                            }
                        }
                    }
                }
            },
        }
        node
    }
}


impl<V> TrieNode<V> {
    /// Whether the node holds nothing at all.
    pub fn is_empty(&self) -> (b: bool)
        requires
            self.wf(),
        ensures
            b == self.is_blank(),
    {
        self.key_value.is_none() && self.prefix.len() == 0 && self.child_keys.len() == 0
            && self.regexes.len() == 0 && self.wildcard.is_none()
    }

    /// Nothing is stored in a node that holds nothing.
    pub proof fn lemma_blank_stores_nothing(&self, p: Seq<Step>)
        requires
            self.is_blank(),
        ensures
            self.stored(p).is_none(),
            self.stored_below(p).is_none(),
            self.alternatives(p).len() == 0,
            self.alternatives_below(p).len() == 0,
    {
        if p.len() > 0 {
            match p[0] {
                Step::Byte(x) => {
                    lemma_first_index_of(self.child_keys@, x);
                },
                Step::Regex(x) => {
                    lemma_first_source(self.regexes@, x);
                },
                Step::Wildcard => {},
            }
        }
        assert(p.skip(0) =~= p);
    }

    /// Whether the branch that `rest` starts with is missing below the node.
    pub open spec fn lacks_branch(&self, rest: Seq<Step>) -> bool {
        rest.len() > 0 && match rest[0] {
            Step::Byte(b) => first_index_of(self.child_keys@, b).is_none(),
            Step::Regex(source) => first_source(self.regexes@, source).is_none(),
            Step::Wildcard => self.wildcard.is_none(),
        }
    }

    /// Builds the branch for the key that the cursor holds and hangs it
    /// below the node, where the first step of that key has no branch yet.
    pub fn add_branch(&mut self, cursor: HttpCursor, key: Key, value: V)
        requires
            old(self).wf(),
            cursor@.is_settled(),
            valid_key(cursor@),
            old(self).lacks_branch(key_steps(cursor@)),
        ensures
            final(self).wf(),
            final(self).prefix == old(self).prefix,
            final(self).key_value == old(self).key_value,
            old(self).stored_below(key_steps(cursor@)).is_none(),
            final(self).stored_below(key_steps(cursor@)) == Some((key, value)),
            forall|q: Seq<Step>|
                q != key_steps(cursor@) ==> #[trigger] final(self).stored_below(q) == old(
                    self,
                ).stored_below(q),
            forall|q: Seq<Step>|
                keeps_order(
                    old(self).alternatives_below(q),
                    #[trigger] final(self).alternatives_below(q),
                ),
    {
        let ghost rest = key_steps(cursor@);
        let ghost before = *self;
        let mut cur = cursor;
        proof {
            if cur@.at_end() {
                assert(rest.len() == 0);
            }
            lemma_key_unfold(cur@);
        }
        match cur.next_pattern_type() {
            MatchPatternType::Prefix(b) => {
                let child = Self::build(cur, key, value);
                self.attach_literal(b, child);
                proof {
                    assert(self.stored_below(rest) == child.stored(rest));
                    assert forall|q: Seq<Step>| q != rest implies #[trigger] self.stored_below(q)
                        == before.stored_below(q) by {
                        if q.len() > 0 && q[0] == Step::Byte(b) {
                            assert(self.stored_below(q) == child.stored(q));
                            assert(before.stored_below(q).is_none());
                        }
                    }
                }
            },
            MatchPatternType::Regex => {
                match read_regex(&mut cur) {
                    Some(m) => {
                        let ghost source = m@;
                        let child = Self::build(cur, key, value);
                        self.attach_regex(m, child);
                        proof {
                            assert(self.stored_below(rest) == child.stored(rest.skip(1)));
                            assert forall|q: Seq<Step>| q != rest implies #[trigger] self.stored_below(
                                q,
                            ) == before.stored_below(q) by {
                                if q.len() > 0 && q[0] == Step::Regex(source) {
                                    assert(self.stored_below(q) == child.stored(q.skip(1)));
                                    if q.skip(1) == rest.skip(1) {
                                        assert(q =~= seq![q[0]] + q.skip(1));
                                        assert(rest =~= seq![rest[0]] + rest.skip(1));
                                    }
                                    assert(before.stored_below(q).is_none());
                                }
                            }
                        }
                    },
                    None => {},
                }
            },
            MatchPatternType::SniWildcard => {
                proof {
                    lemma_skip_skip(cur@, 1, 0);
                }
                cur.advance(1);
                let child = Self::build(cur, key, value);
                self.attach_wildcard(child);
                proof {
                    assert(self.stored_below(rest) == child.stored(rest.skip(1)));
                    assert forall|q: Seq<Step>| q != rest implies #[trigger] self.stored_below(q)
                        == before.stored_below(q) by {
                        if q.len() > 0 && q[0] == Step::Wildcard {
                            assert(self.stored_below(q) == child.stored(q.skip(1)));
                            if q.skip(1) == rest.skip(1) {
                                assert(q =~= seq![q[0]] + q.skip(1));
                                assert(rest =~= seq![rest[0]] + rest.skip(1));
                            }
                            assert(before.stored_below(q).is_none());
                        }
                    }
                }
            },
        }
    }
}

/// The source text of the regular expression that the key holds next, and
/// the number of bytes that the expression takes up in the key.
pub fn peek_regex_source<'a>(cursor: &HttpCursor<'a>) -> (r: (&'a [u8], usize))
    requires
        cursor@.is_settled(),
        valid_key(cursor@),
        !cursor@.at_end(),
        cursor@.next_type() == MatchPatternType::Regex,
    ensures
        next_step(cursor@) == Some((Step::Regex(r.0@), r.1 as nat)),
        1 <= r.1 <= cursor@.remaining(),
{
    proof {
        lemma_key_unfold(cursor@);
    }
    if cursor.in_host() {
        let host = cursor.host_slice();
        let start = label_start_of(host);
        proof {
            lemma_label_bounds(host@);
        }
        let len = host.len();
        let source = slice_subrange(host, start + 1, len - 1);
        assert(source@ =~= super::cursor::last_label(host@).subrange(
            1,
            super::cursor::last_label(host@).len() - 1,
        ));
        (source, len - start)
    } else {
        let uri = cursor.current_slice();
        let len = uri.len();
        let source = slice_subrange(uri, 1, len);
        assert(source@ =~= uri@.skip(1));
        (source, len)
    }
}

impl<V> TrieNode<V> {
    /// Finds the entry that is stored under exactly the key that the cursor
    /// holds. The key is read as a pattern, not as a request: a `*` names
    /// the wildcard branch and does not stand for a label.
    pub fn find(&self, cursor: HttpCursor) -> (r: Option<&KeyValue<Key, V>>)
        requires
            self.wf(),
            cursor@.is_settled(),
            valid_key(cursor@),
        ensures
            same_entry(r, self.stored(key_steps(cursor@))),
        decreases self,
    {
        let ghost path = key_steps(cursor@);
        let mut cur = cursor;
        let n = match_key_run(&mut cur, self.prefix.as_slice());
        let ghost rest = key_steps(cur@);
        proof {
            assert(path.skip(n as int) =~= rest);
        }
        if n < self.prefix.len() {
            proof {
                if rest.len() > 0 {
                    assert(path[n as int] == rest[0]);
                }
            }
            return None;
        }
        proof {
            assert(self.prefix@.take(n as int) =~= self.prefix@);
            assert(starts_with_bytes(path, self.prefix@));
        }
        if cur.at_end() {
            return self.key_value.as_ref();
        }
        proof {
            lemma_key_unfold(cur@);
        }
        match cur.next_pattern_type() {
            MatchPatternType::Prefix(b) => {
                match position_of(self.child_keys.as_slice(), b) {
                    Some(i) => {
                        proof {
                            lemma_first_index_of(self.child_keys@, b);
                        }
                        self.children[i].find(cur)
                    },
                    None => None,
                }
            },
            MatchPatternType::Regex => {
                let (source, len) = peek_regex_source(&cur);
                match source_position(&self.regexes, source) {
                    Some(i) => {
                        proof {
                            lemma_first_source(self.regexes@, source@);
                        }
                        cur.advance(len);
                        self.regex_children[i].find(cur)
                    },
                    None => None,
                }
            },
            MatchPatternType::SniWildcard => {
                match &self.wildcard {
                    Some(w) => {
                        cur.advance(1);
                        w.find(cur)
                    },
                    None => None,
                }
            },
        }
    }

    /// Carries an insertion on into the literal child at index `i`.
    pub fn descend_literal(&mut self, i: usize, cursor: HttpCursor, key: Key, value: V)
        requires
            old(self).wf(),
            i < old(self).children@.len(),
            cursor@.is_settled(),
            valid_key(cursor@),
            key_steps(cursor@).len() > 0,
            key_steps(cursor@)[0] == Step::Byte(old(self).child_keys@[i as int]),
            old(self).stored_below(key_steps(cursor@)).is_none(),
        ensures
            final(self).wf(),
            final(self).prefix == old(self).prefix,
            final(self).stored_below(key_steps(cursor@)) == Some((key, value)),
            forall|q: Seq<Step>|
                q != key_steps(cursor@) ==> #[trigger] final(self).stored_below(q) == old(
                    self,
                ).stored_below(q),
            forall|q: Seq<Step>|
                keeps_order(
                    old(self).alternatives_below(q),
                    #[trigger] final(self).alternatives_below(q),
                ),
        decreases *old(self), 0nat,
    {
        let ghost rest = key_steps(cursor@);
        let ghost before = *self;
        let ghost b = self.child_keys@[i as int];
        proof {
            lemma_first_index_of(self.child_keys@, b);
            assert(before.stored_below(rest) == before.children@[i as int].stored(rest));
        }
        self.children[i].add(cursor, key, value);
        proof {
            assert(self.child_keys == before.child_keys);
            assert(self.key_value == before.key_value);
            assert(self.regexes == before.regexes);
            assert(self.regex_children == before.regex_children);
            assert(self.wildcard == before.wildcard);
            assert(self.children@.len() == before.children@.len());
            assert forall|q: Seq<Step>|
                keeps_order(
                    before.alternatives_below(q),
                    #[trigger] self.alternatives_below(q),
                ) by {
                if q.len() > 0 {
                    match q[0] {
                        Step::Byte(x) => {
                            lemma_first_index_of(self.child_keys@, x);
                            match first_index_of(self.child_keys@, x) {
                                Some(j) => {
                                    if j == i {
                                        assert(keeps_order(
                                            before.children@[i as int].alternatives(q),
                                            self.children@[i as int].alternatives(q),
                                        ));
                                    } else {
                                        assert(self.children@[j] == before.children@[j]);
                                    }
                                    assert(self.alternatives_below(q)
                                        == self.children@[j].alternatives(q));
                                    assert(before.alternatives_below(q)
                                        == before.children@[j].alternatives(q));
                                },
                                None => {},
                            }
                        },
                        Step::Regex(x) => {
                            assert(self.alternatives_below(q) == before.alternatives_below(q));
                        },
                        Step::Wildcard => {
                            assert(self.alternatives_below(q) == before.alternatives_below(q));
                        },
                    }
                } else {
                    assert(self.alternatives_below(q) == before.alternatives_below(q));
                }
            }
            assert(self.stored_below(rest) == self.children@[i as int].stored(rest));
            assert forall|q: Seq<Step>| q != rest implies #[trigger] self.stored_below(q)
                == before.stored_below(q) by {
                if q.len() > 0 {
                    match q[0] {
                        Step::Byte(x) => {
                            lemma_first_index_of(self.child_keys@, x);
                            match first_index_of(self.child_keys@, x) {
                                Some(j) => {
                                    if j == i {
                                        assert(self.children@[i as int].stored(q)
                                            == before.children@[i as int].stored(q));
                                    } else {
                                        assert(self.children@[j] == before.children@[j]);
                                    }
                                    assert(self.stored_below(q) == self.children@[j].stored(q));
                                    assert(before.stored_below(q) == before.children@[j].stored(q));
                                },
                                None => {
                                    assert(self.stored_below(q).is_none());
                                    assert(before.stored_below(q).is_none());
                                },
                            }
                        },
                        Step::Regex(x) => {
                            assert(self.stored_below(q) == before.stored_below(q));
                        },
                        Step::Wildcard => {
                            assert(self.stored_below(q) == before.stored_below(q));
                        },
                    }
                } else {
                    assert(self.stored_below(q) == before.stored_below(q));
                }
            }
        }
    }

    /// Carries an insertion on into the child below the regular expression
    /// at index `i`. The cursor stands behind the expression.
    pub fn descend_regex(&mut self, i: usize, cursor: HttpCursor, key: Key, value: V)
        requires
            old(self).wf(),
            i < old(self).regex_children@.len(),
            cursor@.is_settled(),
            valid_key(cursor@),
            old(self).regex_children@[i as int].stored(key_steps(cursor@)).is_none(),
        ensures
            final(self).wf(),
            final(self).prefix == old(self).prefix,
            final(self).stored_below(
                seq![Step::Regex(old(self).regexes@[i as int]@)] + key_steps(cursor@),
            ) == Some((key, value)),
            forall|q: Seq<Step>|
                q != seq![Step::Regex(old(self).regexes@[i as int]@)] + key_steps(cursor@)
                    ==> #[trigger] final(self).stored_below(q) == old(self).stored_below(q),
            forall|q: Seq<Step>|
                keeps_order(
                    old(self).alternatives_below(q),
                    #[trigger] final(self).alternatives_below(q),
                ),
        decreases *old(self), 0nat,
    {
        let ghost sub = key_steps(cursor@);
        let ghost source = self.regexes@[i as int]@;
        let ghost rest = seq![Step::Regex(source)] + sub;
        let ghost before = *self;
        proof {
            lemma_first_source(self.regexes@, source);
            assert(rest.skip(1) =~= sub);
        }
        self.regex_children[i].add(cursor, key, value);
        proof {
            assert(self.child_keys == before.child_keys);
            assert(self.children == before.children);
            assert(self.key_value == before.key_value);
            assert(self.regexes == before.regexes);
            assert(self.wildcard == before.wildcard);
            assert(self.regex_children@.len() == before.regex_children@.len());
            assert forall|q: Seq<Step>|
                keeps_order(
                    before.alternatives_below(q),
                    #[trigger] self.alternatives_below(q),
                ) by {
                if q.len() > 0 {
                    match q[0] {
                        Step::Regex(x) => {
                            lemma_first_source(self.regexes@, x);
                            match first_source(self.regexes@, x) {
                                Some(j) => {
                                    if j == i {
                                        assert(keeps_order(
                                            before.regex_children@[i as int].alternatives(
                                                q.skip(1),
                                            ),
                                            self.regex_children@[i as int].alternatives(q.skip(1)),
                                        ));
                                    } else {
                                        assert(self.regex_children@[j]
                                            == before.regex_children@[j]);
                                    }
                                    assert(self.alternatives_below(q)
                                        == self.regex_children@[j].alternatives(q.skip(1)));
                                    assert(before.alternatives_below(q)
                                        == before.regex_children@[j].alternatives(q.skip(1)));
                                },
                                None => {},
                            }
                        },
                        Step::Byte(x) => {
                            assert(self.alternatives_below(q) == before.alternatives_below(q));
                        },
                        Step::Wildcard => {
                            assert(self.alternatives_below(q) == before.alternatives_below(q));
                        },
                    }
                } else {
                    assert(self.alternatives_below(q) == before.alternatives_below(q));
                }
            }
            assert(self.stored_below(rest) == self.regex_children@[i as int].stored(sub));
            assert forall|q: Seq<Step>| q != rest implies #[trigger] self.stored_below(q)
                == before.stored_below(q) by {
                if q.len() > 0 {
                    match q[0] {
                        Step::Regex(x) => {
                            lemma_first_source(self.regexes@, x);
                            match first_source(self.regexes@, x) {
                                Some(j) => {
                                    if j != i {
                                        assert(self.regex_children@[j] == before.regex_children@[j]);
                                    } else {
                                        if q.skip(1) == sub {
                                            assert(q =~= seq![q[0]] + q.skip(1));
                                        }
                                        assert(self.regex_children@[i as int].stored(q.skip(1))
                                            == before.regex_children@[i as int].stored(q.skip(1)));
                                    }
                                    assert(self.stored_below(q) == self.regex_children@[j].stored(
                                        q.skip(1),
                                    ));
                                    assert(before.stored_below(q)
                                        == before.regex_children@[j].stored(q.skip(1)));
                                },
                                None => {
                                    assert(self.stored_below(q).is_none());
                                    assert(before.stored_below(q).is_none());
                                },
                            }
                        },
                        Step::Byte(x) => {
                            assert(self.stored_below(q) == before.stored_below(q));
                        },
                        Step::Wildcard => {
                            assert(self.stored_below(q) == before.stored_below(q));
                        },
                    }
                } else {
                    assert(self.stored_below(q) == before.stored_below(q));
                }
            }
        }
    }

    /// Carries an insertion on into the child below the wildcard. The
    /// cursor stands behind the wildcard.
    pub fn descend_wildcard(&mut self, cursor: HttpCursor, key: Key, value: V)
        requires
            old(self).wf(),
            old(self).wildcard.is_some(),
            cursor@.is_settled(),
            valid_key(cursor@),
            old(self).wildcard.unwrap().stored(key_steps(cursor@)).is_none(),
        ensures
            final(self).wf(),
            final(self).prefix == old(self).prefix,
            final(self).stored_below(seq![Step::Wildcard] + key_steps(cursor@)) == Some(
                (key, value),
            ),
            forall|q: Seq<Step>|
                q != seq![Step::Wildcard] + key_steps(cursor@)
                    ==> #[trigger] final(self).stored_below(q) == old(self).stored_below(q),
            forall|q: Seq<Step>|
                keeps_order(
                    old(self).alternatives_below(q),
                    #[trigger] final(self).alternatives_below(q),
                ),
        decreases *old(self), 0nat,
    {
        let ghost sub = key_steps(cursor@);
        let ghost rest = seq![Step::Wildcard] + sub;
        let ghost before = *self;
        proof {
            assert(rest.skip(1) =~= sub);
        }
        match self.wildcard.take() {
            Some(mut w) => {
                let ghost child = *w;
                w.add(cursor, key, value);
                let ghost grown = *w;
                self.wildcard = Some(w);
                proof {
                    assert forall|q: Seq<Step>|
                        keeps_order(
                            before.alternatives_below(q),
                            #[trigger] self.alternatives_below(q),
                        ) by {
                        if q.len() > 0 {
                            match q[0] {
                                Step::Wildcard => {
                                    assert(keeps_order(
                                        child.alternatives(q.skip(1)),
                                        grown.alternatives(q.skip(1)),
                                    ));
                                    assert(self.alternatives_below(q) == grown.alternatives(
                                        q.skip(1),
                                    ));
                                    assert(before.alternatives_below(q) == child.alternatives(
                                        q.skip(1),
                                    ));
                                },
                                Step::Byte(x) => {
                                    assert(self.alternatives_below(q)
                                        == before.alternatives_below(q));
                                },
                                Step::Regex(x) => {
                                    assert(self.alternatives_below(q)
                                        == before.alternatives_below(q));
                                },
                            }
                        } else {
                            assert(self.alternatives_below(q) == before.alternatives_below(q));
                        }
                    }
                    assert(self.stored_below(rest) == self.wildcard.unwrap().stored(sub));
                    assert forall|q: Seq<Step>| q != rest implies #[trigger] self.stored_below(q)
                        == before.stored_below(q) by {
                        if q.len() > 0 {
                            match q[0] {
                                Step::Wildcard => {
                                    if q.skip(1) == sub {
                                        assert(q =~= seq![q[0]] + q.skip(1));
                                    }
                                    assert(self.stored_below(q) == self.wildcard.unwrap().stored(
                                        q.skip(1),
                                    ));
                                    assert(before.stored_below(q)
                                        == before.wildcard.unwrap().stored(q.skip(1)));
                                },
                                Step::Byte(x) => {
                                    assert(self.stored_below(q) == before.stored_below(q));
                                },
                                Step::Regex(x) => {
                                    assert(self.stored_below(q) == before.stored_below(q));
                                },
                            }
                        } else {
                            assert(self.stored_below(q) == before.stored_below(q));
                        }
                    }
                }
            },
            None => {},
        }
    }

    /// Stores `value` under the key that the cursor holds, with `key` as
    /// the bytes to report for it. The key must not be stored yet.
    pub fn add(&mut self, cursor: HttpCursor, key: Key, value: V)
        requires
            old(self).wf(),
            cursor@.is_settled(),
            valid_key(cursor@),
            old(self).stored(key_steps(cursor@)).is_none(),
        ensures
            final(self).wf(),
            final(self).stored(key_steps(cursor@)) == Some((key, value)),
            forall|p: Seq<Step>|
                p != key_steps(cursor@) ==> #[trigger] final(self).stored(p) == old(self).stored(p),
            forall|at: Seq<Step>|
                keeps_order(old(self).alternatives(at), #[trigger] final(self).alternatives(at)),
            old(self).prefix@.len() > 0 && key_steps(cursor@).len() > 0 && key_steps(cursor@)[0]
                == Step::Byte(old(self).prefix@[0]) ==> final(self).prefix@.len() > 0
                && final(self).prefix@[0] == old(self).prefix@[0],
        decreases *old(self), 2nat,
    {
        let ghost path = key_steps(cursor@);
        let ghost before = *self;
        let mut cur = cursor;
        if self.is_empty() {
            *self = Self::build(cur, key, value);
            proof {
                assert forall|p: Seq<Step>| (#[trigger] before.stored(p)).is_none() by {
                    before.lemma_blank_stores_nothing(p);
                }
                assert forall|at: Seq<Step>|
                    keeps_order(before.alternatives(at), #[trigger] self.alternatives(at)) by {
                    before.lemma_blank_stores_nothing(at);
                }
            }
            return ;
        }
        let n = match_key_run(&mut cur, self.prefix.as_slice());
        let ghost rest = key_steps(cur@);
        let ghost run = before.prefix@.take(n as int);
        proof {
            assert(path.skip(n as int) =~= rest);
            assert(starts_with_bytes(path, run));
        }
        if n < self.prefix.len() {
            self.split(n);
            let ghost cut = *self;
            proof {
                assert(cut.stored(path) == cut.stored_below(rest));
                if rest.len() > 0 {
                    match rest[0] {
                        Step::Byte(x) => {
                            lemma_first_index_of(cut.child_keys@, x);
                        },
                        Step::Regex(x) => {
                            lemma_first_source(cut.regexes@, x);
                        },
                        Step::Wildcard => {},
                    }
                }
            }
            if cur.at_end() {
                self.key_value = Some((key, value));
            } else {
                proof {
                    lemma_key_unfold(cur@);
                }
                self.add_branch(cur, key, value);
            }
            proof {
                assert forall|at: Seq<Step>|
                    keeps_order(before.alternatives(at), #[trigger] self.alternatives(at)) by {
                    assert(cut.alternatives(at) == before.alternatives(at));
                    if starts_with_bytes(at, run) {
                        let q = at.skip(run.len() as int);
                        assert(keeps_order(cut.alternatives_below(q), self.alternatives_below(q)));
                    }
                }
                assert forall|p: Seq<Step>| p != path implies #[trigger] self.stored(p)
                    == before.stored(p) by {
                    if starts_with_bytes(p, run) {
                        lemma_starts_with_split(p, run);
                        lemma_starts_with_split(path, run);
                        let q = p.skip(run.len() as int);
                        assert(q != rest);
                        assert(self.stored_below(q) == cut.stored_below(q));
                    }
                    assert(cut.stored(p) == before.stored(p));
                }
            }
            return ;
        }
        proof {
            assert(run =~= before.prefix@);
            assert(before.stored(path) == before.stored_below(rest));
        }
        self.add_below(cur, key, value);
        proof {
            assert forall|at: Seq<Step>|
                keeps_order(before.alternatives(at), #[trigger] self.alternatives(at)) by {
                if starts_with_bytes(at, run) {
                    let q = at.skip(run.len() as int);
                    assert(keeps_order(before.alternatives_below(q), self.alternatives_below(q)));
                }
            }
            assert forall|p: Seq<Step>| p != path implies #[trigger] self.stored(p)
                == before.stored(p) by {
                if starts_with_bytes(p, run) {
                    lemma_starts_with_split(p, run);
                    lemma_starts_with_split(path, run);
                    let q = p.skip(run.len() as int);
                    assert(q != rest);
                    assert(self.stored_below(q) == before.stored_below(q));
                }
            }
        }
    }

    /// Stores `value` behind the node's run, under the rest of the key that
    /// the cursor holds.
    pub fn add_below(&mut self, cursor: HttpCursor, key: Key, value: V)
        requires
            old(self).wf(),
            cursor@.is_settled(),
            valid_key(cursor@),
            old(self).stored_below(key_steps(cursor@)).is_none(),
        ensures
            final(self).wf(),
            final(self).prefix == old(self).prefix,
            final(self).stored_below(key_steps(cursor@)) == Some((key, value)),
            forall|q: Seq<Step>|
                q != key_steps(cursor@) ==> #[trigger] final(self).stored_below(q) == old(
                    self,
                ).stored_below(q),
            forall|q: Seq<Step>|
                keeps_order(
                    old(self).alternatives_below(q),
                    #[trigger] final(self).alternatives_below(q),
                ),
        decreases *old(self), 1nat,
    {
        let ghost rest = key_steps(cursor@);
        let ghost before = *self;
        let mut cur = cursor;
        if cur.at_end() {
            self.key_value = Some((key, value));
            proof {
                assert(rest.len() == 0);
                assert forall|q: Seq<Step>| q != rest implies #[trigger] self.stored_below(q)
                    == before.stored_below(q) by {
                    if q.len() == 0 {
                        assert(q =~= rest);
                    }
                }
            }
            return ;
        }
        proof {
            lemma_key_unfold(cur@);
        }
        match cur.next_pattern_type() {
            MatchPatternType::Prefix(b) => {
                match position_of(self.child_keys.as_slice(), b) {
                    Some(i) => {
                        proof {
                            lemma_first_index_of(self.child_keys@, b);
                        }
                        self.descend_literal(i, cur, key, value);
                    },
                    None => {
                        self.add_branch(cur, key, value);
                    },
                }
            },
            MatchPatternType::Regex => {
                let (source, len) = peek_regex_source(&cur);
                match source_position(&self.regexes, source) {
                    Some(i) => {
                        proof {
                            lemma_first_source(self.regexes@, source@);
                            lemma_skip_skip(cur@, len as int, 0);
                            assert(rest =~= seq![Step::Regex(source@)] + key_steps(
                                cur@.skip(len as int),
                            ));
                        }
                        cur.advance(len);
                        self.descend_regex(i, cur, key, value);
                    },
                    None => {
                        self.add_branch(cur, key, value);
                    },
                }
            },
            MatchPatternType::SniWildcard => {
                if self.wildcard.is_some() {
                    proof {
                        lemma_skip_skip(cur@, 1, 0);
                        assert(rest =~= seq![Step::Wildcard] + key_steps(cur@.skip(1)));
                    }
                    cur.advance(1);
                    self.descend_wildcard(cur, key, value);
                } else {
                    self.add_branch(cur, key, value);
                }
            },
        }
    }
}


/// Whether the key under the cursor is well formed. Compiles each regular
/// expression in it to find out.
pub fn check_key(cursor: HttpCursor) -> (ok: bool)
    requires
        cursor@.is_settled(),
    ensures
        ok == valid_key(cursor@),
{
    let mut cur = cursor;
    while !cur.at_end()
        invariant
            cur@.is_settled(),
            valid_key(cursor@) == valid_key(cur@),
        decreases cur@.remaining(),
    {
        match cur.next_pattern_type() {
            MatchPatternType::Regex => {
                let in_host = cur.in_host();
                let limit = cur.current_slice().len();
                proof {
                    super::cursor::lemma_label_bounds(cur@.host);
                }
                match cur.next_pattern() {
                    Some((n, MatchPattern::Regex(_))) => {
                        let len = if in_host {
                            n
                        } else {
                            n + 1
                        };
                        proof {
                            lemma_skip_skip(cur@, len as int, 0);
                        }
                        cur.advance(len);
                    },
                    _ => {
                        return false;
                    },
                }
            },
            _ => {
                proof {
                    lemma_skip_skip(cur@, 1, 0);
                }
                cur.advance(1);
            },
        }
    }
    true
}

/// The cursor view for a lookup or an insertion of a bare host: the host,
/// and the path `/`.
pub open spec fn domain_view(host: Seq<u8>) -> CursorView {
    CursorView { host, uri: seq![SLASH], in_host: host.len() > 0 }
}

impl<V> TrieNode<V> {
    /// Stores `value` under the key that the cursor holds; the entry
    /// reports the host part of the key as its key. A key that is stored
    /// already keeps its entry, and the trie stays as it is.
    pub fn insert(&mut self, cursor: HttpCursor, value: V) -> (r: InsertResult)
        requires
            old(self).wf(),
            valid_key(cursor@.settled()),
        ensures
            final(self).wf(),
            r != InsertResult::Failed,
            (r == InsertResult::Existing) == old(self).stored(
                key_steps(cursor@.settled()),
            ).is_some(),
            r == InsertResult::Existing ==> *final(self) == *old(self),
            r == InsertResult::Inserted ==> (final(self).stored(key_steps(cursor@.settled()))
                matches Some(kv) && kv.0@ == cursor@.host && kv.1 == value),
            r == InsertResult::Inserted ==> forall|p: Seq<Step>|
                p != key_steps(cursor@.settled()) ==> #[trigger] final(self).stored(p) == old(
                    self,
                ).stored(p),
            forall|at: Seq<Step>|
                keeps_order(old(self).alternatives(at), #[trigger] final(self).alternatives(at)),
    {
        let mut cur = cursor;
        cur.settle();
        if self.find(cur).is_some() {
            return InsertResult::Existing;
        }
        let key = bytes_to_vec(cursor.host_slice());
        self.add(cur, key, value);
        InsertResult::Inserted
    }

    /// Removes the entry that is stored under the key that the cursor
    /// holds. The nodes that are left with no entry and no branch are taken
    /// out of the trie, from the node of the key upwards; a node that keeps
    /// a single branch stays as it is.
    pub fn remove_recursive(&mut self, cursor: HttpCursor) -> (r: RemoveResult)
        requires
            old(self).wf(),
            valid_key(cursor@.settled()),
        ensures
            final(self).wf(),
            (r == RemoveResult::Removed) == old(self).stored(
                key_steps(cursor@.settled()),
            ).is_some(),
            r == RemoveResult::NotFound ==> *final(self) == *old(self),
            r == RemoveResult::Removed ==> final(self).stored(
                key_steps(cursor@.settled()),
            ).is_none(),
            r == RemoveResult::Removed ==> forall|p: Seq<Step>|
                p != key_steps(cursor@.settled()) ==> #[trigger] final(self).stored(p) == old(
                    self,
                ).stored(p),
            forall|at: Seq<Step>|
                thinned(old(self).alternatives(at), #[trigger] final(self).alternatives(at)),
    {
        let mut cur = cursor;
        cur.settle();
        if self.find(cur).is_none() {
            return RemoveResult::NotFound;
        }
        self.clear(cur);
        if self.is_bare() {
            let ghost emptied = *self;
            self.prefix = Vec::new();
            proof {
                assert forall|p: Seq<Step>| #[trigger] self.stored(p) == emptied.stored(p) by {
                    self.lemma_bare_stores_nothing(p);
                    emptied.lemma_bare_stores_nothing(p);
                }
                assert forall|at: Seq<Step>| #[trigger] self.alternatives(at)
                    == emptied.alternatives(at) by {
                    self.lemma_bare_stores_nothing(at);
                    emptied.lemma_bare_stores_nothing(at);
                    assert(self.alternatives(at) =~= emptied.alternatives(at));
                }
            }
        }
        RemoveResult::Removed
    }

    /// Whether the node holds no entry and no branch; its run may be left.
    pub open spec fn bare(&self) -> bool {
        &&& self.key_value.is_none()
        &&& self.child_keys@.len() == 0
        &&& self.children@.len() == 0
        &&& self.regexes@.len() == 0
        &&& self.regex_children@.len() == 0
        &&& self.wildcard.is_none()
    }

    /// Whether the node holds no entry and no branch.
    pub fn is_bare(&self) -> (b: bool)
        requires
            self.wf(),
        ensures
            b == self.bare(),
    {
        self.key_value.is_none() && self.child_keys.len() == 0 && self.regexes.len() == 0
            && self.wildcard.is_none()
    }

    /// Nothing is stored, and no regular expression registered, in a node
    /// that holds no entry and no branch.
    pub proof fn lemma_bare_stores_nothing(&self, p: Seq<Step>)
        requires
            self.bare(),
        ensures
            self.stored(p).is_none(),
            self.stored_below(p).is_none(),
            self.alternatives(p).len() == 0,
            self.alternatives_below(p).len() == 0,
    {
        if p.len() > 0 {
            match p[0] {
                Step::Byte(x) => {
                    lemma_first_index_of(self.child_keys@, x);
                },
                Step::Regex(x) => {
                    lemma_first_source(self.regexes@, x);
                },
                Step::Wildcard => {},
            }
        }
        let q = p.skip(self.prefix@.len() as int);
        if q.len() > 0 {
            match q[0] {
                Step::Byte(x) => {
                    lemma_first_index_of(self.child_keys@, x);
                },
                Step::Regex(x) => {
                    lemma_first_source(self.regexes@, x);
                },
                Step::Wildcard => {},
            }
        }
    }

    /// Removes the entry under the key that the cursor holds, which must
    /// be stored, and takes out the nodes below this one that are left with
    /// no entry and no branch.
    pub fn clear(&mut self, cursor: HttpCursor)
        requires
            old(self).wf(),
            cursor@.is_settled(),
            valid_key(cursor@),
            old(self).stored(key_steps(cursor@)).is_some(),
        ensures
            final(self).wf(),
            final(self).prefix == old(self).prefix,
            final(self).stored(key_steps(cursor@)).is_none(),
            forall|p: Seq<Step>|
                p != key_steps(cursor@) ==> #[trigger] final(self).stored(p) == old(self).stored(p),
            forall|at: Seq<Step>|
                thinned(old(self).alternatives(at), #[trigger] final(self).alternatives(at)),
        decreases *old(self), 1nat,
    {
        let ghost path = key_steps(cursor@);
        let ghost before = *self;
        let mut cur = cursor;
        let n = match_key_run(&mut cur, self.prefix.as_slice());
        let ghost rest = key_steps(cur@);
        let ghost run = before.prefix@;
        proof {
            assert(path.skip(n as int) =~= rest);
            if n < run.len() {
                if rest.len() > 0 {
                    assert(path[n as int] == rest[0]);
                }
                assert(!starts_with_bytes(path, run));
            }
            assert(run.take(n as int) =~= run);
            assert(before.stored(path) == before.stored_below(rest));
        }
        if cur.at_end() {
            self.key_value = None;
            proof {
                assert(rest.len() == 0);
                assert forall|q: Seq<Step>| q != rest implies #[trigger] self.stored_below(q)
                    == before.stored_below(q) by {
                    if q.len() == 0 {
                        assert(q =~= rest);
                    }
                }
                assert forall|q: Seq<Step>| #[trigger] self.alternatives_below(q)
                    == before.alternatives_below(q) by {}
            }
        } else {
            proof {
                lemma_key_unfold(cur@);
            }
            match cur.next_pattern_type() {
                MatchPatternType::Prefix(b) => {
                    match position_of(self.child_keys.as_slice(), b) {
                        Some(i) => {
                            proof {
                                lemma_first_index_of(self.child_keys@, b);
                            }
                            self.clear_literal(i, cur);
                        },
                        None => {},
                    }
                },
                MatchPatternType::Regex => {
                    let (source, len) = peek_regex_source(&cur);
                    match source_position(&self.regexes, source) {
                        Some(j) => {
                            proof {
                                lemma_first_source(self.regexes@, source@);
                                lemma_skip_skip(cur@, len as int, 0);
                                assert(rest =~= seq![Step::Regex(source@)] + key_steps(
                                    cur@.skip(len as int),
                                ));
                                assert(rest.skip(1) =~= key_steps(cur@.skip(len as int)));
                            }
                            cur.advance(len);
                            self.clear_regex(j, cur);
                        },
                        None => {},
                    }
                },
                MatchPatternType::SniWildcard => {
                    proof {
                        lemma_skip_skip(cur@, 1, 0);
                        assert(rest =~= seq![Step::Wildcard] + key_steps(cur@.skip(1)));
                        assert(rest.skip(1) =~= key_steps(cur@.skip(1)));
                    }
                    cur.advance(1);
                    if self.wildcard.is_some() {
                        self.clear_wildcard(cur);
                    }
                },
            }
        }
        proof {
            assert forall|at: Seq<Step>|
                thinned(before.alternatives(at), #[trigger] self.alternatives(at)) by {
                if starts_with_bytes(at, run) {
                    let q = at.skip(run.len() as int);
                    assert(thinned(before.alternatives_below(q), self.alternatives_below(q)));
                }
            }
            assert forall|p: Seq<Step>| p != path implies #[trigger] self.stored(p)
                == before.stored(p) by {
                if starts_with_bytes(p, run) {
                    lemma_starts_with_split(p, run);
                    lemma_starts_with_split(path, run);
                    let q = p.skip(run.len() as int);
                    assert(q != rest);
                    assert(self.stored_below(q) == before.stored_below(q));
                }
            }
        }
    }

    /// Carries a removal on into the literal child at index `i`, and takes
    /// the child out if it is left with no entry and no branch.
    pub fn clear_literal(&mut self, i: usize, cursor: HttpCursor)
        requires
            old(self).wf(),
            i < old(self).children@.len(),
            cursor@.is_settled(),
            valid_key(cursor@),
            key_steps(cursor@).len() > 0,
            key_steps(cursor@)[0] == Step::Byte(old(self).child_keys@[i as int]),
            old(self).children@[i as int].stored(key_steps(cursor@)).is_some(),
        ensures
            final(self).wf(),
            final(self).prefix == old(self).prefix,
            final(self).key_value == old(self).key_value,
            final(self).stored_below(key_steps(cursor@)).is_none(),
            forall|q: Seq<Step>|
                q != key_steps(cursor@) ==> #[trigger] final(self).stored_below(q) == old(
                    self,
                ).stored_below(q),
            forall|q: Seq<Step>|
                thinned(
                    old(self).alternatives_below(q),
                    #[trigger] final(self).alternatives_below(q),
                ),
        decreases *old(self), 0nat,
    {
        let ghost rest = key_steps(cursor@);
        let ghost before = *self;
        let ghost b = self.child_keys@[i as int];
        proof {
            lemma_first_index_of(self.child_keys@, b);
        }
        self.children[i].clear(cursor);
        let ghost post = *self;
        proof {
            assert(post.child_keys == before.child_keys);
            assert(post.key_value == before.key_value);
            assert(post.regexes == before.regexes);
            assert(post.regex_children == before.regex_children);
            assert(post.wildcard == before.wildcard);
            assert(post.children@.len() == before.children@.len());
            assert(post.stored_below(rest) == post.children@[i as int].stored(rest));
        }
        if self.children[i].is_bare() {
            let ghost dropped = self.children@[i as int];
            self.child_keys.remove(i);
            self.children.remove(i);
            proof {
                assert forall|k: int| 0 <= k < self.children@.len() implies self.children@[k]
                    == post.children@[if k < i {
                    k
                } else {
                    k + 1
                }] && self.child_keys@[k] == post.child_keys@[if k < i {
                    k
                } else {
                    k + 1
                }] by {}
                assert(self.wf());
            }
        }
        proof {
            let child = post.children@[i as int];
            assert forall|q: Seq<Step>| q.len() > 0 && q[0] == Step::Byte(b) implies #[trigger] self.stored_below(
                q,
            ) == child.stored(q) && self.alternatives_below(q) =~= child.alternatives(q) by {
                if self.child_keys@.len() == post.child_keys@.len() {
                    assert(self.stored_below(q) == post.stored_below(q));
                } else {
                    lemma_first_index_remove(post.child_keys@, i as int, b);
                    child.lemma_bare_stores_nothing(q);
                }
            }
            assert forall|q: Seq<Step>| !(q.len() > 0 && q[0] == Step::Byte(b)) implies #[trigger] self.stored_below(
                q,
            ) == before.stored_below(q) && self.alternatives_below(q)
                == before.alternatives_below(q) by {
                if q.len() > 0 {
                    match q[0] {
                        Step::Byte(x) => {
                            lemma_first_index_of(post.child_keys@, x);
                            if self.child_keys@.len() != post.child_keys@.len() {
                                lemma_first_index_remove(post.child_keys@, i as int, x);
                            }
                            match first_index_of(post.child_keys@, x) {
                                Some(j) => {
                                    assert(j != i);
                                    assert(post.children@[j] == before.children@[j]);
                                    assert(post.stored_below(q) == post.children@[j].stored(q));
                                    assert(before.stored_below(q) == before.children@[j].stored(q));
                                },
                                None => {},
                            }
                        },
                        Step::Regex(x) => {},
                        Step::Wildcard => {},
                    }
                }
            }
            assert forall|q: Seq<Step>| q != rest implies #[trigger] self.stored_below(q)
                == before.stored_below(q) by {
                if q.len() > 0 && q[0] == Step::Byte(b) {
                    assert(before.stored_below(q) == before.children@[i as int].stored(q));
                }
            }
            assert forall|q: Seq<Step>|
                thinned(before.alternatives_below(q), #[trigger] self.alternatives_below(q)) by {
                let touch = self.stored_below(q);
                if q.len() > 0 && q[0] == Step::Byte(b) {
                    assert(before.alternatives_below(q) == before.children@[i as int].alternatives(
                        q,
                    ));
                    assert(thinned(
                        before.children@[i as int].alternatives(q),
                        child.alternatives(q),
                    ));
                    assert(self.alternatives_below(q) == child.alternatives(q));
                } else {
                    assert(self.alternatives_below(q) == before.alternatives_below(q));
                }
            }
        }
    }

    /// Carries a removal on into the child below the regular expression at
    /// index `j`, and takes the expression out with its child if the child is
    /// left with no entry and no branch. The cursor stands behind the
    /// expression.
    pub fn clear_regex(&mut self, j: usize, cursor: HttpCursor)
        requires
            old(self).wf(),
            j < old(self).regex_children@.len(),
            cursor@.is_settled(),
            valid_key(cursor@),
            old(self).regex_children@[j as int].stored(key_steps(cursor@)).is_some(),
        ensures
            final(self).wf(),
            final(self).prefix == old(self).prefix,
            final(self).key_value == old(self).key_value,
            final(self).stored_below(
                seq![Step::Regex(old(self).regexes@[j as int]@)] + key_steps(cursor@),
            ).is_none(),
            forall|q: Seq<Step>|
                q != seq![Step::Regex(old(self).regexes@[j as int]@)] + key_steps(cursor@)
                    ==> #[trigger] final(self).stored_below(q) == old(self).stored_below(q),
            forall|q: Seq<Step>|
                thinned(
                    old(self).alternatives_below(q),
                    #[trigger] final(self).alternatives_below(q),
                ),
        decreases *old(self), 0nat,
    {
        let ghost sub = key_steps(cursor@);
        let ghost source = self.regexes@[j as int]@;
        let ghost step = Step::Regex(source);
        let ghost rest = seq![step] + sub;
        let ghost before = *self;
        proof {
            lemma_first_source(self.regexes@, source);
            assert(rest.skip(1) =~= sub);
        }
        self.regex_children[j].clear(cursor);
        let ghost post = *self;
        proof {
            assert(post.child_keys == before.child_keys);
            assert(post.children == before.children);
            assert(post.key_value == before.key_value);
            assert(post.regexes == before.regexes);
            assert(post.wildcard == before.wildcard);
            assert(post.regex_children@.len() == before.regex_children@.len());
        }
        if self.regex_children[j].is_bare() {
            self.regexes.remove(j);
            self.regex_children.remove(j);
            proof {
                assert forall|k: int| 0 <= k < self.regex_children@.len() implies self.regex_children@[k]
                    == post.regex_children@[if k < j {
                    k
                } else {
                    k + 1
                }] && self.regexes@[k] == post.regexes@[if k < j {
                    k
                } else {
                    k + 1
                }] by {}
                assert(self.wf());
            }
        }
        proof {
            let child = post.regex_children@[j as int];
            let dropped = self.regexes@.len() != post.regexes@.len();
            lemma_first_source_remove(post.regexes@, j as int, source);
            assert forall|q: Seq<Step>| q.len() > 0 && q[0] == step implies #[trigger] self.stored_below(
                q,
            ) == child.stored(q.skip(1)) && self.alternatives_below(q) =~= child.alternatives(
                q.skip(1),
            ) by {
                if dropped {
                    child.lemma_bare_stores_nothing(q.skip(1));
                } else {
                    assert(self.stored_below(q) == post.stored_below(q));
                }
            }
            assert forall|q: Seq<Step>| q.len() > 0 && q[0] != step implies #[trigger] self.stored_below(
                q,
            ) == before.stored_below(q) && self.alternatives_below(q)
                == before.alternatives_below(q) by {
                match q[0] {
                    Step::Regex(x) => {
                        lemma_first_source(post.regexes@, x);
                        if dropped {
                            lemma_first_source_remove(post.regexes@, j as int, x);
                        }
                        match first_source(post.regexes@, x) {
                            Some(k) => {
                                assert(k != j);
                                assert(post.regex_children@[k] == before.regex_children@[k]);
                                assert(post.stored_below(q) == post.regex_children@[k].stored(
                                    q.skip(1),
                                ));
                                assert(before.stored_below(q)
                                    == before.regex_children@[k].stored(q.skip(1)));
                            },
                            None => {},
                        }
                    },
                    Step::Byte(x) => {},
                    Step::Wildcard => {},
                }
            }
            assert forall|q: Seq<Step>| q != rest implies #[trigger] self.stored_below(q)
                == before.stored_below(q) by {
                if q.len() > 0 && q[0] == step {
                    assert(before.stored_below(q) == before.regex_children@[j as int].stored(
                        q.skip(1),
                    ));
                    if q.skip(1) == sub {
                        assert(q =~= seq![q[0]] + q.skip(1));
                    }
                }
            }
            assert forall|q: Seq<Step>|
                thinned(before.alternatives_below(q), #[trigger] self.alternatives_below(q)) by {
                let touch = self.stored_below(q);
                if q.len() == 0 {
                    if dropped {
                        assert(self.alternatives_below(q) == before.alternatives_below(q).remove(
                            j as int,
                        ));
                    } else {
                        assert(self.alternatives_below(q) == before.alternatives_below(q));
                    }
                } else if q[0] == step {
                    assert(before.alternatives_below(q)
                        == before.regex_children@[j as int].alternatives(q.skip(1)));
                    assert(thinned(
                        before.regex_children@[j as int].alternatives(q.skip(1)),
                        child.alternatives(q.skip(1)),
                    ));
                    assert(self.alternatives_below(q) == child.alternatives(q.skip(1)));
                } else {
                    assert(self.alternatives_below(q) == before.alternatives_below(q));
                }
            }
        }
    }

    /// Carries a removal on into the child below the wildcard, and takes
    /// the child out if it is left with no entry and no branch. The cursor
    /// stands behind the wildcard.
    pub fn clear_wildcard(&mut self, cursor: HttpCursor)
        requires
            old(self).wf(),
            old(self).wildcard.is_some(),
            cursor@.is_settled(),
            valid_key(cursor@),
            old(self).wildcard.unwrap().stored(key_steps(cursor@)).is_some(),
        ensures
            final(self).wf(),
            final(self).prefix == old(self).prefix,
            final(self).key_value == old(self).key_value,
            final(self).stored_below(seq![Step::Wildcard] + key_steps(cursor@)).is_none(),
            forall|q: Seq<Step>|
                q != seq![Step::Wildcard] + key_steps(cursor@)
                    ==> #[trigger] final(self).stored_below(q) == old(self).stored_below(q),
            forall|q: Seq<Step>|
                thinned(
                    old(self).alternatives_below(q),
                    #[trigger] final(self).alternatives_below(q),
                ),
        decreases *old(self), 0nat,
    {
        let ghost sub = key_steps(cursor@);
        let ghost rest = seq![Step::Wildcard] + sub;
        let ghost before = *self;
        proof {
            assert(rest.skip(1) =~= sub);
        }
        match self.wildcard.take() {
            Some(mut w) => {
                let ghost child = *w;
                w.clear(cursor);
                let ghost cleared = *w;
                let bare = w.is_bare();
                if !bare {
                    self.wildcard = Some(w);
                }
                proof {
                    assert forall|q: Seq<Step>| q.len() > 0 && q[0] == Step::Wildcard implies #[trigger] self.stored_below(
                        q,
                    ) == cleared.stored(q.skip(1)) && self.alternatives_below(q)
                        =~= cleared.alternatives(q.skip(1)) by {
                        if bare {
                            cleared.lemma_bare_stores_nothing(q.skip(1));
                        }
                    }
                    assert forall|q: Seq<Step>| q != rest implies #[trigger] self.stored_below(q)
                        == before.stored_below(q) by {
                        if q.len() > 0 && q[0] == Step::Wildcard {
                            assert(before.stored_below(q) == child.stored(q.skip(1)));
                            if q.skip(1) == sub {
                                assert(q =~= seq![q[0]] + q.skip(1));
                            }
                        }
                    }
                    assert forall|q: Seq<Step>|
                        thinned(
                            before.alternatives_below(q),
                            #[trigger] self.alternatives_below(q),
                        ) by {
                        let touch = self.stored_below(q);
                        if q.len() > 0 && q[0] == Step::Wildcard {
                            assert(before.alternatives_below(q) == child.alternatives(q.skip(1)));
                            assert(thinned(
                                child.alternatives(q.skip(1)),
                                cleared.alternatives(q.skip(1)),
                            ));
                            assert(self.alternatives_below(q) == cleared.alternatives(q.skip(1)));
                        } else {
                            assert(self.alternatives_below(q) == before.alternatives_below(q));
                        }
                    }
                }
            },
            None => {},
        }
    }
}

impl<V> TrieNode<V> {
    /// Removes the entry that is stored under the host pattern `key`, as
    /// `domain_remove` does.
    pub fn remove(&mut self, key: &Key) -> (r: RemoveResult)
        requires
            old(self).wf(),
        ensures
            final(self).wf(),
            old(self).removed(final(self), key@, r),
    {
        let root = [SLASH];
        let mut cursor = HttpCursor::new(key.as_slice(), root.as_slice());
        cursor.settle();
        assert(root@ =~= seq![SLASH]);
        assert(cursor@ =~= domain_view(key@));
        if !check_key(cursor) {
            return RemoveResult::NotFound;
        }
        self.remove_recursive(cursor)
    }
}

impl<V> DomainLookup<V> for TrieNode<V> {
    open spec fn valid(&self) -> bool {
        self.wf()
    }

    /// A lookup of a bare domain walks the host and then the path `/`.
    open spec fn answer(&self, key: Seq<u8>) -> Option<KeyValue<Key, V>> {
        self.lookup_spec(domain_view(key))
    }

    /// A malformed key fails and an existing one stays, both without any
    /// change. A new key is stored under its path with the key's own bytes
    /// and the value, and every other path keeps what it stored; at every
    /// branch point the regular expressions that were registered keep their
    /// places, and a new one comes last.
    open spec fn inserted(&self, after: &Self, key: Seq<u8>, value: V, r: InsertResult) -> bool {
        let path = key_steps(domain_view(key));
        match r {
            InsertResult::Failed => !valid_key(domain_view(key)) && *after == *self,
            InsertResult::Existing => valid_key(domain_view(key)) && self.stored(path).is_some()
                && *after == *self,
            InsertResult::Inserted => {
                &&& valid_key(domain_view(key))
                &&& self.stored(path).is_none()
                &&& after.stored(path) matches Some(kv) && kv.0@ == key && kv.1 == value
                &&& forall|p: Seq<Step>| p != path ==> #[trigger] after.stored(p) == self.stored(p)
                &&& forall|at: Seq<Step>|
                    keeps_order(self.alternatives(at), #[trigger] after.alternatives(at))
            },
        }
    }

    /// A key that is not stored, or not well formed, is not found, without
    /// any change. A stored key loses its entry, and every other path keeps
    /// what it stored; a branch point loses at most one regular expression,
    /// and those that stay keep their order.
    open spec fn removed(&self, after: &Self, key: Seq<u8>, r: RemoveResult) -> bool {
        let path = key_steps(domain_view(key));
        match r {
            RemoveResult::NotFound => (!valid_key(domain_view(key)) || self.stored(path).is_none())
                && *after == *self,
            RemoveResult::Removed => {
                &&& valid_key(domain_view(key))
                &&& self.stored(path).is_some()
                &&& after.stored(path).is_none()
                &&& forall|p: Seq<Step>| p != path ==> #[trigger] after.stored(p) == self.stored(p)
                &&& forall|at: Seq<Step>|
                    thinned(self.alternatives(at), #[trigger] after.alternatives(at))
            },
        }
    }

    fn domain_insert(&mut self, key: Key, value: V) -> (r: InsertResult) {
        let root = [SLASH];
        let mut cursor = HttpCursor::new(key.as_slice(), root.as_slice());
        cursor.settle();
        assert(root@ =~= seq![SLASH]);
        assert(cursor@ =~= domain_view(key@));
        if !check_key(cursor) {
            return InsertResult::Failed;
        }
        self.insert(cursor, value)
    }

    fn domain_remove(&mut self, key: &Key) -> (r: RemoveResult) {
        self.remove(key)
    }

    fn domain_lookup(&self, key: &[u8]) -> (r: Option<&KeyValue<Key, V>>) {
        let root = [SLASH];
        let cursor = HttpCursor::new(key, root.as_slice());
        assert(root@ =~= seq![SLASH]);
        assert(cursor@.settled() =~= domain_view(key@));
        self.lookup(cursor)
    }
}

} // verus!
