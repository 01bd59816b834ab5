//! Cursors over a host name and a URL path.

use vstd::prelude::*;
use vstd::slice::slice_subrange;
use vstd::string::StringSliceAdditionalSpecFns;
use crate::matcher::{regex_accepts, regex_compiles, Matcher};

verus! {

/// The byte that separates host labels.
pub const DOT: u8 = 46;

/// The byte that, as a host label, stands for any one label.
pub const STAR: u8 = 42;

/// The byte that delimits a regular expression inside a host pattern.
pub const SLASH: u8 = 47;

/// The byte that opens a regular expression inside a path pattern.
pub const TILDE: u8 = 126;

/// The kind of the pattern that comes next, with its first byte if it is
/// literal.
#[derive(Debug, Clone, Copy, PartialEq, Eq, Structural)]
pub enum MatchPatternType {
    Prefix(u8),
    SniWildcard,
    Regex,
}

/// What a `MatchPattern` stands for: literal bytes, the wildcard, or the
/// source text of a regular expression.
pub enum PatternView {
    Prefix(Seq<u8>),
    SniWildcard,
    Regex(Seq<u8>),
}

/// One unit that a cursor can be matched against.
#[derive(Debug)]
pub enum MatchPattern {
    Prefix(Vec<u8>),
    SniWildcard,
    Regex(Matcher),
}

impl View for MatchPattern {
    type V = PatternView;

    open spec fn view(&self) -> PatternView {
        match self {
            MatchPattern::Prefix(p) => PatternView::Prefix(p@),
            MatchPattern::SniWildcard => PatternView::SniWildcard,
            MatchPattern::Regex(m) => PatternView::Regex(m@),
        }
    }
}

impl Clone for MatchPattern {
    fn clone(&self) -> (copy: Self)
        ensures
            copy@ == self@,
    {
        match self {
            MatchPattern::Prefix(p) => MatchPattern::Prefix(bytes_to_vec(p.as_slice())),
            MatchPattern::SniWildcard => MatchPattern::SniWildcard,
            MatchPattern::Regex(m) => MatchPattern::Regex(m.clone()),
        }
    }
}

impl PartialEq for MatchPattern {
    /// Two patterns are equal when they are of one kind and hold the same
    /// bytes; regular expressions are compared by their source text.
    fn eq(&self, other: &MatchPattern) -> (r: bool) {
        match (self, other) {
            (MatchPattern::Prefix(a), MatchPattern::Prefix(b)) => bytes_equal(
                a.as_slice(),
                b.as_slice(),
            ),
            (MatchPattern::SniWildcard, MatchPattern::SniWildcard) => true,
            (MatchPattern::Regex(a), MatchPattern::Regex(b)) => bytes_equal(
                a.source(),
                b.source(),
            ),
            _ => false,
        }
    }
}

impl vstd::std_specs::cmp::PartialEqSpecImpl for MatchPattern {
    open spec fn obeys_eq_spec() -> bool {
        true
    }

    open spec fn eq_spec(&self, other: &MatchPattern) -> bool {
        self@ == other@
    }
}

/// Whether two slices hold the same bytes.
pub fn bytes_equal(a: &[u8], b: &[u8]) -> (r: bool)
    ensures
        r == (a@ == b@),
{
    if a.len() != b.len() {
        return false;
    }
    let mut i: usize = 0;
    while i < a.len()
        invariant
            a@.len() == b@.len(),
            i <= a.len(),
            forall|j: int| 0 <= j < i ==> a@[j] == b@[j],
        decreases a.len() - i,
    {
        if a[i] != b[i] {
            return false;
        }
        i = i + 1;
    }
    assert(a@ =~= b@);
    true
}

/// The index of the last `.` in `s`, if there is one.
pub open spec fn last_dot(s: Seq<u8>) -> Option<int>
    decreases s.len(),
{
    if s.len() == 0 {
        None
    } else if s.last() == DOT {
        Some(s.len() - 1)
    } else {
        last_dot(s.drop_last())
    }
}

/// `last_dot` finds a dot, and no dot stands after it; it finds none only
/// where there is none.
pub proof fn lemma_last_dot(s: Seq<u8>)
    ensures
        match last_dot(s) {
            Some(i) => 0 <= i < s.len() && s[i] == DOT && forall|j: int|
                i < j < s.len() ==> s[j] != DOT,
            None => forall|j: int| 0 <= j < s.len() ==> s[j] != DOT,
        },
    decreases s.len(),
{
    if s.len() > 0 && s.last() != DOT {
        let rest = s.drop_last();
        lemma_last_dot(rest);
        match last_dot(rest) {
            Some(i) => {
                assert forall|j: int| i < j < s.len() implies s[j] != DOT by {
                    if j < s.len() - 1 {
                        assert(s[j] == rest[j]);
                    }
                }
            },
            None => {
                assert forall|j: int| 0 <= j < s.len() implies s[j] != DOT by {
                    if j < s.len() - 1 {
                        assert(s[j] == rest[j]);
                    }
                }
            },
        }
    }
}

/// Where the last label of `s` starts: after the last dot, or at 0.
pub open spec fn label_start(s: Seq<u8>) -> int {
    match last_dot(s) {
        Some(i) => i + 1,
        None => 0,
    }
}

/// The last label of `s`: what follows its last dot, or all of it.
pub open spec fn last_label(s: Seq<u8>) -> Seq<u8> {
    s.subrange(label_start(s), s.len() as int)
}

/// The last label starts inside the sequence, so it is no longer than it.
pub proof fn lemma_label_bounds(s: Seq<u8>)
    ensures
        0 <= label_start(s) <= s.len(),
        last_label(s).len() == s.len() - label_start(s),
{
    lemma_last_dot(s);
}

/// Whether `b` ends a host pattern that is not literal.
pub open spec fn is_special(b: u8) -> bool {
    b == STAR || b == SLASH
}

/// How many bytes at the end of `s` two sequences share.
pub open spec fn common_tail(a: Seq<u8>, b: Seq<u8>) -> nat
    decreases a.len(),
{
    if a.len() == 0 || b.len() == 0 || a.last() != b.last() {
        0
    } else {
        1 + common_tail(a.drop_last(), b.drop_last())
    }
}

/// How many bytes at the start two sequences share.
pub open spec fn common_head(a: Seq<u8>, b: Seq<u8>) -> nat
    decreases a.len(),
{
    if a.len() == 0 || b.len() == 0 || a.first() != b.first() {
        0
    } else {
        1 + common_head(a.drop_first(), b.drop_first())
    }
}

/// The shorter of two lengths.
pub open spec fn shorter(a: Seq<u8>, b: Seq<u8>) -> nat {
    if a.len() <= b.len() {
        a.len()
    } else {
        b.len()
    }
}

/// How many bytes at the end of `s` are literal: neither `*` nor `/`.
pub open spec fn literal_tail(s: Seq<u8>) -> nat
    decreases s.len(),
{
    if s.len() == 0 || is_special(s.last()) {
        0
    } else {
        1 + literal_tail(s.drop_last())
    }
}

/// How many bytes at the start of `s` come before its first `~`.
pub open spec fn literal_head(s: Seq<u8>) -> nat
    decreases s.len(),
{
    if s.len() == 0 || s.first() == TILDE {
        0
    } else {
        1 + literal_head(s.drop_first())
    }
}

/// The index of the first element of `keys` equal to `b`, if there is one.
pub open spec fn first_index_of(keys: Seq<u8>, b: u8) -> Option<int>
    decreases keys.len(),
{
    if keys.len() == 0 {
        None
    } else if keys.first() == b {
        Some(0)
    } else {
        match first_index_of(keys.drop_first(), b) {
            Some(i) => Some(i + 1),
            None => None,
        }
    }
}

/// `first_index_of` finds `b`, and not after an earlier `b`; it finds none
/// only where there is none.
pub proof fn lemma_first_index_of(keys: Seq<u8>, b: u8)
    ensures
        match first_index_of(keys, b) {
            Some(i) => 0 <= i < keys.len() && keys[i] == b && forall|j: int|
                0 <= j < i ==> keys[j] != b,
            None => forall|j: int| 0 <= j < keys.len() ==> keys[j] != b,
        },
    decreases keys.len(),
{
    if keys.len() > 0 && keys.first() != b {
        let rest = keys.drop_first();
        lemma_first_index_of(rest, b);
        match first_index_of(rest, b) {
            Some(i) => {
                assert forall|j: int| 0 <= j < i + 1 implies keys[j] != b by {
                    if j > 0 {
                        assert(keys[j] == rest[j - 1]);
                    }
                }
            },
            None => {
                assert forall|j: int| 0 <= j < keys.len() implies keys[j] != b by {
                    if j > 0 {
                        assert(keys[j] == rest[j - 1]);
                    }
                }
            },
        }
    }
}

/// The index of the last `.` in `input`, if there is one.
pub fn find_last_dot(input: &[u8]) -> (r: Option<usize>)
    ensures
        match r {
            Some(i) => last_dot(input@) == Some(i as int),
            None => last_dot(input@).is_none(),
        },
{
    let mut i: usize = input.len();
    assert(input@.take(i as int) == input@);
    while i > 0
        invariant
            i <= input.len(),
            last_dot(input@) == last_dot(input@.take(i as int)),
        decreases i,
    {
        assert(input@.take(i as int).last() == input@[i - 1]);
        assert(input@.take(i as int).drop_last() == input@.take(i - 1));
        if input[i - 1] == DOT {
            return Some(i - 1);
        }
        i = i - 1;
    }
    None
}


/// The common tail is no longer than either sequence.
pub proof fn lemma_common_tail_bound(a: Seq<u8>, b: Seq<u8>)
    ensures
        common_tail(a, b) <= a.len(),
        common_tail(a, b) <= b.len(),
    decreases a.len(),
{
    if !(a.len() == 0 || b.len() == 0 || a.last() != b.last()) {
        lemma_common_tail_bound(a.drop_last(), b.drop_last());
    }
}

/// The common head is no longer than either sequence.
pub proof fn lemma_common_head_bound(a: Seq<u8>, b: Seq<u8>)
    ensures
        common_head(a, b) <= a.len(),
        common_head(a, b) <= b.len(),
    decreases a.len(),
{
    if !(a.len() == 0 || b.len() == 0 || a.first() != b.first()) {
        lemma_common_head_bound(a.drop_first(), b.drop_first());
    }
}

/// The literal tail is no longer than the sequence.
pub proof fn lemma_literal_tail_bound(s: Seq<u8>)
    ensures
        literal_tail(s) <= s.len(),
    decreases s.len(),
{
    if !(s.len() == 0 || is_special(s.last())) {
        lemma_literal_tail_bound(s.drop_last());
    }
}

/// The literal head is no longer than the sequence.
pub proof fn lemma_literal_head_bound(s: Seq<u8>)
    ensures
        literal_head(s) <= s.len(),
    decreases s.len(),
{
    if !(s.len() == 0 || s.first() == TILDE) {
        lemma_literal_head_bound(s.drop_first());
    }
}

/// Counts the bytes that `a` and `b` share at their ends.
pub fn common_tail_len(a: &[u8], b: &[u8]) -> (n: usize)
    ensures
        n == common_tail(a@, b@),
{
    let al = a.len();
    let bl = b.len();
    let mut i: usize = 0;
    assert(a@.take(al as int) == a@ && b@.take(bl as int) == b@);
    while i < al && i < bl
        invariant
            al == a@.len(),
            bl == b@.len(),
            i <= al,
            i <= bl,
            common_tail(a@, b@) == i + common_tail(a@.take(al - i), b@.take(bl - i)),
        decreases al - i,
    {
        assert(a@.take(al - i).last() == a@[al - 1 - i]);
        assert(b@.take(bl - i).last() == b@[bl - 1 - i]);
        assert(a@.take(al - i).drop_last() == a@.take(al - i - 1));
        assert(b@.take(bl - i).drop_last() == b@.take(bl - i - 1));
        if a[al - 1 - i] != b[bl - 1 - i] {
            return i;
        }
        i = i + 1;
    }
    i
}

/// Counts the bytes that `a` and `b` share at their starts.
pub fn common_head_len(a: &[u8], b: &[u8]) -> (n: usize)
    ensures
        n == common_head(a@, b@),
{
    let al = a.len();
    let bl = b.len();
    let mut i: usize = 0;
    assert(a@.skip(0) == a@ && b@.skip(0) == b@);
    while i < al && i < bl
        invariant
            al == a@.len(),
            bl == b@.len(),
            i <= al,
            i <= bl,
            common_head(a@, b@) == i + common_head(a@.skip(i as int), b@.skip(i as int)),
        decreases al - i,
    {
        assert(a@.skip(i as int).first() == a@[i as int]);
        assert(b@.skip(i as int).first() == b@[i as int]);
        assert(a@.skip(i as int).drop_first() == a@.skip(i + 1));
        assert(b@.skip(i as int).drop_first() == b@.skip(i + 1));
        if a[i] != b[i] {
            return i;
        }
        i = i + 1;
    }
    i
}

/// Counts the literal bytes at the end of `s`.
pub fn literal_tail_len(s: &[u8]) -> (n: usize)
    ensures
        n == literal_tail(s@),
{
    let sl = s.len();
    let mut i: usize = 0;
    assert(s@.take(sl as int) == s@);
    while i < sl
        invariant
            sl == s@.len(),
            i <= sl,
            literal_tail(s@) == i + literal_tail(s@.take(sl - i)),
        decreases sl - i,
    {
        assert(s@.take(sl - i).last() == s@[sl - 1 - i]);
        assert(s@.take(sl - i).drop_last() == s@.take(sl - i - 1));
        let c = s[sl - 1 - i];
        if c == STAR || c == SLASH {
            return i;
        }
        i = i + 1;
    }
    i
}

/// Counts the bytes of `s` that come before its first `~`.
pub fn literal_head_len(s: &[u8]) -> (n: usize)
    ensures
        n == literal_head(s@),
{
    let sl = s.len();
    let mut i: usize = 0;
    assert(s@.skip(0) == s@);
    while i < sl
        invariant
            sl == s@.len(),
            i <= sl,
            literal_head(s@) == i + literal_head(s@.skip(i as int)),
        decreases sl - i,
    {
        assert(s@.skip(i as int).first() == s@[i as int]);
        assert(s@.skip(i as int).drop_first() == s@.skip(i + 1));
        if s[i] == TILDE {
            return i;
        }
        i = i + 1;
    }
    i
}

/// Copies a slice of bytes into a vector.
pub fn bytes_to_vec(s: &[u8]) -> (v: Vec<u8>)
    ensures
        v@ == s@,
{
    let mut v: Vec<u8> = Vec::new();
    let mut i: usize = 0;
    while i < s.len()
        invariant
            i <= s.len(),
            v@ == s@.take(i as int),
        decreases s.len() - i,
    {
        v.push(s[i]);
        assert(s@.take(i + 1) == s@.take(i as int).push(s@[i as int]));
        i = i + 1;
    }
    assert(s@.take(s.len() as int) == s@);
    v
}

/// The kind of the pattern that ends a non-empty host.
pub open spec fn host_pattern_type(host: Seq<u8>) -> MatchPatternType
    recommends
        host.len() > 0,
{
    let c = host.last();
    if c == STAR {
        MatchPatternType::SniWildcard
    } else if c == SLASH {
        MatchPatternType::Regex
    } else {
        MatchPatternType::Prefix(c)
    }
}

/// Where `host` and `prefix`, compared from their ends, first differ; `None`
/// where the shorter of the two is a tail of the other.
pub open spec fn tail_mismatch(host: Seq<u8>, prefix: Seq<u8>) -> Option<int> {
    let n = common_tail(host, prefix);
    if n < shorter(host, prefix) {
        Some(n as int)
    } else {
        None
    }
}

/// Where `uri` and `prefix`, compared from their starts, first differ;
/// `None` where the shorter of the two is a head of the other.
pub open spec fn head_mismatch(uri: Seq<u8>, prefix: Seq<u8>) -> Option<int> {
    let n = common_head(uri, prefix);
    if n < shorter(uri, prefix) {
        Some(n as int)
    } else {
        None
    }
}

/// The source text of the regular expression that is the last label of
/// `host`, where that label is written between two slashes.
pub open spec fn regex_label_source(host: Seq<u8>) -> Option<Seq<u8>> {
    let label = last_label(host);
    if label.len() >= 2 && label[0] == SLASH && label.last() == SLASH {
        Some(label.subrange(1, label.len() - 1))
    } else {
        None
    }
}

/// The pattern that ends `host`, with the number of bytes it takes up:
/// the wildcard for a final `*`; the regular expression that the last label
/// holds between slashes, where it compiles; else the longest run of literal
/// bytes. `None` for an empty host and for a final `/` that closes no
/// regular expression.
pub open spec fn host_next_pattern(host: Seq<u8>) -> Option<(nat, PatternView)> {
    if host.len() == 0 {
        None
    } else if host.last() == STAR {
        Some((1, PatternView::SniWildcard))
    } else if host.last() == SLASH {
        match regex_label_source(host) {
            Some(source) => if regex_compiles(source) {
                Some((last_label(host).len(), PatternView::Regex(source)))
            } else {
                None
            },
            None => None,
        }
    } else {
        let n = literal_tail(host);
        Some((n, PatternView::Prefix(host.subrange(host.len() - n, host.len() as int))))
    }
}

/// Whether the pattern that a cursor hands out, with its length, is the
/// pattern `s` with its length.
pub open spec fn same_pattern(
    r: Option<(usize, MatchPattern)>,
    s: Option<(nat, PatternView)>,
) -> bool {
    match (r, s) {
        (Some((n, p)), Some((sn, sp))) => n == sn && p@ == sp,
        (None, None) => true,
        _ => false,
    }
}

/// The part of a host name that has not been read yet. Labels are read from
/// the end, so the unread part is a head of the host.
#[derive(Debug, Clone, Copy, PartialEq, Eq)]
pub struct HostIterator<'a> {
    pub host: &'a [u8],
}

impl<'a> HostIterator<'a> {
    pub fn new(host: &'a [u8]) -> (it: Self)
        ensures
            it.host@ == host@,
    {
        HostIterator { host }
    }

    pub fn at_end(&self) -> (b: bool)
        ensures
            b == (self.host@.len() == 0),
    {
        self.host.len() == 0
    }

    pub fn len(&self) -> (n: usize)
        ensures
            n == self.host@.len(),
    {
        self.host.len()
    }

    /// Drops the last `offset` bytes.
    pub fn advance(&mut self, offset: usize)
        requires
            offset <= old(self).host@.len(),
        ensures
            final(self).host@ == old(self).host@.take(old(self).host@.len() - offset),
    {
        let len = self.host.len() - offset;
        self.host = slice_subrange(self.host, 0, len);
    }

    pub fn next_pattern_type(&self) -> (t: MatchPatternType)
        requires
            self.host@.len() > 0,
        ensures
            t == host_pattern_type(self.host@),
    {
        let c = self.host[self.host.len() - 1];
        if c == STAR {
            MatchPatternType::SniWildcard
        } else if c == SLASH {
            MatchPatternType::Regex
        } else {
            MatchPatternType::Prefix(c)
        }
    }

    pub fn is_next_pattern_prefix(&self) -> (b: bool)
        requires
            self.host@.len() > 0,
        ensures
            b == !is_special(self.host@.last()),
    {
        let c = self.host[self.host.len() - 1];
        c != STAR && c != SLASH
    }

    pub fn is_next_pattern_regex(&self) -> (b: bool)
        requires
            self.host@.len() > 0,
        ensures
            b == (self.host@.last() == SLASH),
    {
        self.host[self.host.len() - 1] == SLASH
    }

    pub fn is_next_pattern_wildcard(&self) -> (b: bool)
        requires
            self.host@.len() > 0,
        ensures
            b == (self.host@.last() == STAR),
    {
        self.host[self.host.len() - 1] == STAR
    }

    pub fn next_char(&self) -> (c: u8)
        requires
            self.host@.len() > 0,
        ensures
            c == self.host@.last(),
    {
        self.host[self.host.len() - 1]
    }

    /// Compares the host and `prefix` from their ends and gives the place of
    /// the first difference.
    pub fn match_prefix(&self, prefix: &[u8]) -> (r: Option<usize>)
        ensures
            match r {
                Some(i) => tail_mismatch(self.host@, prefix@) == Some(i as int),
                None => tail_mismatch(self.host@, prefix@).is_none(),
            },
    {
        let n = common_tail_len(self.host, prefix);
        if n < self.host.len() && n < prefix.len() {
            Some(n)
        } else {
            proof {
                lemma_common_tail_bound(self.host@, prefix@);
            }
            None
        }
    }

    /// Like `match_prefix`, and drops the bytes that agreed.
    pub fn match_prefix_position(&mut self, prefix: &[u8]) -> (r: Option<usize>)
        ensures
            match r {
                Some(i) => tail_mismatch(old(self).host@, prefix@) == Some(i as int),
                None => tail_mismatch(old(self).host@, prefix@).is_none(),
            },
            final(self).host@ == old(self).host@.take(
                old(self).host@.len() - common_tail(old(self).host@, prefix@),
            ),
    {
        let n = common_tail_len(self.host, prefix);
        proof {
            lemma_common_tail_bound(self.host@, prefix@);
        }
        let differ = n < self.host.len() && n < prefix.len();
        self.advance(n);
        if differ {
            Some(n)
        } else {
            None
        }
    }

    /// The index of the first of `keys` that equals the last byte of the host.
    pub fn match_next_char(&self, keys: &[u8]) -> (r: Option<usize>)
        ensures
            match r {
                Some(i) => self.host@.len() > 0 && first_index_of(keys@, self.host@.last())
                    == Some(i as int),
                None => self.host@.len() == 0 || first_index_of(keys@, self.host@.last()).is_none(),
            },
    {
        if self.host.len() == 0 {
            return None;
        }
        position_of(keys, self.host[self.host.len() - 1])
    }

    /// Whether what is left of the host is a single label.
    pub fn match_sni_wildcard(&self) -> (b: bool)
        ensures
            b == last_dot(self.host@).is_none(),
    {
        find_last_dot(self.host).is_none()
    }

    /// Tries `r` on the last label and gives that label's length if it
    /// matches.
    pub fn match_regex(&self, r: &Matcher) -> (n: Option<usize>)
        ensures
            match n {
                Some(k) => regex_accepts(r@, last_label(self.host@)) && k == last_label(
                    self.host@,
                ).len(),
                None => !regex_accepts(r@, last_label(self.host@)),
            },
    {
        let start = label_start_of(self.host);
        let label = slice_subrange(self.host, start, self.host.len());
        if r.is_match(label) {
            Some(label.len())
        } else {
            None
        }
    }

    /// The pattern that ends the host, with the number of bytes it takes up.
    pub fn next_pattern(&self) -> (r: Option<(usize, MatchPattern)>)
        ensures
            same_pattern(r, host_next_pattern(self.host@)),
    {
        let len = self.host.len();
        if len == 0 {
            return None;
        }
        let c = self.host[len - 1];
        if c == STAR {
            Some((1, MatchPattern::SniWildcard))
        } else if c == SLASH {
            let start = label_start_of(self.host);
            if len - start >= 2 && self.host[start] == SLASH {
                let source = slice_subrange(self.host, start + 1, len - 1);
                assert(source@ == last_label(self.host@).subrange(
                    1,
                    last_label(self.host@).len() - 1,
                ));
                match Matcher::from_bytes(source) {
                    Some(m) => Some((len - start, MatchPattern::Regex(m))),
                    None => None,
                }
            } else {
                None
            }
        } else {
            let n = literal_tail_len(self.host);
            proof {
                lemma_literal_tail_bound(self.host@);
            }
            let run = bytes_to_vec(slice_subrange(self.host, len - n, len));
            Some((n, MatchPattern::Prefix(run)))
        }
    }
}

/// Where the last label of `s` starts.
pub fn label_start_of(s: &[u8]) -> (start: usize)
    ensures
        start == label_start(s@),
        start <= s@.len(),
{
    match find_last_dot(s) {
        Some(i) => {
            proof {
                lemma_last_dot(s@);
            }
            assert(i < s.len());
            i + 1
        },
        None => 0,
    }
}

/// The index of the first of `keys` that equals `b`.
pub fn position_of(keys: &[u8], b: u8) -> (r: Option<usize>)
    ensures
        match r {
            Some(i) => first_index_of(keys@, b) == Some(i as int),
            None => first_index_of(keys@, b).is_none(),
        },
{
    let mut i: usize = 0;
    assert(keys@.skip(0) == keys@);
    while i < keys.len()
        invariant
            i <= keys.len(),
            first_index_of(keys@, b) == match first_index_of(keys@.skip(i as int), b) {
                Some(j) => Some(j + i),
                None => None,
            },
        decreases keys.len() - i,
    {
        assert(keys@.skip(i as int).first() == keys@[i as int]);
        assert(keys@.skip(i as int).drop_first() == keys@.skip(i + 1));
        if keys[i] == b {
            return Some(i);
        }
        i = i + 1;
    }
    None
}


/// Where a cursor stands: still inside the host, with the whole path ahead,
/// or inside the path.
#[derive(Debug, Clone, Copy)]
pub enum Position<'a> {
    HostUri(HostIterator<'a>, &'a [u8]),
    Uri(&'a [u8]),
}

/// What a cursor has left to read. `in_host` tells whether it still stands
/// in the host; when it does not, `host` is empty.
pub struct CursorView {
    pub host: Seq<u8>,
    pub uri: Seq<u8>,
    pub in_host: bool,
}

impl CursorView {
    /// Nothing is left in the part the cursor stands in.
    pub open spec fn at_end(self) -> bool {
        if self.in_host {
            self.host.len() == 0
        } else {
            self.uri.len() == 0
        }
    }

    /// The part the cursor stands in.
    pub open spec fn current(self) -> Seq<u8> {
        if self.in_host {
            self.host
        } else {
            self.uri
        }
    }

    /// The cursor after `n` bytes of the host were read; it moves on to the
    /// path when that empties the host.
    pub open spec fn drop_host(self, n: int) -> CursorView {
        let host = self.host.take(self.host.len() - n);
        CursorView { host, uri: self.uri, in_host: host.len() > 0 }
    }

    /// The cursor after the whole host and then `n` bytes of the path were
    /// read.
    pub open spec fn drop_uri(self, n: int) -> CursorView {
        CursorView { host: Seq::empty(), uri: self.uri.skip(n), in_host: false }
    }

    /// Whether `prefix` is what comes next: a tail of the host, or a head of
    /// the path.
    pub open spec fn accepts_prefix(self, prefix: Seq<u8>) -> bool {
        if self.in_host {
            common_tail(self.host, prefix) == prefix.len()
        } else {
            common_head(self.uri, prefix) == prefix.len()
        }
    }

    /// The cursor after `n` bytes of the part it stands in were read.
    pub open spec fn drop_current(self, n: int) -> CursorView {
        if self.in_host {
            self.drop_host(n)
        } else {
            self.drop_uri(n)
        }
    }

    /// How many bytes of `prefix` agree with what comes next.
    pub open spec fn common(self, prefix: Seq<u8>) -> nat {
        if self.in_host {
            common_tail(self.host, prefix)
        } else {
            common_head(self.uri, prefix)
        }
    }

    /// Where `prefix` and what comes next first differ.
    pub open spec fn prefix_mismatch(self, prefix: Seq<u8>) -> Option<int> {
        if self.in_host {
            tail_mismatch(self.host, prefix)
        } else {
            head_mismatch(self.uri, prefix)
        }
    }

    /// Whether the wildcard matches: the cursor stands in the host and what
    /// is left of it holds no dot.
    pub open spec fn accepts_wildcard(self) -> bool {
        self.in_host && last_dot(self.host).is_none()
    }

    /// What a regular expression is tried on: the last label of the host, or
    /// the whole rest of the path.
    pub open spec fn regex_subject(self) -> Seq<u8> {
        if self.in_host {
            last_label(self.host)
        } else {
            self.uri
        }
    }

    /// The cursor after a regular expression matched: the last label of the
    /// host is read; inside the path nothing is.
    pub open spec fn after_regex(self) -> CursorView {
        if self.in_host {
            self.drop_host(last_label(self.host).len() as int)
        } else {
            self
        }
    }

    /// How many bytes are left in all.
    pub open spec fn remaining(self) -> nat {
        self.host.len() + self.uri.len()
    }

    /// The cursor after `n` bytes were read, first from the host and then
    /// from the path.
    pub open spec fn skip(self, n: int) -> CursorView {
        if n < self.host.len() {
            CursorView { host: self.host.take(self.host.len() - n), uri: self.uri, in_host: true }
        } else {
            self.drop_uri(n - self.host.len())
        }
    }

    /// Whether a pattern can be asked for: something is left in the part the
    /// cursor stands in.
    pub open spec fn has_next(self) -> bool {
        !self.at_end()
    }

    /// The byte that comes next.
    pub open spec fn next_byte(self) -> u8
        recommends
            self.has_next(),
    {
        if self.in_host {
            self.host.last()
        } else {
            self.uri.first()
        }
    }

    /// The kind of the pattern that comes next.
    pub open spec fn next_type(self) -> MatchPatternType
        recommends
            self.has_next(),
    {
        if self.in_host {
            host_pattern_type(self.host)
        } else if self.uri.first() == TILDE {
            MatchPatternType::Regex
        } else {
            MatchPatternType::Prefix(self.uri.first())
        }
    }

    /// The pattern that comes next, with its length. Inside the path a `~`
    /// opens a regular expression that runs to the end, and the length given
    /// is that of its source; any other byte starts a literal run that ends
    /// before the next `~`.
    pub open spec fn next_pattern(self) -> Option<(nat, PatternView)> {
        if self.in_host {
            host_next_pattern(self.host)
        } else if self.uri.len() == 0 {
            None
        } else if self.uri.first() == TILDE {
            if regex_compiles(self.uri.skip(1)) {
                Some(((self.uri.len() - 1) as nat, PatternView::Regex(self.uri.skip(1))))
            } else {
                None
            }
        } else {
            let n = literal_head(self.uri);
            Some((n, PatternView::Prefix(self.uri.take(n as int))))
        }
    }

    /// Whether the cursor stands in the host exactly when some of the host
    /// is left. Every operation but `new` leaves a cursor so.
    pub open spec fn is_settled(self) -> bool {
        self.in_host == (self.host.len() > 0)
    }

    /// The same data, with the cursor moved on to the path if nothing of
    /// the host is left.
    pub open spec fn settled(self) -> CursorView {
        CursorView { host: self.host, uri: self.uri, in_host: self.host.len() > 0 }
    }

    /// How many bytes of `run`, taken from its start, the cursor yields one
    /// after another.
    pub open spec fn run_len(self, run: Seq<u8>) -> nat
        decreases run.len(),
    {
        if run.len() == 0 || self.at_end() || self.next_byte() != run.first() {
            0
        } else {
            1 + self.skip(1).run_len(run.drop_first())
        }
    }

    /// Whether `pattern` matches what comes next.
    pub open spec fn accepts(self, pattern: PatternView) -> bool {
        match pattern {
            PatternView::Prefix(p) => self.accepts_prefix(p),
            PatternView::SniWildcard => self.accepts_wildcard(),
            PatternView::Regex(source) => regex_accepts(source, self.regex_subject()),
        }
    }

    /// The cursor after `pattern` matched.
    pub open spec fn after(self, pattern: PatternView) -> CursorView {
        match pattern {
            PatternView::Prefix(p) => self.drop_current(p.len() as int),
            PatternView::SniWildcard => self.drop_uri(0),
            PatternView::Regex(_) => self.after_regex(),
        }
    }
}

impl<'a> View for Position<'a> {
    type V = CursorView;

    open spec fn view(&self) -> CursorView {
        match self {
            Position::HostUri(h, uri) => CursorView { host: h.host@, uri: uri@, in_host: true },
            Position::Uri(uri) => CursorView { host: Seq::empty(), uri: uri@, in_host: false },
        }
    }
}

/// A cursor over a host name, read from its end, and then a URL path, read
/// from its start.
#[derive(Debug, Clone, Copy)]
pub struct HttpCursor<'a> {
    pub position: Position<'a>,
}

impl<'a> View for HttpCursor<'a> {
    type V = CursorView;

    open spec fn view(&self) -> CursorView {
        self.position@
    }
}

impl<'a> HttpCursor<'a> {
    pub fn new(host: &'a [u8], uri: &'a [u8]) -> (c: Self)
        ensures
            c@ == (CursorView { host: host@, uri: uri@, in_host: true }),
    {
        HttpCursor { position: Position::HostUri(HostIterator::new(host), uri) }
    }

    pub fn at_end(&self) -> (b: bool)
        ensures
            b == self@.at_end(),
    {
        match self.position {
            Position::HostUri(h, _) => h.at_end(),
            Position::Uri(u) => u.len() == 0,
        }
    }

    pub fn current_slice(&self) -> (s: &'a [u8])
        ensures
            s@ == self@.current(),
    {
        match self.position {
            Position::HostUri(h, _) => h.host,
            Position::Uri(u) => u,
        }
    }

    /// Tries `pattern` on what comes next; reads it where it matches, and
    /// leaves the cursor as it was where it does not.
    pub fn match_pattern(&mut self, pattern: &MatchPattern) -> (b: bool)
        ensures
            b == old(self)@.accepts(pattern@),
            final(self)@ == if b {
                old(self)@.after(pattern@)
            } else {
                old(self)@
            },
    {
        match pattern {
            MatchPattern::Prefix(prefix) => self.match_prefix(prefix.as_slice()),
            MatchPattern::SniWildcard => self.match_sni_wildcard(),
            MatchPattern::Regex(r) => self.match_regex(r),
        }
    }

    /// Reads `prefix` where it comes next; else leaves the cursor as it was.
    pub fn match_prefix(&mut self, prefix: &[u8]) -> (b: bool)
        ensures
            b == old(self)@.accepts_prefix(prefix@),
            final(self)@ == if b {
                old(self)@.drop_current(prefix@.len() as int)
            } else {
                old(self)@
            },
    {
        match self.position {
            Position::HostUri(mut host, uri) => {
                if common_tail_len(host.host, prefix) == prefix.len() {
                    proof {
                        lemma_common_tail_bound(host.host@, prefix@);
                    }
                    host.advance(prefix.len());
                    if !host.at_end() {
                        self.position = Position::HostUri(host, uri);
                    } else {
                        assert(host.host@ =~= Seq::<u8>::empty());
                        self.position = Position::Uri(uri);
                    }
                    true
                } else {
                    false
                }
            },
            Position::Uri(uri) => {
                if common_head_len(uri, prefix) == prefix.len() {
                    proof {
                        lemma_common_head_bound(uri@, prefix@);
                    }
                    self.position = Position::Uri(slice_subrange(uri, prefix.len(), uri.len()));
                    true
                } else {
                    false
                }
            },
        }
    }

    /// Reads as much of `prefix` as comes next, and gives the place where
    /// the two first differ.
    pub fn match_prefix_position(&mut self, prefix: &[u8]) -> (r: Option<usize>)
        ensures
            match r {
                Some(i) => old(self)@.prefix_mismatch(prefix@) == Some(i as int),
                None => old(self)@.prefix_mismatch(prefix@).is_none(),
            },
            final(self)@ == old(self)@.drop_current(old(self)@.common(prefix@) as int),
    {
        match self.position {
            Position::HostUri(mut host, uri) => {
                let r = host.match_prefix_position(prefix);
                if !host.at_end() {
                    self.position = Position::HostUri(host, uri);
                } else {
                    assert(host.host@ =~= Seq::<u8>::empty());
                    self.position = Position::Uri(uri);
                }
                r
            },
            Position::Uri(uri) => {
                let n = common_head_len(uri, prefix);
                proof {
                    lemma_common_head_bound(uri@, prefix@);
                }
                self.position = Position::Uri(slice_subrange(uri, n, uri.len()));
                if n < uri.len() && n < prefix.len() {
                    Some(n)
                } else {
                    None
                }
            },
        }
    }

    /// Reads the rest of the host where it is a single label.
    pub fn match_sni_wildcard(&mut self) -> (b: bool)
        ensures
            b == old(self)@.accepts_wildcard(),
            final(self)@ == if b {
                old(self)@.drop_uri(0)
            } else {
                old(self)@
            },
    {
        match self.position {
            Position::HostUri(host, uri) => {
                if host.match_sni_wildcard() {
                    self.position = Position::Uri(uri);
                    assert(uri@.skip(0) =~= uri@);
                    true
                } else {
                    false
                }
            },
            Position::Uri(_) => false,
        }
    }

    /// Tries `r` on the last label of the host, and reads that label where
    /// it matches; inside the path, tries `r` on the rest of the path and
    /// reads nothing.
    pub fn match_regex(&mut self, r: &Matcher) -> (b: bool)
        ensures
            b == regex_accepts(r@, old(self)@.regex_subject()),
            final(self)@ == if b {
                old(self)@.after_regex()
            } else {
                old(self)@
            },
    {
        match self.position {
            Position::HostUri(mut host, uri) => {
                match host.match_regex(r) {
                    Some(sz) => {
                        proof {
                            lemma_label_bounds(host.host@);
                        }
                        host.advance(sz);
                        if !host.at_end() {
                            self.position = Position::HostUri(host, uri);
                        } else {
                            assert(host.host@ =~= Seq::<u8>::empty());
                            self.position = Position::Uri(uri);
                        }
                        true
                    },
                    None => false,
                }
            },
            Position::Uri(uri) => r.is_match(uri),
        }
    }

    /// Reads `offset` bytes, from the host and then from the path. Where
    /// fewer are left, reads nothing and answers `false`.
    pub fn advance(&mut self, offset: usize) -> (b: bool)
        ensures
            b == (offset <= old(self)@.remaining()),
            final(self)@ == if b {
                old(self)@.skip(offset as int)
            } else {
                old(self)@
            },
    {
        match self.position {
            Position::HostUri(mut host, uri) => {
                let host_len = host.len();
                if offset > host_len {
                    let rest = offset - host_len;
                    if rest > uri.len() {
                        return false;
                    }
                    self.position = Position::Uri(slice_subrange(uri, rest, uri.len()));
                } else if offset == host_len {
                    self.position = Position::Uri(uri);
                    assert(uri@.skip(0) =~= uri@);
                } else {
                    host.advance(offset);
                    self.position = Position::HostUri(host, uri);
                }
            },
            Position::Uri(uri) => {
                if offset > uri.len() {
                    return false;
                }
                self.position = Position::Uri(slice_subrange(uri, offset, uri.len()));
            },
        }
        true
    }

    /// The pattern that comes next, with its length.
    pub fn next_pattern(&self) -> (r: Option<(usize, MatchPattern)>)
        ensures
            same_pattern(r, self@.next_pattern()),
    {
        match self.position {
            Position::HostUri(host, _) => host.next_pattern(),
            Position::Uri(uri) => {
                if uri.len() == 0 {
                    return None;
                }
                if uri[0] == TILDE {
                    let source = slice_subrange(uri, 1, uri.len());
                    match Matcher::from_bytes(source) {
                        Some(m) => Some((uri.len() - 1, MatchPattern::Regex(m))),
                        None => None,
                    }
                } else {
                    let n = literal_head_len(uri);
                    proof {
                        lemma_literal_head_bound(uri@);
                    }
                    let run = bytes_to_vec(slice_subrange(uri, 0, n));
                    Some((n, MatchPattern::Prefix(run)))
                }
            },
        }
    }

    pub fn next_pattern_type(&self) -> (t: MatchPatternType)
        requires
            self@.has_next(),
        ensures
            t == self@.next_type(),
    {
        match self.position {
            Position::HostUri(host, _) => host.next_pattern_type(),
            Position::Uri(uri) => {
                if uri[0] == TILDE {
                    MatchPatternType::Regex
                } else {
                    MatchPatternType::Prefix(uri[0])
                }
            },
        }
    }

    pub fn is_next_pattern_prefix(&self) -> (b: bool)
        requires
            self@.in_host ==> self@.host.len() > 0,
        ensures
            b == (self@.has_next() && self@.next_type() is Prefix),
    {
        match self.position {
            Position::HostUri(host, _) => host.is_next_pattern_prefix(),
            Position::Uri(uri) => {
                if uri.len() == 0 {
                    return false;
                }
                uri[0] != TILDE
            },
        }
    }

    pub fn is_next_pattern_regex(&self) -> (b: bool)
        requires
            self@.in_host ==> self@.host.len() > 0,
        ensures
            b == (self@.has_next() && self@.next_type() is Regex),
    {
        match self.position {
            Position::HostUri(host, _) => host.is_next_pattern_regex(),
            Position::Uri(uri) => {
                if uri.len() == 0 {
                    return false;
                }
                uri[0] == TILDE
            },
        }
    }

    pub fn is_next_pattern_wildcard(&self) -> (b: bool)
        requires
            self@.in_host ==> self@.host.len() > 0,
        ensures
            b == (self@.has_next() && self@.next_type() is SniWildcard),
    {
        match self.position {
            Position::HostUri(host, _) => host.is_next_pattern_wildcard(),
            Position::Uri(_) => false,
        }
    }

    pub fn next_char(&self) -> (c: u8)
        requires
            self@.has_next(),
        ensures
            c == self@.next_byte(),
    {
        match self.position {
            Position::HostUri(host, _) => host.next_char(),
            Position::Uri(uri) => uri[0],
        }
    }

    /// Whether the cursor stands in the host.
    pub fn in_host(&self) -> (b: bool)
        ensures
            b == self@.in_host,
    {
        match self.position {
            Position::HostUri(_, _) => true,
            Position::Uri(_) => false,
        }
    }

    /// What is left of the host.
    pub fn host_slice(&self) -> (s: &'a [u8])
        ensures
            s@ == self@.host,
    {
        match self.position {
            Position::HostUri(host, _) => host.host,
            Position::Uri(uri) => {
                let s = slice_subrange(uri, 0, 0);
                assert(s@ =~= Seq::<u8>::empty());
                s
            },
        }
    }

    /// Moves the cursor on to the path if nothing of the host is left.
    pub fn settle(&mut self)
        ensures
            final(self)@ == old(self)@.settled(),
    {
        match self.position {
            Position::HostUri(host, uri) => {
                if host.at_end() {
                    assert(host.host@ =~= Seq::<u8>::empty());
                    self.position = Position::Uri(uri);
                }
            },
            Position::Uri(_) => {},
        }
    }

    /// Reads the bytes of `run` one after another for as long as they come
    /// next, and gives their number.
    pub fn match_run(&mut self, run: &[u8]) -> (n: usize)
        requires
            old(self)@.is_settled(),
        ensures
            n == old(self)@.run_len(run@),
            n <= run@.len(),
            final(self)@ == old(self)@.skip(n as int),
            final(self)@.is_settled(),
    {
        let mut i: usize = 0;
        assert(run@.skip(0) =~= run@);
        proof {
            lemma_skip_zero(self@);
        }
        while i < run.len()
            invariant
                i <= run.len(),
                self@.is_settled(),
                self@ == old(self)@.skip(i as int),
                i <= old(self)@.remaining(),
                old(self)@.is_settled(),
                old(self)@.run_len(run@) == i + self@.run_len(run@.skip(i as int)),
            decreases run.len() - i,
        {
            assert(run@.skip(i as int).first() == run@[i as int]);
            assert(run@.skip(i as int).drop_first() =~= run@.skip(i + 1));
            if self.at_end() || self.next_char() != run[i] {
                return i;
            }
            proof {
                lemma_skip_skip(old(self)@, i as int, 1);
            }
            self.advance(1);
            i = i + 1;
        }
        i
    }
}

/// Reading nothing leaves a settled cursor as it is.
pub proof fn lemma_skip_zero(c: CursorView)
    requires
        c.is_settled(),
    ensures
        c.skip(0) == c,
{
    assert(c.host.take(c.host.len() as int) =~= c.host);
    assert(c.uri.skip(0) =~= c.uri);
    assert(c.host.len() == 0 ==> c.host =~= Seq::<u8>::empty());
}

/// Reading `a` bytes and then `b` bytes is reading `a + b` bytes.
pub proof fn lemma_skip_skip(c: CursorView, a: int, b: int)
    requires
        0 <= a,
        0 <= b,
        a + b <= c.remaining(),
    ensures
        c.skip(a).skip(b) == c.skip(a + b),
        c.skip(a).remaining() == c.remaining() - a,
        c.skip(a).is_settled(),
{
    let hl = c.host.len() as int;
    if a < hl {
        let h1 = c.host.take(hl - a);
        if b < hl - a {
            assert(h1.take(hl - a - b) =~= c.host.take(hl - a - b));
        } else {
            assert(c.uri.skip(b - (hl - a)) =~= c.uri.skip(a + b - hl));
        }
    } else {
        assert(c.uri.skip(a - hl).skip(b) =~= c.uri.skip(a + b - hl));
    }
}


/// What a list of patterns stands for.
pub open spec fn patterns_view(v: Seq<MatchPattern>) -> Seq<PatternView> {
    Seq::new(v.len(), |i: int| v[i]@)
}

/// The patterns of a host, label by label from its end. A label that is
/// `*` gives the wildcard; a label between two slashes gives the regular
/// expression it holds; any other label gives its bytes, with the dot in
/// front of it. `None` where a label ends in `*` or `/` without being one
/// of these, and where a regular expression does not compile.
pub open spec fn label_patterns(host: Seq<u8>) -> Option<Seq<PatternView>>
    decreases host.len(),
{
    if host.len() == 0 {
        Some(Seq::empty())
    } else {
        let start = label_start(host);
        let label = last_label(host);
        if !(0 <= start <= host.len()) {
            None
        } else if label.len() > 0 && label.last() == STAR {
            if label.len() == 1 {
                match label_patterns(host.take(start)) {
                    Some(rest) => Some(seq![PatternView::SniWildcard] + rest),
                    None => None,
                }
            } else {
                None
            }
        } else if label.len() > 0 && label.last() == SLASH {
            match regex_label_source(host) {
                Some(source) => if regex_compiles(source) {
                    match label_patterns(host.take(start)) {
                        Some(rest) => Some(seq![PatternView::Regex(source)] + rest),
                        None => None,
                    }
                } else {
                    None
                },
                None => None,
            }
        } else if start == 0 {
            Some(seq![PatternView::Prefix(host)])
        } else {
            match label_patterns(host.take(start - 1)) {
                Some(rest) => Some(seq![PatternView::Prefix(host.skip(start - 1))] + rest),
                None => None,
            }
        }
    }
}

/// The patterns of a host followed by the pattern of a path, which is a
/// literal prefix or a regular expression. `None` for an empty host, for a
/// path given both ways, and where the host or the expression is malformed.
pub open spec fn match_patterns(
    host: Seq<u8>,
    uri_prefix: Option<Seq<u8>>,
    uri_regex: Option<Seq<u8>>,
) -> Option<Seq<PatternView>> {
    if host.len() == 0 || (uri_prefix.is_some() && uri_regex.is_some()) {
        None
    } else {
        match label_patterns(host) {
            None => None,
            Some(labels) => match (uri_prefix, uri_regex) {
                (Some(prefix), _) => Some(labels.push(PatternView::Prefix(prefix))),
                (None, Some(source)) => if regex_compiles(source) {
                    Some(labels.push(PatternView::Regex(source)))
                } else {
                    None
                },
                (None, None) => Some(labels),
            },
        }
    }
}

/// Splits a host pattern into the patterns of its labels, from the last
/// label to the first, and adds the pattern of the path.
pub fn make_match_patterns(host: &[u8], uri_prefix: Option<&[u8]>, uri_regex: Option<&str>) -> (r:
    Option<Vec<MatchPattern>>)
    ensures
        match r {
            Some(v) => match_patterns(
                host@,
                match uri_prefix {
                    Some(p) => Some(p@),
                    None => None,
                },
                match uri_regex {
                    Some(s) => Some(s.spec_bytes()),
                    None => None,
                },
            ) == Some(patterns_view(v@)),
            None => match_patterns(
                host@,
                match uri_prefix {
                    Some(p) => Some(p@),
                    None => None,
                },
                match uri_regex {
                    Some(s) => Some(s.spec_bytes()),
                    None => None,
                },
            ).is_none(),
        },
{
    if host.len() == 0 || (uri_prefix.is_some() && uri_regex.is_some()) {
        return None;
    }
    let mut v: Vec<MatchPattern> = Vec::new();
    let mut host_end: usize = host.len();
    assert(host@.take(host_end as int) =~= host@);
    assert(patterns_view(v@) =~= Seq::<PatternView>::empty());
    while host_end > 0
        invariant
            host_end <= host.len(),
            label_patterns(host@) == match label_patterns(host@.take(host_end as int)) {
                Some(rest) => Some(patterns_view(v@) + rest),
                None => None,
            },
        decreases host_end,
    {
        let rest = slice_subrange(host, 0, host_end);
        let start = label_start_of(rest);
        let ghost before = patterns_view(v@);
        proof {
            lemma_label_bounds(rest@);
        }
        let last = if start < host_end {
            rest[host_end - 1]
        } else {
            0
        };
        if start < host_end && last == STAR {
            if host_end - start != 1 {
                return None;
            }
            v.push(MatchPattern::SniWildcard);
            proof {
                assert(patterns_view(v@) =~= before.push(PatternView::SniWildcard));
                assert(rest@.take(start as int) =~= host@.take(start as int));
                match label_patterns(rest@.take(start as int)) {
                    Some(more) => {
                        assert(before + (seq![PatternView::SniWildcard] + more) =~= patterns_view(
                            v@,
                        ) + more);
                    },
                    None => {},
                }
            }
            host_end = start;
        } else if start < host_end && last == SLASH {
            if host_end - start < 2 || rest[start] != SLASH {
                return None;
            }
            let source = slice_subrange(rest, start + 1, host_end - 1);
            assert(source@ =~= last_label(rest@).subrange(1, last_label(rest@).len() - 1));
            match Matcher::from_bytes(source) {
                Some(m) => {
                    let ghost pattern = PatternView::Regex(m@);
                    v.push(MatchPattern::Regex(m));
                    proof {
                        assert(patterns_view(v@) =~= before.push(pattern));
                        assert(rest@.take(start as int) =~= host@.take(start as int));
                        match label_patterns(rest@.take(start as int)) {
                            Some(more) => {
                                assert(before + (seq![pattern] + more) =~= patterns_view(v@) + more);
                            },
                            None => {},
                        }
                    }
                },
                None => {
                    return None;
                },
            }
            host_end = start;
        } else if start == 0 {
            v.push(MatchPattern::Prefix(bytes_to_vec(rest)));
            proof {
                let pattern = PatternView::Prefix(rest@);
                assert(patterns_view(v@) =~= before.push(pattern));
                assert(host@.take(0) =~= Seq::<u8>::empty());
                assert(before + seq![pattern] =~= patterns_view(v@) + Seq::<PatternView>::empty());
            }
            host_end = 0;
        } else {
            let label = slice_subrange(rest, start - 1, host_end);
            v.push(MatchPattern::Prefix(bytes_to_vec(label)));
            proof {
                let pattern = PatternView::Prefix(label@);
                assert(label@ =~= rest@.skip(start - 1));
                assert(patterns_view(v@) =~= before.push(pattern));
                assert(rest@.take(start - 1) =~= host@.take(start - 1));
                match label_patterns(rest@.take(start - 1)) {
                    Some(more) => {
                        assert(before + (seq![pattern] + more) =~= patterns_view(v@) + more);
                    },
                    None => {},
                }
            }
            host_end = start - 1;
        }
    }
    proof {
        assert(patterns_view(v@) + Seq::<PatternView>::empty() =~= patterns_view(v@));
    }
    let ghost labels = patterns_view(v@);
    match uri_prefix {
        Some(prefix) => {
            v.push(MatchPattern::Prefix(bytes_to_vec(prefix)));
            assert(patterns_view(v@) =~= labels.push(PatternView::Prefix(prefix@)));
        },
        None => {
            match uri_regex {
                Some(source) => {
                    match Matcher::new(source) {
                        Some(m) => {
                            let ghost pattern = PatternView::Regex(m@);
                            v.push(MatchPattern::Regex(m));
                            assert(patterns_view(v@) =~= labels.push(pattern));
                        },
                        None => {
                            return None;
                        },
                    }
                },
                None => {},
            }
        },
    }
    Some(v)
}

} // verus!
