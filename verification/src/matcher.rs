//! Regular expressions over bytes, compiled once and matched many times.

use vstd::prelude::*;
use vstd::string::StringSliceAdditionalSpecFns;
use vstd::utf8::{
    decode_utf8, encode_utf8, encode_utf8_decode_utf8, encode_utf8_valid_utf8, valid_utf8,
};

verus! {

#[verifier::external_type_specification]
#[verifier::external_body]
pub struct ExRegex(regex::bytes::Regex);

/// Whether the engine compiles the regular expression written in `text`
/// under its default limits.
pub uninterp spec fn text_compiles(text: Seq<char>) -> bool;

/// Whether the bytes are the UTF-8 text of a regular expression that the
/// engine compiles.
pub open spec fn regex_compiles(source: Seq<u8>) -> bool {
    valid_utf8(source) && text_compiles(decode_utf8(source))
}

/// Whether the regular expression with this source text finds a match
/// anywhere in the haystack.
pub uninterp spec fn regex_accepts(source: Seq<u8>, haystack: Seq<u8>) -> bool;

/// A compiled regular expression together with the text it was compiled from.
///
/// The fields are private, and a value is built only by `compile_text` and
/// copied only by `copy_matcher`, so the engine of a `Matcher` is always the
/// one that its source gives.
#[derive(Debug)]
pub struct Matcher {
    source: Vec<u8>,
    engine: regex::bytes::Regex,
}

impl View for Matcher {
    type V = Seq<u8>;

    closed spec fn view(&self) -> Seq<u8> {
        self.source@
    }
}

/// Calls `std::str::from_utf8`, which gives the bytes as text exactly when
/// they are valid UTF-8.
#[verifier::external_body]
fn utf8_text(bytes: &[u8]) -> (r: Option<&str>)
    ensures
        r.is_some() == valid_utf8(bytes@),
        r matches Some(text) ==> text.spec_bytes() == bytes@,
{
    match std::str::from_utf8(bytes) {
        Ok(text) => Some(text),
        Err(_) => None,
    }
}

/// Calls `regex::bytes::Regex::new`, which compiles the text or fails; which
/// of the two, `text_compiles` names. The value keeps a copy of the text's
/// bytes beside the compiled engine.
#[verifier::external_body]
fn compile_text(text: &str) -> (r: Option<Matcher>)
    ensures
        r.is_some() == text_compiles(text@),
        r matches Some(m) ==> m@ == text.spec_bytes(),
{
    match regex::bytes::Regex::new(text) {
        Ok(engine) => Some(Matcher { source: text.as_bytes().to_vec(), engine }),
        Err(_) => None,
    }
}

/// Compiles the regular expression whose UTF-8 text is `source`.
fn compile(source: &[u8]) -> (r: Option<Matcher>)
    ensures
        r.is_some() == regex_compiles(source@),
        r matches Some(m) ==> m@ == source@,
{
    match utf8_text(source) {
        Some(text) => {
            proof {
                encode_utf8_decode_utf8(text@);
            }
            compile_text(text)
        },
        None => None,
    }
}

/// Calls `regex::bytes::Regex::is_match` on the compiled engine. The engine
/// was compiled from the matcher's source, so the answer is the one that
/// `regex_accepts` names for that source and this haystack.
#[verifier::external_body]
fn engine_is_match(m: &Matcher, haystack: &[u8]) -> (b: bool)
    ensures
        b == regex_accepts(m@, haystack@),
{
    m.engine.is_match(haystack)
}

/// Calls `Clone::clone` of `regex::bytes::Regex` on the compiled engine, and
/// copies the source beside it, so that the new matcher has the same source
/// and the engine that belongs to it.
#[verifier::external_body]
fn copy_matcher(m: &Matcher) -> (copy: Matcher)
    ensures
        copy@ == m@,
{
    Matcher { source: m.source.clone(), engine: m.engine.clone() }
}

impl PartialEq for Matcher {
    /// Two matchers are equal when they were compiled from the same text.
    fn eq(&self, other: &Matcher) -> (r: bool) {
        if self.source.len() != other.source.len() {
            return false;
        }
        let mut i: usize = 0;
        while i < self.source.len()
            invariant
                self.source@.len() == other.source@.len(),
                i <= self.source.len(),
                forall|j: int| 0 <= j < i ==> self.source@[j] == other.source@[j],
            decreases self.source.len() - i,
        {
            if self.source[i] != other.source[i] {
                return false;
            }
            i = i + 1;
        }
        assert(self.source@ =~= other.source@);
        true
    }
}

impl vstd::std_specs::cmp::PartialEqSpecImpl for Matcher {
    open spec fn obeys_eq_spec() -> bool {
        true
    }

    open spec fn eq_spec(&self, other: &Matcher) -> bool {
        self@ == other@
    }
}

impl Clone for Matcher {
    fn clone(&self) -> (copy: Self)
        ensures
            copy@ == self@,
    {
        copy_matcher(self)
    }
}

impl Matcher {
    /// Compiles the regular expression written in `source`.
    pub fn new(source: &str) -> (r: Option<Matcher>)
        ensures
            r.is_some() == regex_compiles(source.spec_bytes()),
            r matches Some(m) ==> m@ == source.spec_bytes(),
    {
        proof {
            encode_utf8_valid_utf8(source@);
            encode_utf8_decode_utf8(source@);
        }
        compile_text(source)
    }

    /// Compiles the regular expression whose UTF-8 text is `source`.
    pub fn from_bytes(source: &[u8]) -> (r: Option<Matcher>)
        ensures
            r.is_some() == regex_compiles(source@),
            r matches Some(m) ==> m@ == source@,
    {
        compile(source)
    }

    /// The text this matcher was compiled from.
    pub fn source(&self) -> (s: &[u8])
        ensures
            s@ == self@,
    {
        self.source.as_slice()
    }

    /// Whether the expression matches anywhere in `haystack`.
    pub fn is_match(&self, haystack: &[u8]) -> (b: bool)
        ensures
            b == regex_accepts(self@, haystack@),
    {
        engine_is_match(self, haystack)
    }
}

} // verus!
