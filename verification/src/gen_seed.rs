//! Domains to fill a lookup structure with: a fixed set, and random ones.

use rand::Rng;
use vstd::prelude::*;
use vstd::string::StringSliceAdditionalSpecFns;
use crate::experiment8_trie_cursor::cursor::bytes_to_vec;
use crate::{DomainLookup, InsertResult};

verus! {

/// How many known domains there are.
pub const KNOWN_DOMAINS: usize = 10;

/// The value that every known domain is registered with.
pub const KNOWN_VALUE: u8 = 5;

/// The known domain with number `i`.
pub open spec fn known_domain(i: int) -> Seq<u8> {
    if i == 0 {
        "axofugal.obelis.com".spec_bytes()
    } else if i == 1 {
        "washtucna.obeliskoide.org".spec_bytes()
    } else if i == 2 {
        "co-adjust.walll-fed.net".spec_bytes()
    } else if i == 3 {
        "axonne.coadminnistration.gov".spec_bytes()
    } else if i == 4 {
        "washwomean.coadjuvant.mil".spec_bytes()
    } else if i == 5 {
        "obeliske.coadjuv.io".spec_bytes()
    } else if i == 6 {
        "coadunatione.coadministration.th".spec_bytes()
    } else if i == 7 {
        "axolemma.aaaaxole.ca".spec_bytes()
    } else if i == 8 {
        "washtail.coadeejute.au".spec_bytes()
    } else {
        "axolema.washe-pote.rs".spec_bytes()
    }
}

/// Whether `after` comes from `before` by the insertion of the known
/// domain with number `i`, whatever that insertion answered.
pub open spec fn known_step<T: DomainLookup<u8>>(before: T, after: T, i: int) -> bool {
    exists|r: InsertResult| #[trigger] before.inserted(&after, known_domain(i), KNOWN_VALUE, r)
}

/// Whether `states` is the course of a seeding: it starts with `before` and
/// ends with `after`, and each state comes from the one before it by the
/// insertion of the next known domain.
pub open spec fn seeded<T: DomainLookup<u8>>(before: T, after: T, states: Seq<T>) -> bool {
    &&& states.len() == KNOWN_DOMAINS + 1
    &&& states[0] == before
    &&& states[KNOWN_DOMAINS as int] == after
    &&& forall|i: int|
        0 <= i < KNOWN_DOMAINS ==> #[trigger] known_step(states[i], states[i + 1], i)
}

/// The known domain with number `i`, as a key.
pub fn known_key(i: usize) -> (key: Vec<u8>)
    requires
        i < KNOWN_DOMAINS,
    ensures
        key@ == known_domain(i as int),
{
    let text = if i == 0 {
        "axofugal.obelis.com"
    } else if i == 1 {
        "washtucna.obeliskoide.org"
    } else if i == 2 {
        "co-adjust.walll-fed.net"
    } else if i == 3 {
        "axonne.coadminnistration.gov"
    } else if i == 4 {
        "washwomean.coadjuvant.mil"
    } else if i == 5 {
        "obeliske.coadjuv.io"
    } else if i == 6 {
        "coadunatione.coadministration.th"
    } else if i == 7 {
        "axolemma.aaaaxole.ca"
    } else if i == 8 {
        "washtail.coadeejute.au"
    } else {
        "axolema.washe-pote.rs"
    };
    bytes_to_vec(text.as_bytes())
}

/// Inserts the known domains, one after the other, each with the value 5.
pub fn seed_known_domain<T: DomainLookup<u8>>(root: &mut T)
    requires
        old(root).valid(),
    ensures
        final(root).valid(),
        exists|states: Seq<T>| seeded(*old(root), *final(root), states),
{
    let ghost mut states: Seq<T> = seq![*root];
    let mut i: usize = 0;
    while i < KNOWN_DOMAINS
        invariant
            i <= KNOWN_DOMAINS,
            root.valid(),
            states.len() == i + 1,
            states[0] == *old(root),
            states[i as int] == *root,
            forall|j: int| 0 <= j < i ==> #[trigger] known_step(states[j], states[j + 1], j),
        decreases KNOWN_DOMAINS - i,
    {
        let ghost before = *root;
        let ghost course = states;
        let r = root.domain_insert(known_key(i), KNOWN_VALUE);
        proof {
            states = states.push(*root);
            assert(states[i as int] == before);
            assert(states[i as int].inserted(&states[i + 1], known_domain(i as int), KNOWN_VALUE, r));
            assert(known_step(states[i as int], states[i + 1], i as int));
            assert forall|j: int| 0 <= j < i + 1 implies #[trigger] known_step(
                states[j],
                states[j + 1],
                j,
            ) by {
                if j < i {
                    assert(states[j] == course[j]);
                    assert(states[j + 1] == course[j + 1]);
                }
            }
        }
        i = i + 1;
    }
    assert(seeded(*old(root), *root, states));
}


#[verifier::external_type_specification]
#[verifier::external_body]
pub struct ExXorShiftRng(rand::XorShiftRng);

/// Whether `b` is a digit or a lower-case letter from `a` to `f`.
pub open spec fn is_hex_digit(b: u8) -> bool {
    (48 <= b <= 57) || (97 <= b <= 102)
}

/// Whether `s` is the text of an identifier: 32 hexadecimal digits.
pub open spec fn is_identifier(s: Seq<u8>) -> bool {
    s.len() == 32 && forall|i: int| 0 <= i < 32 ==> is_hex_digit(#[trigger] s[i])
}

/// The bytes of `a`, a dot, the bytes of `b`, a dot, and the bytes of `c`.
pub open spec fn dotted(a: Seq<u8>, b: Seq<u8>, c: Seq<u8>) -> Seq<u8> {
    a + seq![46u8] + b + seq![46u8] + c
}

/// Calls `uuid::Uuid::new_v4` and writes the identifier in its simple form,
/// which is 32 lower-case hexadecimal digits. Which digits they are is left
/// open: each call draws them anew.
#[verifier::external_body]
fn random_identifier() -> (text: Vec<u8>)
    ensures
        is_identifier(text@),
{
    uuid::Uuid::new_v4().simple().to_string().into_bytes()
}

/// Calls `rand::XorShiftRng::new_unseeded`, which gives a generator in a
/// fixed starting state. Nothing is stated of the generator.
#[verifier::external_body]
pub(crate) fn unseeded_generator() -> (rng: rand::XorShiftRng) {
    rand::XorShiftRng::new_unseeded()
}

/// Calls `rand::Rng::gen_range` with the bounds 0 and `n`, which gives a
/// number from 0 up to, and without, `n`, and fails for `n == 0`.
#[verifier::external_body]
fn random_index(rng: &mut rand::XorShiftRng, n: usize) -> (i: usize)
    requires
        n > 0,
    ensures
        i < n,
{
    rng.gen_range(0, n)
}

/// Joins three parts with dots.
pub fn join_dotted(a: &[u8], b: &[u8], c: &[u8]) -> (r: Vec<u8>)
    ensures
        r@ == dotted(a@, b@, c@),
{
    let mut r = bytes_to_vec(a);
    r.push(46u8);
    let mut i: usize = 0;
    while i < b.len()
        invariant
            i <= b.len(),
            r@ == a@ + seq![46u8] + b@.take(i as int),
        decreases b.len() - i,
    {
        r.push(b[i]);
        assert(b@.take(i + 1) =~= b@.take(i as int).push(b@[i as int]));
        i = i + 1;
    }
    assert(b@.take(b.len() as int) =~= b@);
    r.push(46u8);
    let mut j: usize = 0;
    while j < c.len()
        invariant
            j <= c.len(),
            r@ == a@ + seq![46u8] + b@ + seq![46u8] + c@.take(j as int),
        decreases c.len() - j,
    {
        r.push(c[j]);
        assert(c@.take(j + 1) =~= c@.take(j as int).push(c@[j as int]));
        j = j + 1;
    }
    assert(c@.take(c.len() as int) =~= c@);
    r
}

/// A domain of two random identifiers under `top_level_domain`.
pub fn gen_uuid_seed_domain(top_level_domain: &str) -> (r: Vec<u8>)
    ensures
        exists|a: Seq<u8>, b: Seq<u8>|
            is_identifier(a) && is_identifier(b) && r@ == #[trigger] dotted(
                a,
                b,
                top_level_domain.spec_bytes(),
            ),
{
    let sub_domain = random_identifier();
    let domain = random_identifier();
    join_dotted(sub_domain.as_slice(), domain.as_slice(), top_level_domain.as_bytes())
}

/// A domain of two names under `tld`, each picked at random from
/// `domains_list`, which must not be empty.
pub fn gen_text_seed_domain(tld: &str, domains_list: &Vec<&str>, rand: &mut rand::XorShiftRng) -> (r:
    Vec<u8>)
    requires
        domains_list@.len() > 0,
    ensures
        exists|i: int, j: int|
            0 <= i < domains_list@.len() && 0 <= j < domains_list@.len() && r@ == #[trigger] dotted(
                domains_list@[i].spec_bytes(),
                domains_list@[j].spec_bytes(),
                tld.spec_bytes(),
            ),
{
    let i = random_index(rand, domains_list.len());
    let j = random_index(rand, domains_list.len());
    let sub_domain = domains_list[i];
    let domain = domains_list[j];
    join_dotted(sub_domain.as_bytes(), domain.as_bytes(), tld.as_bytes())
}

/// A wildcard pattern for the domains below a random identifier under
/// `top_level_domain`.
pub fn gen_seed_wilcard_domain(top_level_domain: &str) -> (r: Vec<u8>)
    ensures
        exists|a: Seq<u8>|
            is_identifier(a) && r@ == #[trigger] dotted(
                seq![42u8],
                a,
                top_level_domain.spec_bytes(),
            ),
{
    let domain = random_identifier();
    let star = [42u8];
    assert(star@ =~= seq![42u8]);
    join_dotted(star.as_slice(), domain.as_slice(), top_level_domain.as_bytes())
}

/// Whether `after` comes from `before` by an insertion of some key with
/// the value 1 or 2, whatever that insertion answered.
pub open spec fn seed_step<T: DomainLookup<u8>>(before: T, after: T) -> bool {
    exists|key: Seq<u8>, value: u8, r: InsertResult|
        (value == 1 || value == 2) && #[trigger] before.inserted(&after, key, value, r)
}

/// Whether `states` is a course of insertions from `before` to `after`.
pub open spec fn seed_course<T: DomainLookup<u8>>(before: T, after: T, states: Seq<T>) -> bool {
    &&& states.len() > 0
    &&& states[0] == before
    &&& states.last() == after
    &&& forall|i: int| 0 <= i < states.len() - 1 ==> #[trigger] seed_step(states[i], states[i + 1])
}

/// Whether `list` holds `key`.
pub fn holds_key(list: &Vec<Vec<u8>>, key: &[u8]) -> (b: bool)
    ensures
        b == exists|i: int| 0 <= i < list@.len() && (#[trigger] list@[i])@ == key@,
{
    let mut i: usize = 0;
    while i < list.len()
        invariant
            i <= list.len(),
            forall|j: int| 0 <= j < i ==> (#[trigger] list@[j])@ != key@,
        decreases list.len() - i,
    {
        if crate::experiment8_trie_cursor::cursor::bytes_equal(list[i].as_slice(), key) {
            return true;
        }
        i = i + 1;
    }
    false
}

/// Fills `root` with random domains: for each of `tlds`, a third of
/// `nb_elems_seed` times, a domain of two identifiers with the value 1, a
/// domain of two of `domains` with the value 2 unless the same one was
/// drawn before, and a wildcard pattern with the value 2.
pub fn seed_bench_trie<T: DomainLookup<u8>>(
    root: &mut T,
    nb_elems_seed: i32,
    tlds: &Vec<&str>,
    domains: &Vec<&str>,
)
    requires
        old(root).valid(),
        domains@.len() > 0,
    ensures
        final(root).valid(),
        exists|states: Seq<T>| seed_course(*old(root), *final(root), states),
{
    let mut random = unseeded_generator();
    let mut seen: Vec<Vec<u8>> = Vec::new();
    let rounds = nb_elems_seed / 3;
    let ghost mut states: Seq<T> = seq![*root];
    let mut t: usize = 0;
    while t < tlds.len()
        invariant
            t <= tlds.len(),
            domains@.len() > 0,
            root.valid(),
            seed_course(*old(root), *root, states),
        decreases tlds.len() - t,
    {
        let tld = tlds[t];
        let mut n: i32 = 0;
        while n < rounds
            invariant
                domains@.len() > 0,
                root.valid(),
                seed_course(*old(root), *root, states),
            decreases rounds - n,
        {
            let ghost s0 = *root;
            let r1 = root.domain_insert(gen_uuid_seed_domain(tld), 1);
            proof {
                assert(seed_step(s0, *root));
                states = lemma_course_grows(*old(root), s0, *root, states);
            }
            let text_domain = gen_text_seed_domain(tld, domains, &mut random);
            if !holds_key(&seen, text_domain.as_slice()) {
                seen.push(bytes_to_vec(text_domain.as_slice()));
                let ghost s1 = *root;
                let r2 = root.domain_insert(text_domain, 2);
                proof {
                    assert(seed_step(s1, *root));
                    states = lemma_course_grows(*old(root), s1, *root, states);
                }
            }
            let ghost s2 = *root;
            let r3 = root.domain_insert(gen_seed_wilcard_domain(tld), 2);
            proof {
                assert(seed_step(s2, *root));
                states = lemma_course_grows(*old(root), s2, *root, states);
            }
            n = n + 1;
        }
        t = t + 1;
    }
}

/// A course of insertions with one more insertion at its end is a course
/// again.
pub proof fn lemma_course_grows<T: DomainLookup<u8>>(
    start: T,
    before: T,
    after: T,
    states: Seq<T>,
) -> (longer: Seq<T>)
    requires
        seed_course(start, before, states),
        seed_step(before, after),
    ensures
        seed_course(start, after, longer),
{
    let longer = states.push(after);
    assert forall|i: int| 0 <= i < longer.len() - 1 implies #[trigger] seed_step(
        longer[i],
        longer[i + 1],
    ) by {
        if i < states.len() - 1 {
            assert(seed_step(states[i], states[i + 1]));
        }
    }
    longer
}

} // verus!
