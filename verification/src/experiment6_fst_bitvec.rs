//! Domains packed into six bits for each byte, as keys of a finite-state
//! map that is built once and then only read.

use bitvec::order::Msb0;
use bitvec::vec::BitVec;
use vstd::prelude::*;
use crate::experiment8_trie_cursor::cursor::{
    bytes_equal, common_head, common_tail, common_tail_len, lemma_common_tail_bound,
};
use crate::linear::reversed;
use crate::{DomainLookup, InsertResult, Key, KeyValue, RemoveResult};

verus! {

/// A bit vector of `bitvec`, which keeps its first bit in the highest place
/// of its first byte.
///
/// The vector itself is hidden from the verifier; `bits_of` names the bits
/// it holds, and the three functions below say how each call changes them.
#[verifier::external_body]
pub struct BitBuffer {
    bits: BitVec<u8, Msb0>,
}

/// The most bits that a bit vector can hold.
pub const MAX_BITS: usize = usize::MAX / 8;

/// The bits that a bit vector holds, from its first to its last.
pub uninterp spec fn bits_of(bits: BitBuffer) -> Seq<bool>;

/// Whether `c` is a byte that may stand in a domain pattern: a letter, a
/// digit, or one of `-`, `.`, `_` and `*`.
pub open spec fn is_domain_byte(c: u8) -> bool {
    (65 <= c <= 90) || (97 <= c <= 122) || (48 <= c <= 57) || c == 45 || c == 46 || c == 95 || c
        == 42
}

/// The code of a domain byte: 0 to 25 for the letters, whatever their
/// case, 26 to 35 for the digits, then 37 for `-`, 38 for `.`, 39 for `_`
/// and 40 for `*`.
pub open spec fn code_of(c: u8) -> u8 {
    if 65 <= c <= 90 {
        (c - 65) as u8
    } else if 97 <= c <= 122 {
        (c - 97) as u8
    } else if 48 <= c <= 57 {
        (c - 48 + 26) as u8
    } else if c == 45 {
        37
    } else if c == 46 {
        38
    } else if c == 95 {
        39
    } else {
        40
    }
}

/// The bit of `code` that stands `shift` places above its lowest bit.
pub open spec fn bit_at(code: u8, shift: u8) -> bool {
    (code >> shift) & 1u8 == 1u8
}

/// The six low bits of each code, highest first, one code after the other.
pub open spec fn code_bits(codes: Seq<u8>) -> Seq<bool> {
    Seq::new(codes.len() * 6, |i: int| bit_at(codes[i / 6], (5 - i % 6) as u8))
}

/// The value of the bit at index `i` in the place it takes in its byte,
/// where the first bit of a byte is its highest; 0 behind the last bit.
pub open spec fn bit_value(bits: Seq<bool>, i: int) -> int {
    if 0 <= i < bits.len() && bits[i] {
        if i % 8 == 0 {
            128
        } else if i % 8 == 1 {
            64
        } else if i % 8 == 2 {
            32
        } else if i % 8 == 3 {
            16
        } else if i % 8 == 4 {
            8
        } else if i % 8 == 5 {
            4
        } else if i % 8 == 6 {
            2
        } else {
            1
        }
    } else {
        0
    }
}

/// The byte that the eight bits from index `8 * j` on make up.
pub open spec fn packed_byte(bits: Seq<bool>, j: int) -> u8 {
    (bit_value(bits, 8 * j) + bit_value(bits, 8 * j + 1) + bit_value(bits, 8 * j + 2) + bit_value(
        bits,
        8 * j + 3,
    ) + bit_value(bits, 8 * j + 4) + bit_value(bits, 8 * j + 5) + bit_value(bits, 8 * j + 6)
        + bit_value(bits, 8 * j + 7)) as u8
}

/// The bits packed into bytes, eight to a byte and the first bit highest;
/// the last byte is filled up with zero bits.
pub open spec fn pack_bits(bits: Seq<bool>) -> Seq<u8> {
    Seq::new(((bits.len() + 7) / 8) as nat, |j: int| packed_byte(bits, j))
}

/// Calls `bitvec::vec::BitVec::new`, which gives a bit vector without bits.
#[verifier::external_body]
fn bits_new() -> (bits: BitBuffer)
    ensures
        bits_of(bits).len() == 0,
{
    BitBuffer { bits: BitVec::new() }
}

/// Calls `bitvec::vec::BitVec::push`, which adds one bit at the end and
/// fails where the vector holds `MAX_BITS` bits already.
#[verifier::external_body]
fn bits_push(bits: &mut BitBuffer, value: bool)
    requires
        bits_of(*old(bits)).len() < MAX_BITS,
    ensures
        bits_of(*final(bits)) == bits_of(*old(bits)).push(value),
{
    bits.bits.push(value);
}

/// Calls `bitvec::vec::BitVec::into_vec`, which hands out the bytes that
/// hold the bits: with the order `Msb0` each byte holds eight bits, the
/// first in its highest place. The bits have to fill whole bytes, so that
/// no bit of the last byte is left open.
#[verifier::external_body]
fn bits_into_bytes(bits: BitBuffer) -> (bytes: Vec<u8>)
    requires
        bits_of(bits).len() % 8 == 0,
    ensures
        bytes@ == pack_bits(bits_of(bits)),
{
    bits.bits.into_vec()
}

/// Zero bits behind the last bit, up to the end of its byte, do not change
/// the bytes that the bits make up.
pub proof fn lemma_pack_padding(bits: Seq<bool>, padded: Seq<bool>)
    requires
        bits.len() <= padded.len() < bits.len() + 8,
        padded.len() % 8 == 0,
        forall|i: int| 0 <= i < bits.len() ==> padded[i] == bits[i],
        forall|i: int| bits.len() <= i < padded.len() ==> !padded[i],
    ensures
        pack_bits(padded) == pack_bits(bits),
{
    assert((bits.len() + 7) / 8 == (padded.len() + 7) / 8);
    assert forall|j: int| 0 <= j < pack_bits(bits).len() implies pack_bits(padded)[j]
        == pack_bits(bits)[j] by {
        assert forall|i: int| bit_value(padded, i) == bit_value(bits, i) by {}
    }
    assert(pack_bits(padded) =~= pack_bits(bits));
}

/// The six-bit code of a domain byte.
pub fn ascii_to_6(c: u8) -> (code: u8)
    requires
        is_domain_byte(c),
    ensures
        code == code_of(c),
        code <= 40,
{
    if 65 <= c && c <= 90 {
        c - 65
    } else if 97 <= c && c <= 122 {
        c - 97
    } else if 48 <= c && c <= 57 {
        c - 48 + 26
    } else if c == 45 {
        37
    } else if c == 46 {
        38
    } else if c == 95 {
        39
    } else {
        40
    }
}

/// The codes of the bytes of `data`.
pub open spec fn codes_of(data: Seq<u8>) -> Seq<u8> {
    Seq::new(data.len(), |i: int| code_of(data[i]))
}

/// Packs the six-bit codes of the bytes of `data` into bytes.
pub fn encode_6_bits(data: &[u8]) -> (packed: Vec<u8>)
    requires
        forall|i: int| 0 <= i < data@.len() ==> is_domain_byte(#[trigger] data@[i]),
        data@.len() * 6 + 7 <= MAX_BITS,
    ensures
        packed@ == pack_bits(code_bits(codes_of(data@))),
{
    let mut bits = bits_new();
    let mut i: usize = 0;
    assert(bits_of(bits) =~= code_bits(codes_of(data@.take(0))));
    while i < data.len()
        invariant
            i <= data.len(),
            data@.len() * 6 + 7 <= MAX_BITS,
            forall|j: int| 0 <= j < data@.len() ==> is_domain_byte(#[trigger] data@[j]),
            bits_of(bits) == code_bits(codes_of(data@.take(i as int))),
        decreases data.len() - i,
    {
        let code = ascii_to_6(data[i]);
        let ghost before = bits_of(bits);
        let mut k: u8 = 0;
        while k < 6
            invariant
                k <= 6,
                i < data.len(),
                data@.len() * 6 + 7 <= MAX_BITS,
                before.len() == i * 6,
                bits_of(bits).len() == before.len() + k,
                forall|j: int| 0 <= j < before.len() ==> bits_of(bits)[j] == before[j],
                forall|j: int|
                    before.len() <= j < before.len() + k ==> #[trigger] bits_of(bits)[j] == bit_at(
                        code,
                        (5 - (j - before.len())) as u8,
                    ),
            decreases 6 - k,
        {
            let shift: u8 = 5 - k;
            let ghost so_far = bits_of(bits);
            bits_push(&mut bits, (code >> shift) & 1 == 1);
            k = k + 1;
        }
        proof {
            let next = code_bits(codes_of(data@.take(i + 1)));
            assert(bits_of(bits).len() == next.len());
            assert forall|j: int| 0 <= j < next.len() implies bits_of(bits)[j] == next[j] by {
                let shorter = data@.take(i as int);
                let longer = data@.take(i + 1);
                if j < before.len() {
                    assert(0 <= j / 6 < i);
                    assert(longer[j / 6] == shorter[j / 6]);
                    assert(codes_of(longer)[j / 6] == codes_of(shorter)[j / 6]);
                    assert(before[j] == bit_at(codes_of(shorter)[j / 6], (5 - j % 6) as u8));
                } else {
                    assert(j / 6 == i);
                    assert(j % 6 == j - before.len());
                    assert(longer[i as int] == data@[i as int]);
                    assert(codes_of(longer)[i as int] == code);
                }
            }
            assert(bits_of(bits) =~= next);
        }
        i = i + 1;
    }
    assert(data@.take(data.len() as int) =~= data@);
    let ghost filled = bits_of(bits);
    let count: usize = data.len() * 6;
    let pad: usize = (8 - count % 8) % 8;
    let mut k: usize = 0;
    while k < pad
        invariant
            k <= pad,
            pad < 8,
            filled.len() == count,
            count + 7 <= MAX_BITS,
            bits_of(bits).len() == count + k,
            forall|j: int| 0 <= j < filled.len() ==> bits_of(bits)[j] == filled[j],
            forall|j: int| filled.len() <= j < count + k ==> !bits_of(bits)[j],
        decreases pad - k,
    {
        bits_push(&mut bits, false);
        k = k + 1;
    }
    assert((count + pad) % 8 == 0);
    proof {
        lemma_pack_padding(filled, bits_of(bits));
    }
    bits_into_bytes(bits)
}


#[verifier::external_type_specification]
#[verifier::external_body]
#[verifier::reject_recursive_types(D)]
pub struct ExFstMap<D>(fst::Map<D>);

#[verifier::external_type_specification]
#[verifier::external_body]
#[verifier::reject_recursive_types(W)]
pub struct ExMapBuilder<W>(fst::MapBuilder<W>);

/// The keys and values that a builder has taken so far, in their order.
pub uninterp spec fn builder_pairs(builder: fst::MapBuilder<Vec<u8>>) -> Seq<(Seq<u8>, u64)>;

/// The keys of a finite-state map, each with its value.
pub uninterp spec fn map_pairs(map: fst::Map<Vec<u8>>) -> Map<Seq<u8>, u64>;

/// Whether `x` comes before `y` in the order of byte strings: at the first
/// place where they differ `x` holds the lower byte, or `x` ends there.
pub open spec fn lex_less(x: Seq<u8>, y: Seq<u8>) -> bool {
    let n = common_head(x, y);
    if n >= y.len() {
        false
    } else if n >= x.len() {
        true
    } else {
        x[n as int] < y[n as int]
    }
}

/// Whether `a` comes before `b` when both are read from their ends.
pub open spec fn tail_less(a: Seq<u8>, b: Seq<u8>) -> bool {
    let n = common_tail(a, b);
    if n >= b.len() {
        false
    } else if n >= a.len() {
        true
    } else {
        a[a.len() - 1 - n] < b[b.len() - 1 - n]
    }
}

/// Whether a builder that has taken `pairs` takes `key` next: the key has
/// to come behind the last one taken.
pub open spec fn comes_next(pairs: Seq<(Seq<u8>, u64)>, key: Seq<u8>) -> bool {
    pairs.len() == 0 || lex_less(pairs.last().0, key)
}

/// Whether `map` holds exactly the keys of `pairs`, each with its value.
pub open spec fn holds_pairs(map: Map<Seq<u8>, u64>, pairs: Seq<(Seq<u8>, u64)>) -> bool {
    &&& forall|i: int| 0 <= i < pairs.len() ==> map.contains_key((#[trigger] pairs[i]).0)
    &&& forall|i: int| 0 <= i < pairs.len() ==> map[(#[trigger] pairs[i]).0] == pairs[i].1
    &&& forall|k: Seq<u8>| #[trigger]
        map.contains_key(k) ==> exists|i: int| 0 <= i < pairs.len() && (#[trigger] pairs[i]).0 == k
}

/// Calls `fst::MapBuilder::memory`, which gives a builder that has taken
/// nothing yet.
#[verifier::external_body]
fn builder_new() -> (builder: fst::MapBuilder<Vec<u8>>)
    ensures
        builder_pairs(builder).len() == 0,
{
    fst::MapBuilder::memory()
}

/// Calls `fst::MapBuilder::insert`, which takes the key with its value if
/// the key comes behind the last key taken, and else fails and takes
/// nothing. The answer tells whether the key was taken.
#[verifier::external_body]
fn builder_insert(builder: &mut fst::MapBuilder<Vec<u8>>, key: &[u8], value: u64) -> (taken: bool)
    ensures
        taken == comes_next(builder_pairs(*old(builder)), key@),
        builder_pairs(*final(builder)) == if taken {
            builder_pairs(*old(builder)).push((key@, value))
        } else {
            builder_pairs(*old(builder))
        },
{
    builder.insert(key, value).is_ok()
}

/// Calls `fst::MapBuilder::into_map`, which gives the map of the keys and
/// values that the builder has taken.
#[verifier::external_body]
fn builder_into_map(builder: fst::MapBuilder<Vec<u8>>) -> (map: fst::Map<Vec<u8>>)
    ensures
        holds_pairs(map_pairs(map), builder_pairs(builder)),
{
    builder.into_map()
}

/// Calls `fst::Map::get`, which gives the value of the key if the map holds
/// the key.
#[verifier::external_body]
fn map_get(map: &fst::Map<Vec<u8>>, key: &[u8]) -> (r: Option<u64>)
    ensures
        r == if map_pairs(*map).contains_key(key@) {
            Some(map_pairs(*map)[key@])
        } else {
            None
        },
{
    map.get(key)
}

/// Whether `a` comes before `b` when both are read from their ends.
pub fn reversed_less(a: &[u8], b: &[u8]) -> (less: bool)
    ensures
        less == tail_less(a@, b@),
{
    let n = common_tail_len(a, b);
    proof {
        lemma_common_tail_bound(a@, b@);
    }
    if n >= b.len() {
        false
    } else if n >= a.len() {
        true
    } else {
        a[a.len() - 1 - n] < b[b.len() - 1 - n]
    }
}

/// The order of two keys read from their ends.
pub fn key_order(a: &Vec<u8>, b: &Vec<u8>) -> (r: std::cmp::Ordering)
    ensures
        match r {
            std::cmp::Ordering::Less => tail_less(a@, b@),
            std::cmp::Ordering::Greater => !tail_less(a@, b@) && tail_less(b@, a@),
            std::cmp::Ordering::Equal => !tail_less(a@, b@) && !tail_less(b@, a@),
        },
{
    if reversed_less(a.as_slice(), b.as_slice()) {
        std::cmp::Ordering::Less
    } else if reversed_less(b.as_slice(), a.as_slice()) {
        std::cmp::Ordering::Greater
    } else {
        std::cmp::Ordering::Equal
    }
}

/// Whether `after` is `before` in the order of `tail_less`, with `perm`
/// telling where each entry stood: no entry is lost or made up, none comes
/// before one that is less, and entries that are neither less nor greater
/// keep the order they had.
pub open spec fn sorted_by<V>(before: Seq<(Key, V)>, after: Seq<(Key, V)>, perm: Seq<int>) -> bool {
    &&& perm.len() == before.len()
    &&& after.len() == before.len()
    &&& forall|i: int| 0 <= i < perm.len() ==> 0 <= #[trigger] perm[i] < before.len()
    &&& forall|i: int, j: int| 0 <= i < j < perm.len() ==> perm[i] != perm[j]
    &&& forall|i: int| 0 <= i < after.len() ==> #[trigger] after[i] == before[perm[i]]
    &&& forall|i: int, j: int|
        0 <= i < j < after.len() ==> !tail_less(#[trigger] after[j].0@, #[trigger] after[i].0@)
    &&& forall|i: int, j: int|
        0 <= i < j < after.len() && !tail_less(after[i].0@, after[j].0@) ==> #[trigger] perm[i]
            < #[trigger] perm[j]
}

/// Calls `sort_by` of slices with `key_order` as the order of the keys.
/// That sort keeps every entry, puts them in order, and is stable.
#[verifier::external_body]
fn sort_entries<V>(entries: &mut Vec<(Key, V)>)
    ensures
        exists|perm: Seq<int>| sorted_by(old(entries)@, final(entries)@, perm),
{
    entries.sort_by(|a, b| key_order(&a.0, &b.0));
}

/// Whether every byte of `key` may stand in a domain pattern, and the key
/// is short enough to be packed.
pub open spec fn encodable(key: Seq<u8>) -> bool {
    &&& forall|i: int| 0 <= i < key.len() ==> is_domain_byte(#[trigger] key[i])
    &&& key.len() * 6 + 7 <= MAX_BITS
}

/// The key under which a domain is looked up in the map: its bytes from
/// last to first, as six-bit codes, packed.
pub open spec fn packed_key(key: Seq<u8>) -> Seq<u8> {
    pack_bits(code_bits(codes_of(key.reverse())))
}

/// Whether `key` is encodable.
pub fn is_encodable(key: &[u8]) -> (ok: bool)
    ensures
        ok == encodable(key@),
{
    if key.len() > (MAX_BITS - 7) / 6 {
        return false;
    }
    let mut i: usize = 0;
    while i < key.len()
        invariant
            i <= key.len(),
            forall|j: int| 0 <= j < i ==> is_domain_byte(#[trigger] key@[j]),
        decreases key.len() - i,
    {
        let c = key[i];
        let ok = (65 <= c && c <= 90) || (97 <= c && c <= 122) || (48 <= c && c <= 57) || c == 45
            || c == 46 || c == 95 || c == 42;
        if !ok {
            return false;
        }
        i = i + 1;
    }
    true
}

/// Packs a domain as a key of the map.
pub fn pack_key(key: &[u8]) -> (packed: Vec<u8>)
    requires
        encodable(key@),
    ensures
        packed@ == packed_key(key@),
{
    let backwards = reversed(key);
    assert forall|i: int| 0 <= i < backwards@.len() implies is_domain_byte(
        #[trigger] backwards@[i],
    ) by {
        assert(backwards@[i] == key@[key@.len() - 1 - i]);
    }
    encode_6_bits(backwards.as_slice())
}

/// The indices of the entries, among the first `n` of `sorted`, that the
/// builder takes when they are offered in this order: an entry is taken if
/// its packed key comes behind the packed key of the last entry taken.
pub open spec fn kept<V>(sorted: Seq<(Key, V)>, n: int) -> Seq<int>
    decreases n,
{
    if n <= 0 {
        Seq::empty()
    } else {
        let before = kept(sorted, n - 1);
        if before.len() == 0 || lex_less(
            packed_key(sorted[before.last()].0@),
            packed_key(sorted[n - 1].0@),
        ) {
            before.push(n - 1)
        } else {
            before
        }
    }
}

/// The entries of `sorted` with the indices `taken`.
pub open spec fn kept_entries<V>(sorted: Seq<(Key, V)>, taken: Seq<int>) -> Seq<(Key, V)> {
    Seq::new(taken.len(), |i: int| sorted[taken[i]])
}

/// The packed keys of the entries with the indices `taken`, each with its
/// number in `taken`.
pub open spec fn kept_pairs<V>(sorted: Seq<(Key, V)>, taken: Seq<int>) -> Seq<(Seq<u8>, u64)> {
    Seq::new(taken.len(), |i: int| (packed_key(sorted[taken[i]].0@), i as u64))
}

/// What a machine holds: the entries it was given while it is built, or
/// the finished map.
pub enum MachineMap<V> {
    Building(Vec<(Key, V)>),
    Built(fst::Map<Vec<u8>>),
}

/// A finite-state map from packed domains to the numbers of their entries.
/// It takes entries until `finish` builds the map, and answers lookups
/// from then on.
pub struct Machine<V> {
    pub index: Vec<KeyValue<Key, V>>,
    pub map: MachineMap<V>,
}

impl<V> Machine<V> {
    /// Whether every entry given so far has an encodable key.
    pub open spec fn all_encodable(&self) -> bool {
        match self.map {
            MachineMap::Building(entries) => forall|i: int|
                0 <= i < entries@.len() ==> encodable((#[trigger] entries@[i]).0@),
            MachineMap::Built(_) => true,
        }
    }

    /// The number that the finished map holds for the domain `key`.
    pub open spec fn number_of(&self, key: Seq<u8>) -> Option<u64> {
        match self.map {
            MachineMap::Built(map) => if encodable(key) && map_pairs(map).contains_key(
                packed_key(key),
            ) {
                Some(map_pairs(map)[packed_key(key)])
            } else {
                None
            },
            MachineMap::Building(_) => None,
        }
    }

    /// A machine without entries, still to be built.
    pub fn new() -> (machine: Machine<V>)
        ensures
            machine.index@.len() == 0,
            machine.map matches MachineMap::Building(entries) && entries@.len() == 0,
    {
        Machine { index: Vec::new(), map: MachineMap::Building(Vec::new()) }
    }

    /// Builds the map from the entries given so far. The entries are put in
    /// the order of their keys read from the end, and offered to the builder
    /// in that order; those it takes make up the index, and the map holds
    /// the packed key of each with its number in the index.
    pub fn finish(&mut self)
        requires
            old(self).map is Building,
            old(self).all_encodable(),
            old(self).index@.len() == 0,
        ensures
            final(self).map is Built,
            exists|sorted: Seq<(Key, V)>, perm: Seq<int>|
                sorted_by(old(self).map->Building_0@, sorted, perm) && final(self).index@
                    == kept_entries(sorted, kept(sorted, sorted.len() as int)) && holds_pairs(
                    map_pairs(final(self).map->Built_0),
                    kept_pairs(sorted, kept(sorted, sorted.len() as int)),
                ),
    {
        let mut state = MachineMap::Building(Vec::new());
        std::mem::swap(&mut self.map, &mut state);
        match state {
            MachineMap::Building(entries) => {
                let ghost given = entries@;
                let mut entries = entries;
                sort_entries(&mut entries);
                let ghost sorted = entries@;
                let ghost perm = choose|perm: Seq<int>| sorted_by(given, sorted, perm);
                proof {
                    assert forall|i: int| 0 <= i < sorted.len() implies encodable(
                        (#[trigger] sorted[i]).0@,
                    ) by {
                        assert(sorted[i] == given[perm[i]]);
                    }
                }
                let count = entries.len();
                let mut builder = builder_new();
                let mut number: u64 = 0;
                proof {
                    assert(self.index@ =~= kept_entries(sorted, kept(sorted, 0)));
                    assert(builder_pairs(builder) =~= kept_pairs(sorted, kept(sorted, 0)));
                }
                for entry in it: entries.into_iter()
                    invariant
                        it.seq() == sorted,
                        sorted.len() == count,
                        forall|i: int| 0 <= i < sorted.len() ==> encodable((#[trigger] sorted[i]).0@),
                        number == self.index@.len(),
                        number <= it.index(),
                        self.index@ == kept_entries(sorted, kept(sorted, it.index() as int)),
                        builder_pairs(builder) == kept_pairs(
                            sorted,
                            kept(sorted, it.index() as int),
                        ),
                        forall|j: int|
                            0 <= j < kept(sorted, it.index() as int).len() ==> 0 <= #[trigger] kept(
                                sorted,
                                it.index() as int,
                            )[j] < it.index(),
                {
                    let ghost n = it.index() as int;
                    let ghost taken = kept(sorted, n);
                    assert(entry == sorted[n]);
                    let packed = pack_key(entry.0.as_slice());
                    proof {
                        if taken.len() > 0 {
                            assert(builder_pairs(builder).last().0 == packed_key(
                                sorted[taken.last()].0@,
                            ));
                        }
                    }
                    if builder_insert(&mut builder, packed.as_slice(), number) {
                        self.index.push(entry);
                        number = number + 1;
                        proof {
                            let grown = kept(sorted, n + 1);
                            assert(grown == taken.push(n));
                            assert(self.index@ =~= kept_entries(sorted, grown));
                            assert(builder_pairs(builder) =~= kept_pairs(sorted, grown));
                        }
                    } else {
                        proof {
                            assert(kept(sorted, n + 1) == taken);
                        }
                    }
                }
                self.map = MachineMap::Built(builder_into_map(builder));
                proof {
                    assert(sorted_by(given, sorted, perm));
                }
            },
            MachineMap::Built(map) => {
                self.map = MachineMap::Built(map);
            },
        }
    }

    /// The number that the finished map holds for the domain `key`; `None`
    /// while the machine is still being built.
    pub fn lookup(&self, key: &[u8]) -> (r: Option<u64>)
        ensures
            r == self.number_of(key@),
    {
        match &self.map {
            MachineMap::Built(map) => {
                if !is_encodable(key) {
                    return None;
                }
                let packed = pack_key(key);
                map_get(map, packed.as_slice())
            },
            MachineMap::Building(_) => None,
        }
    }
}


/// The index of the first entry from `from` on whose key is `key`.
pub open spec fn first_key<V>(entries: Seq<(Key, V)>, key: Seq<u8>, from: int) -> Option<int>
    decreases entries.len() - from,
{
    if from < 0 || from >= entries.len() {
        None
    } else if entries[from].0@ == key {
        Some(from)
    } else {
        first_key(entries, key, from + 1)
    }
}

/// The index of the first entry whose key is `key`.
pub fn find_key<V>(entries: &Vec<(Key, V)>, key: &[u8]) -> (r: Option<usize>)
    ensures
        match r {
            Some(i) => first_key(entries@, key@, 0) == Some(i as int) && i < entries@.len(),
            None => first_key(entries@, key@, 0).is_none(),
        },
{
    let mut i: usize = 0;
    while i < entries.len()
        invariant
            i <= entries.len(),
            first_key(entries@, key@, 0) == first_key(entries@, key@, i as int),
        decreases entries.len() - i,
    {
        if bytes_equal(entries[i].0.as_slice(), key) {
            return Some(i);
        }
        i = i + 1;
    }
    None
}

impl<V> DomainLookup<V> for Machine<V> {
    /// A machine has no invariant.
    open spec fn valid(&self) -> bool {
        true
    }

    /// A domain is answered with the entry whose number the map holds for
    /// it; while the machine is being built, with nothing.
    open spec fn answer(&self, key: Seq<u8>) -> Option<KeyValue<Key, V>> {
        match self.number_of(key) {
            Some(n) => if n < self.index@.len() {
                Some(self.index@[n as int])
            } else {
                None
            },
            None => None,
        }
    }

    /// While the machine is being built, an insertion adds its entry behind
    /// those given before. A finished machine takes no entry: the insertion
    /// fails and changes nothing.
    open spec fn inserted(&self, after: &Self, key: Seq<u8>, value: V, r: InsertResult) -> bool {
        match self.map {
            MachineMap::Building(entries) => {
                &&& r == InsertResult::Inserted
                &&& after.index == self.index
                &&& after.map matches MachineMap::Building(more) && more@.len() == entries@.len() + 1
                    && more@.take(entries@.len() as int) == entries@ && more@.last().0@ == key
                    && more@.last().1 == value
            },
            MachineMap::Built(_) => r == InsertResult::Failed && *after == *self,
        }
    }

    /// While the machine is being built, a removal takes out the first
    /// entry that was given for the key. A finished machine gives no entry
    /// back: the key is not found and nothing changes.
    open spec fn removed(&self, after: &Self, key: Seq<u8>, r: RemoveResult) -> bool {
        match self.map {
            MachineMap::Building(entries) => match first_key(entries@, key, 0) {
                Some(i) => {
                    &&& r == RemoveResult::Removed
                    &&& after.index == self.index
                    &&& after.map matches MachineMap::Building(fewer) && fewer@ == entries@.remove(i)
                },
                None => r == RemoveResult::NotFound && *after == *self,
            },
            MachineMap::Built(_) => r == RemoveResult::NotFound && *after == *self,
        }
    }

    fn domain_insert(&mut self, key: Key, value: V) -> (r: InsertResult) {
        match &mut self.map {
            MachineMap::Building(entries) => {
                let ghost before = entries@;
                entries.push((key, value));
                assert(entries@.take(before.len() as int) =~= before);
                InsertResult::Inserted
            },
            MachineMap::Built(_) => InsertResult::Failed,
        }
    }

    fn domain_remove(&mut self, key: &Key) -> (r: RemoveResult) {
        let found = match &self.map {
            MachineMap::Building(entries) => find_key(entries, key.as_slice()),
            MachineMap::Built(_) => None,
        };
        match found {
            Some(i) => {
                match &mut self.map {
                    MachineMap::Building(entries) => {
                        entries.remove(i);
                    },
                    MachineMap::Built(_) => {},
                }
                RemoveResult::Removed
            },
            None => RemoveResult::NotFound,
        }
    }

    fn domain_lookup(&self, key: &[u8]) -> (r: Option<&KeyValue<Key, V>>) {
        match self.lookup(key) {
            Some(n) => {
                if n < self.index.len() as u64 {
                    Some(&self.index[n as usize])
                } else {
                    None
                }
            },
            None => None,
        }
    }
}

} // verus!
