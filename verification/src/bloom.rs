//! Per-partition bloom filters: probabilistic set membership with no false
//! negatives, guarding reads against unnecessary index and disk work.
//!
//! Membership hashing is double hashing over two FNV-1a passes of the key
//! bytes; both passes and every bit operation are verified, so the no-
//! false-negative guarantee is a theorem here, not a convention.

use vstd::prelude::*;
use vstd::arithmetic::div_mod::lemma_fundamental_div_mod;
use vstd::arithmetic::power2::pow2;
use vstd::bytes::{
    lemma_auto_spec_u32_to_from_le_bytes, spec_u32_from_le_bytes, spec_u32_to_le_bytes,
    spec_u64_from_le_bytes, spec_u64_to_le_bytes, u32_from_le_bytes, u32_to_le_bytes,
    u64_from_le_bytes, u64_to_le_bytes,
};
use vstd::utf8::encode_utf8;
use vstd::wrapping::u64_specs;

use crate::error::{PlexError, PlexResult};

verus! {

/// The FNV-1a offset basis, the seed of the first hash pass.
pub const FNV_OFFSET: u64 = 0xcbf2_9ce4_8422_2325;

/// The seed of the second, independent hash pass.
pub const FNV_OFFSET_ALT: u64 = 0x9e37_79b9_7f4a_7c15;

/// The FNV-1a prime.
pub const FNV_PRIME: u64 = 0x0000_0100_0000_01b3;

/// One FNV-1a step: fold one byte into the accumulator.
pub open spec fn spec_fnv_step(h: u64, b: u8) -> u64 {
    u64_specs::wrapping_mul(h ^ (b as u64), FNV_PRIME)
}

/// FNV-1a over a byte sequence, from a given seed.
pub open spec fn spec_fnv1a(bytes: Seq<u8>, acc: u64) -> u64
    decreases bytes.len(),
{
    if bytes.len() == 0 {
        acc
    } else {
        spec_fnv1a(bytes.drop_first(), spec_fnv_step(acc, bytes[0]))
    }
}

/// The first hash of a key: FNV-1a of its UTF-8 bytes.
pub open spec fn spec_hash1(key: Seq<char>) -> u64 {
    spec_fnv1a(encode_utf8(key), FNV_OFFSET)
}

/// The second, independent hash of a key.
pub open spec fn spec_hash2(key: Seq<char>) -> u64 {
    spec_fnv1a(encode_utf8(key), FNV_OFFSET_ALT)
}

/// Double hashing: the i-th probe is `hash1 + i * hash2`, wrapping.
pub open spec fn spec_combined_hash(key: Seq<char>, i: u64) -> u64 {
    u64_specs::wrapping_add(spec_hash1(key), u64_specs::wrapping_mul(i, spec_hash2(key)))
}

/// FNV-1a over a byte slice, from a given seed.
pub(crate) fn fnv1a(bytes: &[u8], seed: u64) -> (h: u64)
    ensures
        h == spec_fnv1a(bytes@, seed),
{
    let mut h: u64 = seed;
    let mut i: usize = 0;
    proof {
        assert(bytes@.skip(0) =~= bytes@);
    }
    while i < bytes.len()
        invariant
            0 <= i <= bytes@.len(),
            spec_fnv1a(bytes@, seed) == spec_fnv1a(bytes@.skip(i as int), h),
        decreases bytes@.len() - i,
    {
        let b = *vstd::slice::slice_index_get(bytes, i);
        proof {
            assert(bytes@.skip(i as int)[0] == bytes@[i as int]);
            assert(bytes@.skip(i as int).drop_first() =~= bytes@.skip(i as int + 1));
        }
        h = (h ^ (b as u64)).wrapping_mul(FNV_PRIME);
        i = i + 1;
    }
    proof {
        assert(bytes@.skip(bytes@.len() as int) =~= Seq::<u8>::empty());
    }
    h
}

/// A bloom filter: a bit array of `size` bits, `hash_functions` probes per
/// element, an element counter for rate estimation, and the target false-
/// positive rate in parts per million.
pub struct BloomFilter {
    pub bit_array: Vec<u8>,
    pub size: usize,
    pub hash_functions: u32,
    pub inserted_elements: u64,
    pub false_positive_ppm: u32,
}

impl BloomFilter {
    /// Well-formed: a non-empty bit array of exactly the bytes its bit
    /// count needs, at least one probe, and a target rate strictly between
    /// zero and one.
    pub open spec fn wf(self) -> bool {
        &&& 1 <= self.size <= 0x7FFF_FFFF
        &&& self.bit_array@.len() == (self.size + 7) / 8
        &&& 1 <= self.hash_functions <= 64
        &&& 0 < self.false_positive_ppm < 1_000_000
    }

    /// Whether bit `i` of the array is set.
    pub open spec fn bit_set(self, i: int) -> bool {
        &&& 0 <= i < self.size
        &&& (self.bit_array@[i / 8] >> ((i % 8) as u8)) & 1u8 == 1u8
    }

    /// The bit probed for `key` by hash pass `i`.
    pub open spec fn spec_index_of(self, key: Seq<char>, i: int) -> int {
        spec_combined_hash(key, i as u64) as int % self.size as int
    }

    /// Whether every probe of `key` hits a set bit.
    pub open spec fn spec_contains(self, key: Seq<char>) -> bool {
        forall|i: int|
            0 <= i < self.hash_functions ==> self.bit_set(#[trigger] self.spec_index_of(key, i))
    }

    /// The shape-defining fields: everything but the bits and the counter.
    pub open spec fn same_shape(self, other: BloomFilter) -> bool {
        &&& self.size == other.size
        &&& self.hash_functions == other.hash_functions
        &&& self.false_positive_ppm == other.false_positive_ppm
        &&& self.bit_array@.len() == other.bit_array@.len()
    }

    /// Sets one bit, leaving every other bit as it was.
    fn set_bit(&mut self, index: usize)
        requires
            old(self).wf(),
            index < old(self).size,
        ensures
            final(self).wf(),
            final(self).same_shape(*old(self)),
            final(self).inserted_elements == old(self).inserted_elements,
            forall|j: int|
                final(self).bit_set(j) == (old(self).bit_set(j) || j == index),
    {
        let byte_index = index / 8;
        let bit_index = index % 8;
        let b = self.bit_array[byte_index];
        let nb = b | (1u8 << (bit_index as u8));
        self.bit_array.set(byte_index, nb);
        proof {
            assert(forall|x: u8, s: u8, t: u8|
                s < 8 && t < 8 ==> ((x | (1u8 << s)) >> t) & 1u8 == (if s == t {
                    1u8
                } else {
                    (x >> t) & 1u8
                })) by (bit_vector);
            assert forall|j: int|
                final(self).bit_set(j) == (old(self).bit_set(j) || j == index) by {
                lemma_fundamental_div_mod(j, 8);
                lemma_fundamental_div_mod(index as int, 8);
            }
        }
    }

    /// Whether one bit is set.
    fn get_bit(&self, index: usize) -> (r: bool)
        requires
            self.wf(),
            index < self.size,
        ensures
            r == self.bit_set(index as int),
    {
        let byte_index = index / 8;
        let bit_index = index % 8;
        (self.bit_array[byte_index] >> (bit_index as u8)) & 1u8 == 1u8
    }

    /// The probe position of hash pass `i` for this element.
    fn index_of(&self, h1: u64, h2: u64, i: u32, ghost_key: Ghost<Seq<char>>) -> (r: usize)
        requires
            self.wf(),
            h1 == spec_hash1(ghost_key@),
            h2 == spec_hash2(ghost_key@),
        ensures
            r == self.spec_index_of(ghost_key@, i as int),
            r < self.size,
    {
        let combined = h1.wrapping_add((i as u64).wrapping_mul(h2));
        proof {
            assert(combined == spec_combined_hash(ghost_key@, i as u64));
        }
        (combined % (self.size as u64)) as usize
    }

    /// Inserts an element: sets each of the `hash_functions` probed bits
    /// and counts the element. Every bit already set stays set, and no bit
    /// outside the element's probes changes.
    pub fn insert(&mut self, element: &str)
        requires
            old(self).wf(),
        ensures
            final(self).wf(),
            final(self).same_shape(*old(self)),
            final(self).spec_contains(element@),
            forall|j: int| old(self).bit_set(j) ==> final(self).bit_set(j),
            forall|j: int|
                final(self).bit_set(j) ==> old(self).bit_set(j) || exists|i: int|
                    0 <= i < old(self).hash_functions && j == old(self).spec_index_of(
                        element@,
                        i,
                    ),
            final(self).inserted_elements == if old(self).inserted_elements < u64::MAX {
                old(self).inserted_elements + 1
            } else {
                u64::MAX as int
            },
    {
        let bytes = element.as_bytes();
        let h1 = fnv1a(bytes, FNV_OFFSET);
        let h2 = fnv1a(bytes, FNV_OFFSET_ALT);
        let k = self.hash_functions;
        let mut i: u32 = 0;
        while i < k
            invariant
                0 <= i <= k,
                self.wf(),
                self.same_shape(*old(self)),
                self.inserted_elements == old(self).inserted_elements,
                self.hash_functions == k,
                h1 == spec_hash1(element@),
                h2 == spec_hash2(element@),
                forall|j: int| old(self).bit_set(j) ==> self.bit_set(j),
                forall|ii: int|
                    0 <= ii < i ==> self.bit_set(#[trigger] old(self).spec_index_of(element@, ii)),
                forall|j: int|
                    self.bit_set(j) ==> old(self).bit_set(j) || exists|ii: int|
                        0 <= ii < i && j == old(self).spec_index_of(element@, ii),
            decreases k - i,
        {
            let idx = self.index_of(h1, h2, i, Ghost(element@));
            proof {
                assert(self.spec_index_of(element@, i as int) == old(self).spec_index_of(
                    element@,
                    i as int,
                ));
            }
            self.set_bit(idx);
            i = i + 1;
        }
        if self.inserted_elements < u64::MAX {
            self.inserted_elements = self.inserted_elements + 1;
        }
        proof {
            assert forall|ii: int|
                0 <= ii < final(self).hash_functions implies final(self).bit_set(
                #[trigger] final(self).spec_index_of(element@, ii),
            ) by {
                assert(final(self).spec_index_of(element@, ii) == old(self).spec_index_of(
                    element@,
                    ii,
                ));
                assert(final(self).bit_set(old(self).spec_index_of(element@, ii)));
            }
        }
    }

    /// Whether the element may be present: true only if all probed bits
    /// are set — any unset probe proves absence.
    pub fn contains(&self, element: &str) -> (r: bool)
        requires
            self.wf(),
        ensures
            r == self.spec_contains(element@),
    {
        let bytes = element.as_bytes();
        let h1 = fnv1a(bytes, FNV_OFFSET);
        let h2 = fnv1a(bytes, FNV_OFFSET_ALT);
        let k = self.hash_functions;
        let mut i: u32 = 0;
        while i < k
            invariant
                0 <= i <= k,
                self.wf(),
                self.hash_functions == k,
                h1 == spec_hash1(element@),
                h2 == spec_hash2(element@),
                forall|ii: int|
                    0 <= ii < i ==> self.bit_set(#[trigger] self.spec_index_of(element@, ii)),
            decreases k - i,
        {
            let idx = self.index_of(h1, h2, i, Ghost(element@));
            if !self.get_bit(idx) {
                return false;
            }
            i = i + 1;
        }
        true
    }

    /// Empties the filter: every bit cleared, the element counter reset.
    pub fn clear(&mut self)
        requires
            old(self).wf(),
        ensures
            final(self).wf(),
            final(self).same_shape(*old(self)),
            final(self).inserted_elements == 0,
            forall|j: int| !final(self).bit_set(j),
    {
        let len = self.bit_array.len();
        self.bit_array = vec![0u8; len];
        self.inserted_elements = 0;
        proof {
            assert(forall|t: u8| t < 8 ==> (0u8 >> t) & 1u8 == 0u8) by (bit_vector);
            assert forall|j: int| !final(self).bit_set(j) by {
                if 0 <= j < final(self).size {
                    lemma_fundamental_div_mod(j, 8);
                }
            }
        }
    }
}

/// The largest expected-element count a filter accepts; it keeps the bit
/// array inside the address space and every sizing product inside a `u64`.
pub const MAX_EXPECTED_ELEMENTS: usize = 0x0400_0000;

/// One million: rates are carried in parts per million.
pub const PPM_SCALE: u64 = 1_000_000;

/// ln(2) in parts per million.
pub const LN2_PPM: u64 = 693_147;

/// ln(2) squared in parts per million.
pub const LN2_SQ_PPM: u64 = 480_453;

/// The floor of the base-2 logarithm.
pub open spec fn spec_log2_floor(x: int) -> int
    decreases x,
{
    if x < 2 {
        0
    } else {
        1 + spec_log2_floor(x / 2)
    }
}

/// `2^(log2 x) <= x < 2^(log2 x + 1)` for positive `x`.
proof fn lemma_log2_floor_bounds(x: int)
    requires
        x >= 1,
    ensures
        0 <= spec_log2_floor(x),
        pow2(spec_log2_floor(x) as nat) <= x < pow2((spec_log2_floor(x) + 1) as nat),
    decreases x,
{
    vstd::arithmetic::power2::lemma_pow2_pos(0);
    if x < 2 {
        vstd::arithmetic::power2::lemma2_to64();
    } else {
        lemma_log2_floor_bounds(x / 2);
        let f = spec_log2_floor(x / 2);
        vstd::arithmetic::power2::lemma_pow2_adds(f as nat, 1);
        vstd::arithmetic::power2::lemma_pow2_adds((f + 1) as nat, 1);
        vstd::arithmetic::power2::lemma2_to64();
        assert(pow2((f + 1) as nat) == 2 * pow2(f as nat));
        assert(pow2((f + 2) as nat) == 2 * pow2((f + 1) as nat));
        assert(x >= 2 * (x / 2));
        assert(x <= 2 * (x / 2) + 1);
    }
}

/// The natural logarithm in micro-units, by linear interpolation between
/// neighbouring powers of two: with `f = log2 x` and `p = 2^f`,
/// `ln x ~= ln 2 * (f + (x - p) / p)`.
pub open spec fn spec_ln_micro(x: int) -> int {
    let f = spec_log2_floor(x);
    let p = pow2(f as nat) as int;
    let frac = (x - p) * 1_000_000 / p;
    (f * 1_000_000 + frac) * 693_147 / 1_000_000
}

/// Computes `spec_ln_micro`.
fn ln_micro(x: u64) -> (r: u64)
    requires
        1 <= x <= 1_000_000,
    ensures
        r == spec_ln_micro(x as int),
        r <= 14_000_000,
{
    let mut v: u64 = x;
    let mut f: u64 = 0;
    let mut p: u64 = 1;
    proof {
        vstd::arithmetic::power2::lemma2_to64();
    }
    while v >= 2
        invariant
            1 <= x <= 1_000_000,
            v >= 1,
            p == pow2(f as nat),
            p <= x,
            spec_log2_floor(x as int) == f + spec_log2_floor(v as int),
            v == x as int / p as int,
        decreases v,
    {
        proof {
            vstd::arithmetic::power2::lemma2_to64();
            vstd::arithmetic::power2::lemma_pow2_adds(f as nat, 1);
            if f >= 20 {
                vstd::arithmetic::power2::lemma_pow2_strictly_increases(20, f as nat);
                assert(false);
            }
            vstd::arithmetic::div_mod::lemma_div_denominator(x as int, p as int, 2);
            assert(2 * p <= x) by {
                lemma_fundamental_div_mod(x as int, p as int);
                vstd::arithmetic::div_mod::lemma_mod_bound(x as int, p as int);
                assert(p * (x as int / p as int) >= p * 2) by (nonlinear_arith)
                    requires
                        p >= 1,
                        x as int / p as int >= 2,
                ;
            }
        }
        v = v / 2;
        f = f + 1;
        p = p * 2;
    }
    proof {
        if f >= 20 {
            vstd::arithmetic::power2::lemma_pow2_strictly_increases(20, f as nat);
            assert(false);
        }
        lemma_log2_floor_bounds(x as int);
        assert(spec_log2_floor(x as int) == f);
        assert(pow2(f as nat) <= x);
    }
    let frac: u64 = (x - p) * 1_000_000 / p;
    proof {
        assert(x - p < p) by {
            vstd::arithmetic::power2::lemma_pow2_adds(f as nat, 1);
            assert((x as int) < pow2((f + 1) as nat));
        }
        assert(frac < 1_000_000) by {
            assert((x - p) * 1_000_000 < p * 1_000_000) by (nonlinear_arith)
                requires
                    x - p < p,
                    0 <= x - p,
                    p >= 1,
            ;
            vstd::arithmetic::div_mod::lemma_multiply_divide_lt(
                (x - p) * 1_000_000,
                p as int,
                1_000_000,
            );
        }
    }
    (f * 1_000_000 + frac) * 693_147 / 1_000_000
}

/// The optimal bit count `m = -n ln p / (ln 2)^2`, carried out in
/// micro-units and clamped to a sane range.
pub open spec fn spec_bloom_bits(n: int, ppm: int) -> int {
    let a = spec_ln_micro(1_000_000);
    let b = spec_ln_micro(ppm);
    let l = if a < b {
        0
    } else {
        a - b
    };
    let m = n * l / 480_453;
    if m < 8 {
        8
    } else if m > 0x7FFF_FFFF {
        0x7FFF_FFFF
    } else {
        m
    }
}

/// The optimal probe count `k = ceil(m / n * ln 2)`, clamped to `1..=64`.
pub open spec fn spec_bloom_hashes(m: int, n: int) -> int {
    let k = (m * 693_147 + n * 1_000_000 - 1) / (n * 1_000_000);
    if k < 1 {
        1
    } else if k > 64 {
        64
    } else {
        k
    }
}

/// Computes `spec_bloom_bits`.
fn optimal_size(expected_elements: usize, false_positive_ppm: u32) -> (r: usize)
    requires
        1 <= expected_elements <= MAX_EXPECTED_ELEMENTS,
        0 < false_positive_ppm < 1_000_000,
    ensures
        r == spec_bloom_bits(expected_elements as int, false_positive_ppm as int),
        8 <= r <= 0x7FFF_FFFF,
{
    let a = ln_micro(1_000_000);
    let b = ln_micro(false_positive_ppm as u64);
    let l: u64 = if a < b {
        0
    } else {
        a - b
    };
    proof {
        assert((expected_elements as u64) * l <= 0x0400_0000 * 14_000_000) by (nonlinear_arith)
            requires
                expected_elements <= 0x0400_0000,
                l <= 14_000_000,
        ;
    }
    let m: u64 = (expected_elements as u64) * l / 480_453;
    if m < 8 {
        8
    } else if m > 0x7FFF_FFFF {
        0x7FFF_FFFF
    } else {
        m as usize
    }
}

/// Computes `spec_bloom_hashes`.
fn optimal_hash_functions(size: usize, expected_elements: usize) -> (r: u32)
    requires
        1 <= expected_elements <= MAX_EXPECTED_ELEMENTS,
        size <= 0x7FFF_FFFF,
    ensures
        r == spec_bloom_hashes(size as int, expected_elements as int),
        1 <= r <= 64,
{
    let n = expected_elements as u64;
    let num: u64 = (size as u64) * 693_147 + n * 1_000_000 - 1;
    proof {
        assert((size as u64) * 693_147 <= 0x7FFF_FFFF * 693_147) by (nonlinear_arith)
            requires
                size <= 0x7FFF_FFFF,
        ;
        assert(n * 1_000_000 <= 0x0400_0000 * 1_000_000) by (nonlinear_arith)
            requires
                n <= 0x0400_0000,
        ;
        assert(n * 1_000_000 >= 1_000_000) by (nonlinear_arith)
            requires
                n >= 1,
        ;
    }
    let k: u64 = num / (n * 1_000_000);
    if k < 1 {
        1
    } else if k > 64 {
        64
    } else {
        k as u32
    }
}

impl BloomFilter {
    /// Builds a filter sized for the expected element count and the target
    /// false-positive rate (in parts per million, strictly between zero
    /// and one million). A rate outside that range, or an element count of
    /// zero or beyond `MAX_EXPECTED_ELEMENTS`, is rejected.
    pub fn new(expected_elements: usize, false_positive_ppm: u32) -> (r: PlexResult<BloomFilter>)
        ensures
            match r {
                Ok(f) => {
                    &&& f.wf()
                    &&& f.size == spec_bloom_bits(
                        expected_elements as int,
                        false_positive_ppm as int,
                    )
                    &&& f.hash_functions == spec_bloom_hashes(
                        f.size as int,
                        expected_elements as int,
                    )
                    &&& f.inserted_elements == 0
                    &&& f.false_positive_ppm == false_positive_ppm
                    &&& forall|j: int| !f.bit_set(j)
                },
                Err(e) => e is BloomFilter,
            },
            r is Ok <==> (0 < false_positive_ppm < 1_000_000 && 1 <= expected_elements
                <= MAX_EXPECTED_ELEMENTS),
    {
        if false_positive_ppm == 0 || false_positive_ppm >= 1_000_000 {
            return Err(
                PlexError::BloomFilter("False positive must be between 0 and 1".to_owned()),
            );
        }
        if expected_elements == 0 || expected_elements > MAX_EXPECTED_ELEMENTS {
            return Err(
                PlexError::BloomFilter("expected element count out of range".to_owned()),
            );
        }
        let size = optimal_size(expected_elements, false_positive_ppm);
        let hash_functions = optimal_hash_functions(size, expected_elements);
        let f = BloomFilter {
            bit_array: vec![0u8; (size + 7) / 8],
            size,
            hash_functions,
            inserted_elements: 0,
            false_positive_ppm,
        };
        proof {
            assert(forall|t: u8| t < 8 ==> (0u8 >> t) & 1u8 == 0u8) by (bit_vector);
            assert forall|j: int| !f.bit_set(j) by {
                if 0 <= j < f.size {
                    lemma_fundamental_div_mod(j, 8);
                }
            }
        }
        Ok(f)
    }

    /// Reassembles a filter from previously saved state; rejects state
    /// whose pieces do not fit together.
    pub fn from_data(
        bit_array: Vec<u8>,
        size: usize,
        hash_functions: u32,
        inserted_elements: u64,
        false_positive_ppm: u32,
    ) -> (r: PlexResult<BloomFilter>)
        ensures
            match r {
                Ok(f) => {
                    &&& f.wf()
                    &&& f.bit_array@ == bit_array@
                    &&& f.size == size
                    &&& f.hash_functions == hash_functions
                    &&& f.inserted_elements == inserted_elements
                    &&& f.false_positive_ppm == false_positive_ppm
                },
                Err(e) => e is Config,
            },
            r is Ok <==> (1 <= size <= 0x7FFF_FFFF && bit_array@.len() == (size + 7) / 8 && 1
                <= hash_functions <= 64 && 0 < false_positive_ppm < 1_000_000),
    {
        if size < 1 || size > 0x7FFF_FFFF || hash_functions < 1 || hash_functions > 64
            || false_positive_ppm == 0 || false_positive_ppm >= 1_000_000 || bit_array.len() != (
        size + 7) / 8 {
            return Err(PlexError::Config("inconsistent bloom filter state".to_owned()));
        }
        Ok(
            BloomFilter {
                bit_array,
                size,
                hash_functions,
                inserted_elements,
                false_positive_ppm,
            },
        )
    }
}

/// The number of ones among the eight bits of a byte.
pub open spec fn spec_byte_ones(b: u8) -> int {
    ((b >> 0u8) & 1u8) + ((b >> 1u8) & 1u8) + ((b >> 2u8) & 1u8) + ((b >> 3u8) & 1u8) + ((b
        >> 4u8) & 1u8) + ((b >> 5u8) & 1u8) + ((b >> 6u8) & 1u8) + ((b >> 7u8) & 1u8)
}

/// The number of set bits in a byte sequence.
pub open spec fn spec_set_bits(s: Seq<u8>) -> int
    decreases s.len(),
{
    if s.len() == 0 {
        0
    } else {
        spec_byte_ones(s[0]) + spec_set_bits(s.drop_first())
    }
}

/// All eight bits of a byte are zero or one, so a byte holds at most eight.
proof fn lemma_byte_ones_bound(b: u8)
    ensures
        0 <= spec_byte_ones(b) <= 8,
{
    assert(0 <= ((b >> 0u8) & 1u8) <= 1 && 0 <= ((b >> 1u8) & 1u8) <= 1 && 0 <= ((b >> 2u8)
        & 1u8) <= 1 && 0 <= ((b >> 3u8) & 1u8) <= 1 && 0 <= ((b >> 4u8) & 1u8) <= 1 && 0 <= ((b
        >> 5u8) & 1u8) <= 1 && 0 <= ((b >> 6u8) & 1u8) <= 1 && 0 <= ((b >> 7u8) & 1u8) <= 1)
        by (bit_vector);
}

/// The estimated false-positive rate from the fraction of set bits: the
/// fraction (clamped to at most one) raised to the probe count, in parts
/// per million.
pub open spec fn spec_pow_ratio_ppm(ratio: int, k: int) -> int
    decreases k,
{
    if k <= 0 {
        1_000_000
    } else {
        spec_pow_ratio_ppm(ratio, k - 1) * ratio / 1_000_000
    }
}

impl BloomFilter {
    /// The estimated live false-positive rate, in parts per million.
    pub open spec fn spec_current_fp_ppm(self) -> int {
        if self.inserted_elements == 0 {
            0
        } else {
            let raw = spec_set_bits(self.bit_array@) * 1_000_000 / self.size as int;
            let ratio = if raw > 1_000_000 {
                1_000_000
            } else {
                raw
            };
            spec_pow_ratio_ppm(ratio, self.hash_functions as int)
        }
    }

    /// Counts the set bits of the whole array.
    fn count_set_bits(&self) -> (r: u64)
        requires
            self.wf(),
        ensures
            r == spec_set_bits(self.bit_array@),
            r <= 8 * self.bit_array@.len(),
    {
        let mut total: u64 = 0;
        let mut i: usize = 0;
        proof {
            assert(self.bit_array@.skip(0) =~= self.bit_array@);
        }
        while i < self.bit_array.len()
            invariant
                self.wf(),
                0 <= i <= self.bit_array@.len(),
                total <= 8 * i,
                spec_set_bits(self.bit_array@) == total + spec_set_bits(
                    self.bit_array@.skip(i as int),
                ),
            decreases self.bit_array@.len() - i,
        {
            let b = self.bit_array[i];
            let ones: u64 = ((b >> 0u8) & 1u8) as u64 + ((b >> 1u8) & 1u8) as u64 + ((b >> 2u8)
                & 1u8) as u64 + ((b >> 3u8) & 1u8) as u64 + ((b >> 4u8) & 1u8) as u64 + ((b
                >> 5u8) & 1u8) as u64 + ((b >> 6u8) & 1u8) as u64 + ((b >> 7u8) & 1u8) as u64;
            proof {
                lemma_byte_ones_bound(b);
                assert(ones == spec_byte_ones(b));
                assert(self.bit_array@.skip(i as int)[0] == self.bit_array@[i as int]);
                assert(self.bit_array@.skip(i as int).drop_first() =~= self.bit_array@.skip(
                    i as int + 1,
                ));
            }
            total = total + ones;
            i = i + 1;
        }
        proof {
            assert(self.bit_array@.skip(self.bit_array@.len() as int) =~= Seq::<u8>::empty());
        }
        total
    }

    /// The estimated live false-positive rate, in parts per million,
    /// computed from the fraction of set bits raised to the probe count.
    /// An empty filter reports zero.
    pub fn current_false_positive_rate(&self) -> (r: u64)
        requires
            self.wf(),
        ensures
            r == self.spec_current_fp_ppm(),
            r <= 1_000_000,
    {
        if self.inserted_elements == 0 {
            return 0;
        }
        let set_bits = self.count_set_bits();
        proof {
            assert(set_bits * 1_000_000 <= 8 * self.bit_array@.len() * 1_000_000)
                by (nonlinear_arith)
                requires
                    set_bits <= 8 * self.bit_array@.len(),
            ;
            assert(8 * self.bit_array@.len() <= 0x7FFF_FFFF + 7);
        }
        let raw: u64 = set_bits * 1_000_000 / (self.size as u64);
        let ratio: u64 = if raw > 1_000_000 {
            1_000_000
        } else {
            raw
        };
        let k = self.hash_functions;
        let mut r: u64 = 1_000_000;
        let mut j: u32 = 0;
        while j < k
            invariant
                0 <= j <= k,
                ratio <= 1_000_000,
                r <= 1_000_000,
                r == spec_pow_ratio_ppm(ratio as int, j as int),
            decreases k - j,
        {
            proof {
                assert(r * ratio <= 1_000_000 * 1_000_000) by (nonlinear_arith)
                    requires
                        r <= 1_000_000,
                        ratio <= 1_000_000,
                ;
                vstd::arithmetic::div_mod::lemma_multiply_divide_le(
                    r * ratio,
                    1_000_000,
                    1_000_000,
                );
            }
            r = r * ratio / 1_000_000;
            j = j + 1;
        }
        r
    }

    /// Whether the measured rate exceeds roughly twice the design target —
    /// the trigger for a partition rebuild rather than an in-place resize.
    pub fn should_resize(&self) -> (r: bool)
        requires
            self.wf(),
        ensures
            r == (self.spec_current_fp_ppm() > 2 * self.false_positive_ppm),
    {
        let current = self.current_false_positive_rate();
        current > 2 * (self.false_positive_ppm as u64)
    }

    /// A snapshot of the filter's shape and health.
    pub fn stats(&self) -> (r: BloomFilterStats)
        requires
            self.wf(),
        ensures
            r.size == self.size,
            r.hash_functions == self.hash_functions,
            r.inserted_elements == self.inserted_elements,
            r.set_bits == spec_set_bits(self.bit_array@),
            r.current_false_positive_ppm == self.spec_current_fp_ppm(),
            r.target_false_positive_ppm == self.false_positive_ppm,
            r.memory_usage == self.bit_array@.len(),
    {
        BloomFilterStats {
            size: self.size,
            hash_functions: self.hash_functions,
            inserted_elements: self.inserted_elements,
            set_bits: self.count_set_bits(),
            current_false_positive_ppm: self.current_false_positive_rate(),
            target_false_positive_ppm: self.false_positive_ppm,
            memory_usage: self.bit_array.len(),
        }
    }

    /// Combines another filter into this one by bitwise OR. Only filters
    /// built with exactly the same size and probe count can merge;
    /// mismatched parameters fail with a configuration error and leave the
    /// filter untouched.
    pub fn merge(&mut self, other: &BloomFilter) -> (r: PlexResult<()>)
        requires
            old(self).wf(),
            other.wf(),
        ensures
            final(self).wf(),
            match r {
                Ok(()) => {
                    &&& final(self).same_shape(*old(self))
                    &&& forall|j: int|
                        final(self).bit_set(j) == (old(self).bit_set(j) || other.bit_set(j))
                    &&& final(self).inserted_elements == if old(self).inserted_elements
                        + other.inserted_elements <= u64::MAX {
                        old(self).inserted_elements + other.inserted_elements
                    } else {
                        u64::MAX as int
                    }
                },
                Err(e) => e is BloomFilter && *final(self) == *old(self),
            },
            r is Err <==> !(old(self).size == other.size && old(self).hash_functions
                == other.hash_functions),
    {
        if self.size != other.size || self.hash_functions != other.hash_functions {
            return Err(
                PlexError::BloomFilter(
                    "Cannot merge bloom filters with different parameters".to_owned(),
                ),
            );
        }
        let len = self.bit_array.len();
        let mut i: usize = 0;
        while i < len
            invariant
                len == self.bit_array@.len(),
                self.bit_array@.len() == old(self).bit_array@.len(),
                other.bit_array@.len() == old(self).bit_array@.len(),
                0 <= i <= len,
                self.size == old(self).size,
                self.hash_functions == old(self).hash_functions,
                self.false_positive_ppm == old(self).false_positive_ppm,
                self.inserted_elements == old(self).inserted_elements,
                forall|bi: int|
                    0 <= bi < i ==> self.bit_array@[bi] == (old(self).bit_array@[bi]
                        | other.bit_array@[bi]),
                forall|bi: int|
                    i <= bi < len ==> self.bit_array@[bi] == old(self).bit_array@[bi],
            decreases len - i,
        {
            let merged = self.bit_array[i] | other.bit_array[i];
            self.bit_array.set(i, merged);
            i = i + 1;
        }
        self.inserted_elements = if u64::MAX - self.inserted_elements
            >= other.inserted_elements {
            self.inserted_elements + other.inserted_elements
        } else {
            u64::MAX
        };
        proof {
            assert(forall|x: u8, y: u8, t: u8|
                t < 8 ==> (((x | y) >> t) & 1u8 == 1u8 <==> ((x >> t) & 1u8 == 1u8 || (y >> t)
                    & 1u8 == 1u8))) by (bit_vector);
            assert forall|j: int|
                final(self).bit_set(j) == (old(self).bit_set(j) || other.bit_set(j)) by {
                if 0 <= j < final(self).size {
                    lemma_fundamental_div_mod(j, 8);
                }
            }
        }
        Ok(())
    }
}

/// A snapshot of one filter, with rates in parts per million.
pub struct BloomFilterStats {
    pub size: usize,
    pub hash_functions: u32,
    pub inserted_elements: u64,
    pub set_bits: u64,
    pub current_false_positive_ppm: u64,
    pub target_false_positive_ppm: u32,
    pub memory_usage: usize,
}

impl BloomFilterStats {
    /// Healthy: the measured rate is within one and a half times the
    /// target.
    pub fn is_healthy(&self) -> (r: bool)
        ensures
            r == (2 * self.current_false_positive_ppm <= 3 * self.target_false_positive_ppm),
    {
        (self.current_false_positive_ppm as u128) * 2 <= (self.target_false_positive_ppm
            as u128) * 3
    }
}

/// The serialized state of one filter, as one bloom-filter file holds it:
/// bit count, probe count, element count, target rate, then the bit array
/// with its byte length.
pub open spec fn spec_filter_bytes(f: BloomFilter) -> Seq<u8> {
    spec_u64_to_le_bytes(f.size as u64) + spec_u32_to_le_bytes(f.hash_functions)
        + spec_u64_to_le_bytes(f.inserted_elements) + spec_u32_to_le_bytes(f.false_positive_ppm)
        + spec_u64_to_le_bytes(f.bit_array@.len() as u64) + f.bit_array@
}

/// Whether bytes hold exactly one well-formed serialized filter.
pub open spec fn spec_filter_parseable(b: Seq<u8>) -> bool {
    &&& b.len() >= 32
    &&& {
        let size = spec_u64_from_le_bytes(b.subrange(0, 8));
        let k = spec_u32_from_le_bytes(b.subrange(8, 12));
        let ppm = spec_u32_from_le_bytes(b.subrange(20, 24));
        let bitlen = spec_u64_from_le_bytes(b.subrange(24, 32));
        &&& 1 <= size <= 0x7FFF_FFFF
        &&& 1 <= k <= 64
        &&& 0 < ppm < 1_000_000
        &&& bitlen == b.len() - 32
        &&& bitlen == (size + 7) / 8
    }
}

impl BloomFilter {
    /// Serializes the filter's whole state for persistence.
    pub fn to_bytes(&self) -> (r: Vec<u8>)
        requires
            self.wf(),
        ensures
            r@ == spec_filter_bytes(*self),
    {
        let mut out = u64_to_le_bytes(self.size as u64);
        let mut k_bytes = u32_to_le_bytes(self.hash_functions);
        out.append(&mut k_bytes);
        let mut ins_bytes = u64_to_le_bytes(self.inserted_elements);
        out.append(&mut ins_bytes);
        let mut ppm_bytes = u32_to_le_bytes(self.false_positive_ppm);
        out.append(&mut ppm_bytes);
        let mut len_bytes = u64_to_le_bytes(self.bit_array.len() as u64);
        out.append(&mut len_bytes);
        let mut i: usize = 0;
        let ghost prefix = out@;
        while i < self.bit_array.len()
            invariant
                0 <= i <= self.bit_array@.len(),
                out@ == prefix + self.bit_array@.take(i as int),
            decreases self.bit_array@.len() - i,
        {
            out.push(self.bit_array[i]);
            proof {
                assert(self.bit_array@.take(i as int).push(self.bit_array@[i as int])
                    =~= self.bit_array@.take(i as int + 1));
                assert(out@ =~= prefix + self.bit_array@.take(i as int + 1));
            }
            i = i + 1;
        }
        proof {
            assert(self.bit_array@.take(self.bit_array@.len() as int) =~= self.bit_array@);
            assert(out@ =~= spec_filter_bytes(*self));
        }
        out
    }

    /// Deserializes a filter saved by `to_bytes`; rejects bytes that do not
    /// hold exactly one well-formed filter.
    pub fn from_bytes(b: &[u8]) -> (r: PlexResult<BloomFilter>)
        ensures
            match r {
                Ok(f) => f.wf() && spec_filter_bytes(f) == b@,
                Err(e) => e is InvalidFormat,
            },
            r is Ok <==> spec_filter_parseable(b@),
    {
        proof {
            lemma_auto_spec_u32_to_from_le_bytes();
            vstd::bytes::lemma_auto_spec_u64_to_from_le_bytes();
        }
        if b.len() < 32 {
            return Err(PlexError::InvalidFormat);
        }
        let size64 = u64_from_le_bytes(vstd::slice::slice_subrange(b, 0, 8));
        let k = u32_from_le_bytes(vstd::slice::slice_subrange(b, 8, 12));
        let inserted = u64_from_le_bytes(vstd::slice::slice_subrange(b, 12, 20));
        let ppm = u32_from_le_bytes(vstd::slice::slice_subrange(b, 20, 24));
        let bitlen = u64_from_le_bytes(vstd::slice::slice_subrange(b, 24, 32));
        if size64 < 1 || size64 > 0x7FFF_FFFF || k < 1 || k > 64 || ppm == 0 || ppm >= 1_000_000
            || bitlen != (b.len() - 32) as u64 || bitlen != (size64 + 7) / 8 {
            return Err(PlexError::InvalidFormat);
        }
        let bits = vstd::slice::slice_to_vec(vstd::slice::slice_subrange(b, 32, b.len()));
        let f = BloomFilter {
            bit_array: bits,
            size: size64 as usize,
            hash_functions: k,
            inserted_elements: inserted,
            false_positive_ppm: ppm,
        };
        proof {
            assert(spec_filter_bytes(f) =~= b@);
        }
        Ok(f)
    }
}

/// What one stats snapshot must say of its filter.
pub open spec fn stats_match(s: BloomFilterStats, f: BloomFilter) -> bool {
    &&& s.size == f.size
    &&& s.hash_functions == f.hash_functions
    &&& s.inserted_elements == f.inserted_elements
    &&& s.set_bits == spec_set_bits(f.bit_array@)
    &&& s.current_false_positive_ppm == f.spec_current_fp_ppm()
    &&& s.target_false_positive_ppm == f.false_positive_ppm
    &&& s.memory_usage == f.bit_array@.len()
}

/// One filter per partition, with the defaults used to rebuild a degraded
/// one.
pub struct BloomFilterCollection {
    pub filters: Vec<BloomFilter>,
    pub default_capacity: usize,
    pub default_fp_ppm: u32,
}

impl BloomFilterCollection {
    /// Well-formed: every filter is, and the rebuild defaults are valid
    /// construction parameters.
    pub open spec fn wf(self) -> bool {
        &&& forall|i: int| 0 <= i < self.filters@.len() ==> (#[trigger] self.filters@[i]).wf()
        &&& 1 <= self.default_capacity <= MAX_EXPECTED_ELEMENTS
        &&& 0 < self.default_fp_ppm < 1_000_000
    }

    /// Builds one fresh filter per partition. Invalid defaults fail fast.
    pub fn new(partition_count: usize, default_capacity: usize, default_fp_ppm: u32) -> (r:
        PlexResult<BloomFilterCollection>)
        ensures
            match r {
                Ok(c) => {
                    &&& c.wf()
                    &&& c.filters@.len() == partition_count
                    &&& c.default_capacity == default_capacity
                    &&& c.default_fp_ppm == default_fp_ppm
                    &&& forall|i: int|
                        0 <= i < partition_count ==> {
                            let f = #[trigger] c.filters@[i];
                            &&& f.inserted_elements == 0
                            &&& f.size == spec_bloom_bits(
                                default_capacity as int,
                                default_fp_ppm as int,
                            )
                            &&& f.hash_functions == spec_bloom_hashes(
                                f.size as int,
                                default_capacity as int,
                            )
                            &&& f.false_positive_ppm == default_fp_ppm
                            &&& forall|j: int| !f.bit_set(j)
                        }
                },
                Err(e) => e is BloomFilter,
            },
            r is Ok <==> (0 < default_fp_ppm < 1_000_000 && 1 <= default_capacity
                <= MAX_EXPECTED_ELEMENTS),
    {
        if default_fp_ppm == 0 || default_fp_ppm >= 1_000_000 {
            return Err(
                PlexError::BloomFilter("False positive must be between 0 and 1".to_owned()),
            );
        }
        if default_capacity == 0 || default_capacity > MAX_EXPECTED_ELEMENTS {
            return Err(
                PlexError::BloomFilter("expected element count out of range".to_owned()),
            );
        }
        let mut filters: Vec<BloomFilter> = Vec::new();
        let mut i: usize = 0;
        while i < partition_count
            invariant
                0 <= i <= partition_count,
                filters@.len() == i,
                0 < default_fp_ppm < 1_000_000,
                1 <= default_capacity <= MAX_EXPECTED_ELEMENTS,
                forall|j: int| 0 <= j < i ==> (#[trigger] filters@[j]).wf(),
                forall|j: int|
                    0 <= j < i ==> {
                        let f = #[trigger] filters@[j];
                        &&& f.inserted_elements == 0
                        &&& f.size == spec_bloom_bits(
                            default_capacity as int,
                            default_fp_ppm as int,
                        )
                        &&& f.hash_functions == spec_bloom_hashes(
                            f.size as int,
                            default_capacity as int,
                        )
                        &&& f.false_positive_ppm == default_fp_ppm
                        &&& forall|b: int| !f.bit_set(b)
                    },
            decreases partition_count - i,
        {
            let f = match BloomFilter::new(default_capacity, default_fp_ppm) {
                Ok(f) => f,
                Err(e) => {
                    return Err(e);
                },
            };
            filters.push(f);
            i = i + 1;
        }
        Ok(BloomFilterCollection { filters, default_capacity, default_fp_ppm })
    }

    /// The filter of one partition, if the id is in range.
    pub fn get_filter(&self, partition_id: usize) -> (r: Option<&BloomFilter>)
        ensures
            match r {
                Some(f) => partition_id < self.filters@.len() && *f == self.filters@[partition_id as int],
                None => partition_id >= self.filters@.len(),
            },
    {
        if partition_id < self.filters.len() {
            Some(&self.filters[partition_id])
        } else {
            None
        }
    }

    /// Inserts an element into one partition's filter; an id out of range
    /// is a configuration error and changes nothing.
    pub fn insert(&mut self, partition_id: usize, item: &str) -> (r: PlexResult<()>)
        requires
            old(self).wf(),
        ensures
            final(self).wf(),
            final(self).default_capacity == old(self).default_capacity,
            final(self).default_fp_ppm == old(self).default_fp_ppm,
            final(self).filters@.len() == old(self).filters@.len(),
            match r {
                Ok(()) => {
                    &&& forall|i: int|
                        0 <= i < old(self).filters@.len() && i != partition_id
                            ==> final(self).filters@[i] == old(self).filters@[i]
                    &&& final(self).filters@[partition_id as int].spec_contains(item@)
                    &&& final(self).filters@[partition_id as int].inserted_elements == if old(self).filters@[partition_id as int].inserted_elements < u64::MAX {
                        old(self).filters@[partition_id as int].inserted_elements + 1
                    } else {
                        u64::MAX as int
                    }
                    &&& final(self).filters@[partition_id as int].same_shape(
                        old(self).filters@[partition_id as int],
                    )
                    &&& forall|j: int|
                        old(self).filters@[partition_id as int].bit_set(j) ==> final(self).filters@[partition_id as int].bit_set(j)
                },
                Err(e) => e is Config && *final(self) == *old(self),
            },
            r is Err <==> partition_id >= old(self).filters@.len(),
    {
        if partition_id >= self.filters.len() {
            return Err(PlexError::Config("Invalid partition ID".to_owned()));
        }
        let mut f = self.filters.remove(partition_id);
        f.insert(item);
        self.filters.insert(partition_id, f);
        proof {
            assert(final(self).filters@[partition_id as int].spec_contains(item@));
            assert(forall|i: int|
                0 <= i < old(self).filters@.len() && i != partition_id ==> final(self).filters@[i]
                    == old(self).filters@[i]);
        }
        Ok(())
    }

    /// Whether an element may be present in one partition's filter; an id
    /// out of range is a configuration error.
    pub fn contains(&self, partition_id: usize, item: &str) -> (r: PlexResult<bool>)
        requires
            self.wf(),
        ensures
            match r {
                Ok(b) => b == self.filters@[partition_id as int].spec_contains(item@),
                Err(e) => e is Config,
            },
            r is Err <==> partition_id >= self.filters@.len(),
    {
        if partition_id >= self.filters.len() {
            return Err(PlexError::Config("Invalid partition ID".to_owned()));
        }
        Ok(self.filters[partition_id].contains(item))
    }

    /// A snapshot of every filter.
    pub fn stats(&self) -> (r: Vec<BloomFilterStats>)
        requires
            self.wf(),
        ensures
            r@.len() == self.filters@.len(),
            forall|i: int|
                0 <= i < r@.len() ==> stats_match(#[trigger] r@[i], self.filters@[i]),
    {
        let mut out: Vec<BloomFilterStats> = Vec::new();
        let mut i: usize = 0;
        while i < self.filters.len()
            invariant
                self.wf(),
                0 <= i <= self.filters@.len(),
                out@.len() == i,
                forall|j: int|
                    0 <= j < i ==> stats_match(#[trigger] out@[j], self.filters@[j]),
            decreases self.filters@.len() - i,
        {
            out.push(self.filters[i].stats());
            i = i + 1;
        }
        out
    }

    /// Replaces every filter whose measured false-positive rate exceeds
    /// twice its target with a fresh, empty one built from the defaults.
    /// Callers must then repopulate it by re-scanning that partition's
    /// live keys.
    pub fn rebuild_degraded_filters(&mut self) -> (r: PlexResult<()>)
        requires
            old(self).wf(),
        ensures
            final(self).wf(),
            r is Ok,
            final(self).default_capacity == old(self).default_capacity,
            final(self).default_fp_ppm == old(self).default_fp_ppm,
            final(self).filters@.len() == old(self).filters@.len(),
            forall|i: int|
                0 <= i < old(self).filters@.len() ==> if (#[trigger] old(
                    self,
                ).filters@[i]).spec_current_fp_ppm() > 2 * old(self).filters@[i].false_positive_ppm {
                    &&& final(self).filters@[i].inserted_elements == 0
                    &&& (forall|j: int| !(#[trigger] final(self).filters@[i].bit_set(j)))
                    &&& final(self).filters@[i].size == spec_bloom_bits(
                        old(self).default_capacity as int,
                        old(self).default_fp_ppm as int,
                    )
                    &&& final(self).filters@[i].hash_functions == spec_bloom_hashes(
                        final(self).filters@[i].size as int,
                        old(self).default_capacity as int,
                    )
                    &&& final(self).filters@[i].false_positive_ppm == old(self).default_fp_ppm
                } else {
                    final(self).filters@[i] == old(self).filters@[i]
                },
    {
        let mut i: usize = 0;
        while i < self.filters.len()
            invariant
                self.wf(),
                0 <= i <= self.filters@.len(),
                self.filters@.len() == old(self).filters@.len(),
                self.default_capacity == old(self).default_capacity,
                self.default_fp_ppm == old(self).default_fp_ppm,
                forall|ii: int| i <= ii < self.filters@.len() ==> #[trigger] self.filters@[ii]
                    == old(self).filters@[ii],
                forall|ii: int|
                    0 <= ii < i ==> if (#[trigger] old(
                        self,
                    ).filters@[ii]).spec_current_fp_ppm() > 2 * old(
                        self,
                    ).filters@[ii].false_positive_ppm {
                        &&& self.filters@[ii].inserted_elements == 0
                        &&& (forall|j: int| !(#[trigger] self.filters@[ii].bit_set(j)))
                        &&& self.filters@[ii].size == spec_bloom_bits(
                            old(self).default_capacity as int,
                            old(self).default_fp_ppm as int,
                        )
                        &&& self.filters@[ii].hash_functions == spec_bloom_hashes(
                            self.filters@[ii].size as int,
                            old(self).default_capacity as int,
                        )
                        &&& self.filters@[ii].false_positive_ppm == old(self).default_fp_ppm
                    } else {
                        self.filters@[ii] == old(self).filters@[ii]
                    },
            decreases self.filters@.len() - i,
        {
            if self.filters[i].should_resize() {
                let fresh = match BloomFilter::new(self.default_capacity, self.default_fp_ppm) {
                    Ok(f) => f,
                    Err(e) => {
                        return Err(e);
                    },
                };
                self.filters.set(i, fresh);
            }
            i = i + 1;
        }
        Ok(())
    }

    /// Reassembles a collection from loaded filters, taking the rebuild
    /// defaults from the first one; an empty list is a configuration
    /// error.
    pub fn from_filters(filters: Vec<BloomFilter>) -> (r: PlexResult<BloomFilterCollection>)
        requires
            forall|i: int| 0 <= i < filters@.len() ==> (#[trigger] filters@[i]).wf(),
        ensures
            match r {
                Ok(c) => {
                    &&& c.wf()
                    &&& c.filters@ == filters@
                    &&& c.default_fp_ppm == filters@[0].false_positive_ppm
                },
                Err(e) => e is Config,
            },
            r is Err <==> filters@.len() == 0,
    {
        if filters.len() == 0 {
            return Err(PlexError::Config("No bloom filter files found".to_owned()));
        }
        let inserted = filters[0].inserted_elements;
        let default_capacity: usize = if inserted < 1000 {
            1000
        } else if inserted > MAX_EXPECTED_ELEMENTS as u64 {
            MAX_EXPECTED_ELEMENTS
        } else {
            inserted as usize
        };
        let default_fp_ppm = filters[0].false_positive_ppm;
        Ok(BloomFilterCollection { filters, default_capacity, default_fp_ppm })
    }
}

/// Every bit set in `a` is set in `b`.
pub open spec fn bits_subset(a: BloomFilter, b: BloomFilter) -> bool {
    forall|j: int| #[trigger] a.bit_set(j) ==> b.bit_set(j)
}

/// No false negatives: an element whose probes are all set stays contained
/// in any same-shaped filter whose bits are a superset — in particular
/// after any number of further inserts.
pub proof fn lemma_no_false_negative(a: BloomFilter, b: BloomFilter, key: Seq<char>)
    requires
        a.size == b.size,
        a.hash_functions == b.hash_functions,
        bits_subset(a, b),
        a.spec_contains(key),
    ensures
        b.spec_contains(key),
{
    assert forall|i: int|
        0 <= i < b.hash_functions implies b.bit_set(#[trigger] b.spec_index_of(key, i)) by {
        assert(a.bit_set(a.spec_index_of(key, i)));
        assert(a.spec_index_of(key, i) == b.spec_index_of(key, i));
    }
}

} // verus!
