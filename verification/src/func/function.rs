//! The retrieval function itself: what it holds and how it is queried.

use crate::bits::bit_field_vec::BitFieldVec;
use crate::bits::word::{low_mask, rotate_left, rotl};
use crate::func::params::{lemma_pow2_is_shift, lemma_shr_is_div, pow2};
use crate::func::remap::Remap;
use core::marker::PhantomData;
use vstd::prelude::*;

verus! {

/// The largest number of chunk bits.
pub const MAX_HIGH_BITS: u32 = 32;

/// The largest `log2_l`: the first vertex of a key falls into one of at most
/// `2^16` segments.
pub const MAX_LOG2_L: u32 = 16;

/// The largest length of a segment: the positions inside a segment come
/// from 32 bits of the signature.
pub const MAX_SEGMENT_SIZE: u64 = 0x1_0000_0000;

/// The chunk that a signature with first word `s0` belongs to: the number
/// that its `high_bits` highest bits spell.
pub open spec fn chunk_of(s0: u64, high_bits: nat) -> nat {
    s0 as nat / pow2((64 - high_bits) as nat)
}

/// The three vertices of the key with signature `(s0, s1)`, within its
/// chunk: one in each of three segments in a row, the first of which 32
/// bits of `s0` choose among `2^log2_l`.
pub open spec fn edge_of(s0: u64, s1: u64, log2_l: nat, segment_size: nat) -> (nat, nat, nat) {
    let first_segment = (s0 as nat / 0x1_0000_0000) % pow2(log2_l);
    let start = first_segment * segment_size;
    (
        ((s0 as nat % 0x1_0000_0000) * segment_size) / 0x1_0000_0000 + start,
        ((s1 as nat % 0x1_0000_0000) * segment_size) / 0x1_0000_0000 + start + segment_size,
        ((s1 as nat / 0x1_0000_0000) * segment_size) / 0x1_0000_0000 + start + 2 * segment_size,
    )
}

/// The number of vertices of a chunk: `2^log2_l + 2` segments.
pub open spec fn vertices_per_chunk(log2_l: nat, segment_size: nat) -> nat {
    segment_size * (pow2(log2_l) + 2)
}

/// The value that the three vertices of a signature hold together, in the
/// vector `values` of all chunks.
pub open spec fn lookup(
    values: Seq<u64>,
    s0: u64,
    s1: u64,
    high_bits: nat,
    log2_l: nat,
    segment_size: nat,
) -> u64 {
    let e = edge_of(s0, s1, log2_l, segment_size);
    let offset = chunk_of(s0, high_bits) * vertices_per_chunk(log2_l, segment_size);
    values[(offset + e.0) as int] ^ values[(offset + e.1) as int] ^ values[(offset + e.2) as int]
}

/// The three vertices of a signature are in three segments in a row, all
/// within the chunk.
pub proof fn lemma_edge_of(s0: u64, s1: u64, log2_l: nat, segment_size: nat)
    requires
        log2_l <= MAX_LOG2_L,
        segment_size >= 1,
    ensures
        ({
            let e = edge_of(s0, s1, log2_l, segment_size);
            let first = (s0 as nat / 0x1_0000_0000) % pow2(log2_l);
            &&& first < pow2(log2_l)
            &&& first * segment_size <= e.0 < (first + 1) * segment_size
            &&& (first + 1) * segment_size <= e.1 < (first + 2) * segment_size
            &&& (first + 2) * segment_size <= e.2 < (first + 3) * segment_size
            &&& e.2 < vertices_per_chunk(log2_l, segment_size)
            &&& e.0 < e.1 < e.2
        }),
{
    let first = (s0 as nat / 0x1_0000_0000) % pow2(log2_l);
    let a = s0 as nat % 0x1_0000_0000;
    let b = s1 as nat % 0x1_0000_0000;
    let c = s1 as nat / 0x1_0000_0000;
    vstd::arithmetic::power2::lemma_pow2_pos(log2_l);
    lemma_scaled(a, segment_size);
    lemma_scaled(b, segment_size);
    lemma_scaled(c, segment_size);
    let l = pow2(log2_l);
    assert((first + 1) * segment_size == first * segment_size + segment_size) by (nonlinear_arith);
    assert((first + 2) * segment_size == first * segment_size + 2 * segment_size)
        by (nonlinear_arith);
    assert((first + 3) * segment_size == first * segment_size + 3 * segment_size)
        by (nonlinear_arith);
    assert((first + 3) * segment_size <= segment_size * (l + 2)) by (nonlinear_arith)
        requires
            first + 1 <= l,
    ;
}

/// A number below `2^32`, scaled by a length and divided by `2^32`, is a
/// position below the length.
pub proof fn lemma_scaled(x: nat, segment_size: nat)
    requires
        x < 0x1_0000_0000,
        segment_size >= 1,
    ensures
        (x * segment_size) / 0x1_0000_0000 < segment_size,
{
    assert(x * segment_size < 0x1_0000_0000 * segment_size) by (nonlinear_arith)
        requires
            x < 0x1_0000_0000,
            segment_size >= 1,
    ;
    vstd::arithmetic::div_mod::lemma_div_by_multiple_is_strongly_ordered(
        (x * segment_size) as int,
        (0x1_0000_0000 * segment_size) as int,
        segment_size as int,
        0x1_0000_0000,
    );
    vstd::arithmetic::div_mod::lemma_div_by_multiple(segment_size as int, 0x1_0000_0000);
    assert(0x1_0000_0000 * segment_size == segment_size * 0x1_0000_0000) by (nonlinear_arith);
}

/// Computes the chunk of a signature.
pub fn chunk(sig: &[u64; 2], high_bits: u32, chunk_mask: u32) -> (r: u64)
    requires
        high_bits <= MAX_HIGH_BITS,
        chunk_mask == low_mask(high_bits as u64),
    ensures
        r == chunk_of(sig[0], high_bits as nat),
        r < pow2(high_bits as nat),
{
    let s0 = sig[0];
    let r = rotate_left(s0, high_bits as usize) & (chunk_mask as u64);
    proof {
        let h = high_bits as u64;
        let m = chunk_mask as u64;
        assert(h <= 32 && m == low_mask(h) ==> rotl(s0, h) & m == (if h == 0 {
            0
        } else {
            s0 >> ((64 - h) as u64)
        }) && (rotl(s0, h) & m) <= m && (h < 64 ==> m + 1 == 1u64 << h)) by (bit_vector);
        lemma_pow2_is_shift(h);
        if h == 0 {
            vstd::arithmetic::power2::lemma2_to64_rest();
            vstd::arithmetic::div_mod::lemma_basic_div(s0 as int, pow2(64) as int);
        } else {
            lemma_shr_is_div(s0, (64 - h) as u64);
        }
    }
    r
}

/// Computes the three vertices of a signature within its chunk.
pub fn edge(sig: &[u64; 2], log2_l: u32, segment_size: u64) -> (r: [u64; 3])
    requires
        log2_l <= MAX_LOG2_L,
        1 <= segment_size <= MAX_SEGMENT_SIZE,
    ensures
        (r[0] as nat, r[1] as nat, r[2] as nat) == edge_of(
            sig[0],
            sig[1],
            log2_l as nat,
            segment_size as nat,
        ),
{
    let s0 = sig[0];
    let s1 = sig[1];
    proof {
        let k = log2_l as u64;
        lemma_small_pow2(log2_l as nat);
        vstd::bits::lemma_u64_low_bits_mask_is_mod(s0 >> 32, log2_l as nat);
        lemma_halves(s0);
        lemma_halves(s1);
        lemma_pow2_is_shift(k);
        lemma_edge_of(s0, s1, log2_l as nat, segment_size as nat);
        lemma_products(s0, s1, segment_size);
    }
    let first_segment = (s0 >> 32) & ((1u64 << log2_l) - 1);
    let start = first_segment * segment_size;
    proof {
        lemma_halves(((s0 & 0xFFFF_FFFF) * segment_size) as u64);
        lemma_halves(((s1 & 0xFFFF_FFFF) * segment_size) as u64);
        lemma_halves(((s1 >> 32) * segment_size) as u64);
    }
    [
        (((s0 & 0xFFFF_FFFF) * segment_size) >> 32) + start,
        (((s1 & 0xFFFF_FFFF) * segment_size) >> 32) + start + segment_size,
        (((s1 >> 32) * segment_size) >> 32) + start + 2 * segment_size,
    ]
}

/// The powers of two up to `2^32` as shifts of one.
pub proof fn lemma_small_pow2(e: nat)
    requires
        e <= 32,
    ensures
        (1u64 << (e as u64)) == pow2(e),
        1 <= pow2(e) <= 0x1_0000_0000,
        e <= 16 ==> pow2(e) <= 0x1_0000,
        e == 0 ==> pow2(e) == 1,
        vstd::bits::low_bits_mask(e) == pow2(e) - 1,
{
    lemma_pow2_is_shift(e as u64);
    vstd::arithmetic::power2::lemma2_to64();
    vstd::arithmetic::power2::lemma_pow2_pos(e);
    if e < 32 {
        vstd::arithmetic::power2::lemma_pow2_strictly_increases(e, 32);
    }
    if e < 16 {
        vstd::arithmetic::power2::lemma_pow2_strictly_increases(e, 16);
    }
}

/// The upper and the lower half of a word, by shift and mask and by
/// division and remainder.
pub proof fn lemma_halves(x: u64)
    by (bit_vector)
    ensures
        x >> 32 == x / 0x1_0000_0000,
        x & 0xFFFF_FFFF == x % 0x1_0000_0000,
{
}

/// The products that the vertices are computed from fit in a word.
pub proof fn lemma_products(s0: u64, s1: u64, segment_size: u64)
    requires
        segment_size <= MAX_SEGMENT_SIZE,
    ensures
        (s0 as nat % 0x1_0000_0000) * segment_size <= 0xFFFF_FFFF * 0x1_0000_0000,
        (s1 as nat % 0x1_0000_0000) * segment_size <= 0xFFFF_FFFF * 0x1_0000_0000,
        (s1 as nat / 0x1_0000_0000) * segment_size <= 0xFFFF_FFFF * 0x1_0000_0000,
        forall|f: nat| f < 0x1_0000 ==> #[trigger] (f * segment_size) <= 0xFFFF * 0x1_0000_0000,
{
    let a = s0 as nat % 0x1_0000_0000;
    let b = s1 as nat % 0x1_0000_0000;
    let c = s1 as nat / 0x1_0000_0000;
    assert(a * segment_size <= 0xFFFF_FFFF * 0x1_0000_0000) by (nonlinear_arith)
        requires
            a <= 0xFFFF_FFFF,
            segment_size <= 0x1_0000_0000,
    ;
    assert(b * segment_size <= 0xFFFF_FFFF * 0x1_0000_0000) by (nonlinear_arith)
        requires
            b <= 0xFFFF_FFFF,
            segment_size <= 0x1_0000_0000,
    ;
    assert(c * segment_size <= 0xFFFF_FFFF * 0x1_0000_0000) by (nonlinear_arith)
        requires
            c <= 0xFFFF_FFFF,
            segment_size <= 0x1_0000_0000,
    ;
    assert forall|f: nat| f < 0x1_0000 implies #[trigger] (f * segment_size) <= 0xFFFF
        * 0x1_0000_0000 by {
        assert(f * segment_size <= 0xFFFF * 0x1_0000_0000) by (nonlinear_arith)
            requires
                f <= 0xFFFF,
                segment_size <= 0x1_0000_0000,
        ;
    }
}

/// A static function from the keys it was built from to the values that
/// were given with them.
///
/// Of a key that was not among them it returns some value of the same width.
#[derive(Debug)]
pub struct Function<T: Remap> {
    seed: u64,
    log2_l: u32,
    high_bits: u32,
    chunk_mask: u32,
    num_keys: usize,
    segment_size: usize,
    values: BitFieldVec,
    _phantom: PhantomData<T>,
}

impl<T: Remap> Function<T> {
    /// The seed under which the keys are turned into signatures.
    pub closed spec fn seed(&self) -> u64 {
        self.seed
    }

    /// The logarithm of the number of segments that a first vertex can fall into.
    pub closed spec fn log2_l(&self) -> u32 {
        self.log2_l
    }

    /// The number of bits of a signature that choose its chunk.
    pub closed spec fn high_bits(&self) -> u32 {
        self.high_bits
    }

    /// The mask that keeps the chunk bits: `2^high_bits - 1`.
    pub closed spec fn chunk_mask(&self) -> u32 {
        self.chunk_mask
    }

    /// The number of keys that the function was built from.
    pub closed spec fn spec_len(&self) -> usize {
        self.num_keys
    }

    /// The length of a segment.
    pub closed spec fn segment_size(&self) -> usize {
        self.segment_size
    }

    /// The values that the vertices hold, chunk after chunk.
    pub closed spec fn values(&self) -> BitFieldVec {
        self.values
    }

    /// The function holds `2^high_bits` chunks of `2^log2_l + 2` segments each.
    pub open spec fn wf(&self) -> bool {
        &&& self.high_bits() <= MAX_HIGH_BITS
        &&& self.log2_l() <= MAX_LOG2_L
        &&& self.chunk_mask() == low_mask(self.high_bits() as u64)
        &&& 1 <= self.segment_size() <= MAX_SEGMENT_SIZE
        &&& self.values().wf()
        &&& self.values()@.len() == pow2(self.high_bits() as nat) * vertices_per_chunk(
            self.log2_l() as nat,
            self.segment_size() as nat,
        )
    }

    /// The value that the function returns for a signature.
    pub open spec fn value_of_sig(&self, s0: u64, s1: u64) -> u64 {
        lookup(
            self.values()@,
            s0,
            s1,
            self.high_bits() as nat,
            self.log2_l() as nat,
            self.segment_size() as nat,
        )
    }

    /// The value that the function returns for a key.
    pub open spec fn value_of(&self, key: &T) -> u64 {
        self.value_of_sig(T::signature(key, self.seed()).0, T::signature(key, self.seed()).1)
    }

    /// Puts a function together from its parts.
    pub fn from_parts(
        seed: u64,
        log2_l: u32,
        high_bits: u32,
        num_keys: usize,
        segment_size: usize,
        values: BitFieldVec,
    ) -> (r: Self)
        requires
            high_bits <= MAX_HIGH_BITS,
            log2_l <= MAX_LOG2_L,
            1 <= segment_size <= MAX_SEGMENT_SIZE,
            values.wf(),
            values@.len() == pow2(high_bits as nat) * vertices_per_chunk(
                log2_l as nat,
                segment_size as nat,
            ),
        ensures
            r.wf(),
            r.seed() == seed,
            r.log2_l() == log2_l,
            r.high_bits() == high_bits,
            r.spec_len() == num_keys,
            r.segment_size() == segment_size,
            r.values() == values,
    {
        proof {
            lemma_small_pow2(high_bits as nat);
            if high_bits > 0 {
                crate::bits::word::lemma_pow2_minus_one(high_bits as u64);
            }
        }
        let chunk_mask: u32 = ((1u64 << high_bits) - 1) as u32;
        Function {
            seed,
            log2_l,
            high_bits,
            chunk_mask,
            num_keys,
            segment_size,
            values,
            _phantom: PhantomData,
        }
    }

    /// Returns the parts of the function: the seed, `log2_l`, the number
    /// of chunk bits, the mask of the chunk bits, the number of keys, the
    /// length of a segment and the values.
    pub fn as_parts(&self) -> (r: (u64, u32, u32, u32, usize, usize, &BitFieldVec))
        ensures
            r.0 == self.seed(),
            r.1 == self.log2_l(),
            r.2 == self.high_bits(),
            r.3 == self.chunk_mask(),
            r.4 == self.spec_len(),
            r.5 == self.segment_size(),
            *r.6 == self.values(),
    {
        (
            self.seed,
            self.log2_l,
            self.high_bits,
            self.chunk_mask,
            self.num_keys,
            self.segment_size,
            &self.values,
        )
    }

    /// Takes the function apart: the seed, `log2_l`, the number of chunk
    /// bits, the number of keys, the length of a segment and the values.
    pub fn into_parts(self) -> (r: (u64, u32, u32, usize, usize, BitFieldVec))
        ensures
            r.0 == self.seed(),
            r.1 == self.log2_l(),
            r.2 == self.high_bits(),
            r.3 == self.spec_len(),
            r.4 == self.segment_size(),
            r.5 == self.values(),
    {
        (self.seed, self.log2_l, self.high_bits, self.num_keys, self.segment_size, self.values)
    }

    /// Returns the value that goes with a signature.
    pub fn get_by_sig(&self, sig: &[u64; 2]) -> (r: u64)
        requires
            self.wf(),
        ensures
            r == self.value_of_sig(sig[0], sig[1]),
            r <= self.values().spec_mask(),
    {
        let e = edge(sig, self.log2_l, self.segment_size as u64);
        let c = chunk(sig, self.high_bits, self.chunk_mask);
        proof {
            lemma_edge_of(sig[0], sig[1], self.log2_l as nat, self.segment_size as nat);
            lemma_small_pow2(self.log2_l as nat);
            let per_chunk = vertices_per_chunk(self.log2_l as nat, self.segment_size as nat);
            let chunks = pow2(self.high_bits as nat);
            assert((c + 1) * per_chunk <= chunks * per_chunk) by (nonlinear_arith)
                requires
                    c + 1 <= chunks,
            ;
            assert((c + 1) * per_chunk == c * per_chunk + per_chunk) by (nonlinear_arith);
            self.values.lemma_wf();
        }
        // The vertices of a chunk: segment_size * (2^log2_l + 2).
        let l = 1u64 << self.log2_l;
        let chunk_offset = c * ((self.segment_size as u64) * (l + 2));
        let a = self.values.get((e[0] + chunk_offset) as usize);
        let b = self.values.get((e[1] + chunk_offset) as usize);
        let c = self.values.get((e[2] + chunk_offset) as usize);
        proof {
            crate::func::function::lemma_xor_bound(a, b, c, self.values.spec_bit_width() as u64);
        }
        a ^ b ^ c
    }

    /// Returns the value that goes with a key: for a key that the function
    /// was built from, the value that was given with it.
    pub fn get(&self, key: &T) -> (r: u64)
        requires
            self.wf(),
        ensures
            r == self.value_of(key),
            r <= self.values().spec_mask(),
    {
        self.get_by_sig(&T::remap(key, self.seed))
    }

    /// Returns the number of keys that the function was built from.
    #[verifier::when_used_as_spec(spec_len)]
    pub fn len(&self) -> (r: usize)
        ensures
            r == self.spec_len(),
    {
        self.num_keys
    }

    /// Tells whether the function was built from no key.
    pub fn is_empty(&self) -> (r: bool)
        ensures
            r == (self.spec_len() == 0),
    {
        self.len() == 0
    }
}

/// Values that fit in `n` bits are the same again when they are taken out
/// of what they were folded into, and what they fold into fits in `n` bits.
pub proof fn lemma_xor_bound(a: u64, b: u64, c: u64, n: u64)
    by (bit_vector)
    requires
        n <= 64,
        a <= low_mask(n),
        b <= low_mask(n),
        c <= low_mask(n),
    ensures
        a ^ b ^ c <= low_mask(n),
        a ^ (b ^ c) <= low_mask(n),
        (a ^ (b ^ c)) ^ b ^ c == a,
        b ^ (a ^ (b ^ c)) ^ c == a,
        b ^ c ^ (a ^ (b ^ c)) == a,
{
}

} // verus!
