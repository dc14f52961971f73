//! Bitmaps: packed vectors of single bits, and bitmaps that know how many
//! of their bits are set and can find the set bit of a given rank.

use crate::bits::bit_field_vec::BitFieldVec;
use crate::bits::word::{lemma_masked, low_mask};
use vstd::prelude::*;

verus! {

/// The number of set bits among the first `p` bits.
pub open spec fn rank(bits: Seq<bool>, p: nat) -> nat
    decreases p,
{
    if p == 0 {
        0
    } else {
        rank(bits, (p - 1) as nat) + if bits[p - 1] {
            1nat
        } else {
            0nat
        }
    }
}

/// The bit `p` is set and `r` set bits come before it: it is the set bit
/// of rank `r`.
pub open spec fn is_select(bits: Seq<bool>, r: nat, p: nat) -> bool {
    p < bits.len() && bits[p as int] && rank(bits, p) == r
}

/// The position of the set bit of rank `r`.
pub open spec fn select_of(bits: Seq<bool>, r: nat) -> nat {
    choose|p: nat| is_select(bits, r, p)
}

/// The bits that the values of a packed vector of single bits stand for.
pub open spec fn as_bits(values: Seq<u64>) -> Seq<bool> {
    Seq::new(values.len(), |i: int| values[i] == 1)
}

/// The rank grows with the position, by at most one for each bit.
pub proof fn lemma_rank_grows(bits: Seq<bool>, p: nat, q: nat)
    requires
        p <= q,
    ensures
        rank(bits, p) <= rank(bits, q) <= rank(bits, p) + (q - p),
    decreases q,
{
    if p < q {
        lemma_rank_grows(bits, p, (q - 1) as nat);
    }
}

/// There is one set bit of each rank at most.
pub proof fn lemma_select_unique(bits: Seq<bool>, r: nat, p: nat, q: nat)
    requires
        is_select(bits, r, p),
        is_select(bits, r, q),
    ensures
        p == q,
{
    if p < q {
        lemma_rank_grows(bits, p + 1, q);
    } else if q < p {
        lemma_rank_grows(bits, q + 1, p);
    }
}

/// The set bit of rank `r`, once found, is the one that `select_of` names.
pub proof fn lemma_select_found(bits: Seq<bool>, r: nat, p: nat)
    requires
        is_select(bits, r, p),
    ensures
        select_of(bits, r) == p,
{
    lemma_select_unique(bits, r, p, select_of(bits, r));
}

/// Among the first `n` bits there is a set bit of each rank below the
/// number of set bits.
pub proof fn lemma_select_exists(bits: Seq<bool>, r: nat, n: nat)
    requires
        n <= bits.len(),
        r < rank(bits, n),
    ensures
        is_select(bits, r, select_of(bits, r)),
        select_of(bits, r) < n,
    decreases n,
{
    let m = (n - 1) as nat;
    if bits[m as int] && rank(bits, m) == r {
        lemma_select_found(bits, r, m);
    } else {
        lemma_select_exists(bits, r, m);
    }
}

/// Bits that do not differ before `p` have the same rank at `p`.
pub proof fn lemma_rank_same(a: Seq<bool>, b: Seq<bool>, p: nat)
    requires
        forall|i: int| 0 <= i < p ==> a[i] == b[i],
    ensures
        rank(a, p) == rank(b, p),
    decreases p,
{
    if p > 0 {
        lemma_rank_same(a, b, (p - 1) as nat);
    }
}

/// Where no bit is set the rank is zero.
pub proof fn lemma_rank_of_zeros(bits: Seq<bool>, from: nat, p: nat)
    requires
        from <= p,
        forall|i: int| from <= i < p ==> !bits[i],
    ensures
        rank(bits, p) == rank(bits, from),
    decreases p,
{
    if from < p {
        lemma_rank_of_zeros(bits, from, (p - 1) as nat);
    }
}

/// A word of one bit is its lowest bit.
pub proof fn lemma_one_bit()
    ensures
        low_mask(1) == 1,
{
    lemma_masked(0, 0);
}

/// A vector of bits.
#[derive(Debug, Clone, Hash)]
pub struct Bitmap {
    bits: BitFieldVec,
}

impl View for Bitmap {
    type V = Seq<bool>;

    /// The bits, in order.
    open spec fn view(&self) -> Seq<bool> {
        as_bits(self.values()@)
    }
}

impl Bitmap {
    /// The packed vector of single bits that holds the bits.
    pub closed spec fn values(&self) -> BitFieldVec {
        self.bits
    }

    /// The bits are held in a packed vector of width one.
    pub open spec fn wf(&self) -> bool {
        self.values().wf() && self.values().spec_bit_width() == 1
    }

    /// Creates a bitmap of `len` bits, none of which is set.
    pub fn new(len: usize) -> (r: Self)
        requires
            len + 64 <= usize::MAX,
        ensures
            r.wf(),
            r@ == Seq::new(len as nat, |i: int| false),
    {
        let r = Bitmap { bits: BitFieldVec::new(1, len) };
        assert(r@ =~= Seq::new(len as nat, |i: int| false));
        r
    }

    /// Makes a bitmap of a packed vector of single bits.
    pub fn from_raw_parts(bits: BitFieldVec) -> (r: Self)
        requires
            bits.wf(),
            bits.spec_bit_width() == 1,
        ensures
            r.wf(),
            r.values() == bits,
    {
        Bitmap { bits }
    }

    /// Returns the packed vector of single bits.
    pub fn as_values(&self) -> (r: &BitFieldVec)
        ensures
            *r == self.values(),
    {
        &self.bits
    }

    /// Gives back the packed vector of single bits.
    pub fn into_raw_parts(self) -> (r: BitFieldVec)
        ensures
            r == self.values(),
    {
        self.bits
    }

    /// Returns the number of bits.
    pub fn len(&self) -> (r: usize)
        ensures
            r == self@.len(),
    {
        self.bits.len()
    }

    /// Returns the bit at `index`, as a number.
    pub fn get(&self, index: usize) -> (r: u64)
        requires
            self.wf(),
            index < self@.len(),
        ensures
            r == (if self@[index as int] {
                1u64
            } else {
                0u64
            }),
    {
        proof {
            lemma_one_bit();
            self.bits.lemma_wf();
        }
        self.bits.get(index)
    }

    /// Sets the bit at `index` if `value` is one and clears it if `value`
    /// is zero; the other bits stay.
    pub fn set(&mut self, index: usize, value: u64)
        requires
            old(self).wf(),
            index < old(self)@.len(),
            value <= 1,
        ensures
            final(self).wf(),
            final(self)@ == old(self)@.update(index as int, value == 1),
    {
        proof {
            lemma_one_bit();
            self.bits.lemma_wf();
        }
        self.bits.set(index, value);
        assert(self@ =~= old(self)@.update(index as int, value == 1));
    }

    /// Counts the bits that are set.
    pub fn count_ones(&self) -> (r: usize)
        requires
            self.wf(),
        ensures
            r == rank(self@, self@.len()),
    {
        let n = self.bits.len();
        let mut ones: usize = 0;
        let mut p: usize = 0;
        while p < n
            invariant
                p <= n,
                n == self@.len(),
                self.wf(),
                ones == rank(self@, p as nat),
                ones <= p,
            decreases n - p,
        {
            if self.get(p) == 1 {
                ones += 1;
            }
            p += 1;
        }
        ones
    }

    /// Makes a counting bitmap of the bitmap, given the number of bits
    /// that are set.
    pub fn with_count(self, number_of_ones: usize) -> (r: CountingBitmap)
        requires
            self.wf(),
            number_of_ones == rank(self@, self@.len()),
        ensures
            r.wf(),
            r@ == self@,
            r.spec_count() == number_of_ones,
    {
        CountingBitmap { bits: self.bits, number_of_ones }
    }
}

/// A vector of bits that knows how many of them are set.
#[derive(Debug, Clone, Hash)]
pub struct CountingBitmap {
    bits: BitFieldVec,
    number_of_ones: usize,
}

impl View for CountingBitmap {
    type V = Seq<bool>;

    /// The bits, in order.
    open spec fn view(&self) -> Seq<bool> {
        as_bits(self.values()@)
    }
}

impl CountingBitmap {
    /// The packed vector of single bits that holds the bits.
    pub closed spec fn values(&self) -> BitFieldVec {
        self.bits
    }

    /// The number of set bits that the bitmap remembers.
    pub closed spec fn spec_count(&self) -> usize {
        self.number_of_ones
    }

    /// The bits are held in a packed vector of width one, and the number
    /// that the bitmap remembers is the number of set bits.
    pub open spec fn wf(&self) -> bool {
        &&& self.values().wf()
        &&& self.values().spec_bit_width() == 1
        &&& self.spec_count() == rank(self@, self@.len())
    }

    /// Makes a counting bitmap of a packed vector of single bits and the
    /// number of its set bits.
    pub fn from_raw_parts(bits: BitFieldVec, number_of_ones: usize) -> (r: Self)
        requires
            bits.wf(),
            bits.spec_bit_width() == 1,
            number_of_ones == rank(as_bits(bits@), bits@.len()),
        ensures
            r.wf(),
            r.values() == bits,
            r.spec_count() == number_of_ones,
    {
        CountingBitmap { bits, number_of_ones }
    }

    /// Returns the packed vector of single bits.
    pub fn as_values(&self) -> (r: &BitFieldVec)
        ensures
            *r == self.values(),
    {
        &self.bits
    }

    /// Gives back the packed vector of single bits and the number of set bits.
    pub fn into_raw_parts(self) -> (r: (BitFieldVec, usize))
        ensures
            r.0 == self.values(),
            r.1 == self.spec_count(),
    {
        (self.bits, self.number_of_ones)
    }

    /// Returns the number of bits.
    pub fn len(&self) -> (r: usize)
        ensures
            r == self@.len(),
    {
        self.bits.len()
    }

    /// Returns the number of bits that are set.
    #[verifier::when_used_as_spec(spec_count)]
    pub fn count(&self) -> (r: usize)
        ensures
            r == self.spec_count(),
    {
        self.number_of_ones
    }

    /// Returns the bit at `index`, as a number.
    pub fn get(&self, index: usize) -> (r: u64)
        requires
            self.wf(),
            index < self@.len(),
        ensures
            r == (if self@[index as int] {
                1u64
            } else {
                0u64
            }),
    {
        proof {
            lemma_one_bit();
            self.bits.lemma_wf();
        }
        self.bits.get(index)
    }

    /// Returns the position of the set bit of rank `rank`, if there are
    /// more set bits than that.
    pub fn select(&self, rank: usize) -> (r: Option<usize>)
        requires
            self.wf(),
        ensures
            r is Some <==> rank < self.spec_count(),
            r matches Some(p) ==> is_select(self@, rank as nat, p as nat) && p == select_of(
                self@,
                rank as nat,
            ),
    {
        if rank >= self.number_of_ones {
            return None;
        }
        Some(self.select_unchecked(rank))
    }

    /// Returns the position of the set bit of rank `rank`.
    pub fn select_unchecked(&self, rank: usize) -> (r: usize)
        requires
            self.wf(),
            rank < self.spec_count(),
        ensures
            is_select(self@, rank as nat, r as nat),
            r == select_of(self@, rank as nat),
    {
        let n = self.bits.len();
        let mut seen: usize = 0;
        let mut p: usize = 0;
        while p < n
            invariant
                p <= n,
                n == self@.len(),
                self.wf(),
                seen == crate::bits::bitmap::rank(self@, p as nat),
                seen <= rank,
                seen <= p,
            decreases n - p,
        {
            if self.get(p) == 1 {
                if seen == rank {
                    proof {
                        lemma_select_found(self@, rank as nat, p as nat);
                    }
                    return p;
                }
                seen += 1;
            }
            p += 1;
        }
        // There are more set bits than `rank`, so one of them was found.
        assert(false);
        0
    }
}

} // verus!
