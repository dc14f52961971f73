//! The Elias–Fano representation of a monotone sequence.
//!
//! Each of `n` values of at most `u` is split in two: its `l` lowest bits
//! go into a packed vector, and the rest, the high part, into a bitmap, in
//! which the value of index `i` sets the bit `high + i`. The bitmap thus
//! holds the gaps between the high parts in unary, and the set bit of rank
//! `i` gives back the high part of the value `i`.

use crate::bits::atomic_bit_field_vec::{can_load, AtomicBitFieldVec};
use crate::bits::bit_field_vec::BitFieldVec;
use crate::bits::bitmap::{
    is_select, lemma_one_bit, lemma_rank_grows, lemma_rank_of_zeros, lemma_rank_same,
    lemma_select_found, rank, select_of, Bitmap, CountingBitmap,
};
use crate::bits::word::{bit_len, bit_length, lemma_bit_len, low_mask};
use std::sync::atomic::Ordering;
use vstd::prelude::*;

verus! {

/// The number of low bits: the whole part of the logarithm of `u / n`
/// where `u` is at least `n`, and zero otherwise.
pub open spec fn low_width(u: nat, n: nat) -> nat {
    if n > 0 && u >= n {
        (bit_len((u / n) as u64) - 1) as nat
    } else {
        0
    }
}

/// The logarithm of `u / n`, rounded up; zero where `u` is at most `n`.
///
/// It is the least `k` with `u <= n * 2^k`, which is the number of bits
/// that it takes to write the whole part of `(u - 1) / n`.
pub open spec fn log2_ceil_ratio(u: nat, n: nat) -> nat {
    if n > 0 && u > n {
        bit_len((((u - 1) as nat) / n) as u64)
    } else {
        0
    }
}

/// The position of the bit that the value `value` of index `index` sets.
pub open spec fn high_position(value: usize, l: usize, index: int) -> int {
    ((value as u64) >> (l as u64)) + index
}

/// The value of index `i` that a bitmap of high parts and a vector of low
/// bits stand for.
pub open spec fn value_at(high: Seq<bool>, low: Seq<u64>, l: usize, i: int) -> u64 {
    (((select_of(high, i as nat) - i) as u64) << (l as u64)) | low[i]
}

/// A value is its high part and its low bits put together, a lower value
/// has no higher high part, and the high part of a value of at most `u` is
/// at most that of `u`.
pub proof fn lemma_split(value: u64, other: u64, l: u64)
    by (bit_vector)
    requires
        l < 64,
    ensures
        ((value >> l) << l) | (value & low_mask(l)) == value,
        value & low_mask(l) <= low_mask(l),
        value <= other ==> (value >> l) <= (other >> l),
        (value >> l) <= value,
        l > 0 ==> (1u64 << l) >= 1 && ((1u64 << l) - 1) as u64 == low_mask(l),
        l == 0 ==> (1u64 << l) == 1 && low_mask(l) == 0,
{
}

/// Splits a value into its `l` low bits and its high part.
pub fn split(value: usize, l: usize) -> (r: (u64, usize))
    requires
        l < 64,
    ensures
        r.0 == (value as u64) & low_mask(l as u64),
        r.0 <= low_mask(l as u64),
        r.1 == (value as u64) >> (l as u64),
        r.1 <= value,
{
    proof {
        lemma_split(value as u64, value as u64, l as u64);
    }
    let v = value as u64;
    let low = v & ((1u64 << l) - 1);
    let high = (v >> l) as usize;
    (low, high)
}

/// Computes the number of low bits for `n` values of at most `u`.
pub fn choose_width(u: usize, n: usize) -> (l: usize)
    ensures
        l == low_width(u as nat, n as nat),
        l < 64,
{
    if n > 0 && u >= n {
        proof {
            assert(u / n >= 1) by (nonlinear_arith)
                requires
                    u >= n,
                    n > 0,
            ;
            lemma_bit_len((u / n) as u64, 0);
        }
        bit_length((u / n) as u64) - 1
    } else {
        0
    }
}

/// Why a value could not be added to a builder.
#[derive(Debug, Clone, Copy, PartialEq, Eq)]
pub enum EliasFanoError {
    /// The value is lower than the one before it.
    NotMonotone,
}

impl EliasFanoError {
    /// Says in words what went wrong.
    pub fn message(&self) -> (r: &'static str)
        ensures
            r@ == "The values given to elias-fano are not monotone"@,
    {
        "The values given to elias-fano are not monotone"
    }
}

/// A sequential builder for the Elias–Fano representation.
pub struct EliasFanoBuilder {
    u: usize,
    n: usize,
    l: usize,
    low_bits: BitFieldVec,
    high_bits: Bitmap,
    last_value: usize,
    count: usize,
    values: Ghost<Seq<usize>>,
}

impl EliasFanoBuilder {
    /// The upper bound of the values.
    pub closed spec fn upper_bound(&self) -> usize {
        self.u
    }

    /// The number of values that the builder is for.
    pub closed spec fn capacity(&self) -> usize {
        self.n
    }

    /// The values added so far.
    pub closed spec fn values(&self) -> Seq<usize> {
        self.values@
    }

    /// The value added last; zero where there is none.
    pub open spec fn last(&self) -> usize {
        if self.values().len() == 0 {
            0
        } else {
            self.values().last()
        }
    }

    /// The position after the highest bit that is set.
    closed spec fn top(&self) -> int {
        if self.count == 0 {
            0
        } else {
            high_position(self.values@[self.count - 1], self.l, self.count - 1) + 1
        }
    }

    /// The builder holds the low bits of the values added so far and has
    /// set one bit for each of them, in ascending order.
    pub closed spec fn wf(&self) -> bool {
        &&& self.l < 64
        &&& self.l == low_width(self.u as nat, self.n as nat)
        &&& self.low_bits.wf()
        &&& self.low_bits.spec_bit_width() == self.l
        &&& self.low_bits.spec_len() == self.n
        &&& self.high_bits.wf()
        &&& self.high_bits@.len() == self.n + ((self.u as u64) >> (self.l as u64)) + 1
        &&& self.count <= self.n
        &&& self.values@.len() == self.count
        &&& self.last_value == self.last()
        &&& forall|i: int| 0 <= i < self.count ==> #[trigger] self.values@[i] <= self.u
        &&& forall|i: int, j: int|
            0 <= i <= j < self.count ==> #[trigger] self.values@[i] <= #[trigger] self.values@[j]
        &&& forall|i: int|
            0 <= i < self.count ==> #[trigger] self.low_bits@[i] == (self.values@[i] as u64)
                & low_mask(self.l as u64)
        &&& forall|i: int|
            0 <= i < self.count ==> is_select(
                self.high_bits@,
                i as nat,
                high_position(#[trigger] self.values@[i], self.l, i) as nat,
            )
        &&& forall|p: int| self.top() <= p < self.high_bits@.len() ==> !#[trigger] self.high_bits@[p]
        &&& 0 <= self.top() <= self.high_bits@.len()
        &&& rank(self.high_bits@, self.top() as nat) == self.count
    }

    /// What the invariant says of the values.
    pub proof fn lemma_wf(&self)
        requires
            self.wf(),
        ensures
            self.values().len() <= self.capacity(),
            forall|i: int| 0 <= i < self.values().len() ==> #[trigger] self.values()[i] <= self.upper_bound(),
            forall|i: int, j: int|
                0 <= i <= j < self.values().len() ==> #[trigger] self.values()[i]
                    <= #[trigger] self.values()[j],
    {
    }

    /// Creates a builder for `n` values of at most `u`.
    pub fn new(u: usize, n: usize) -> (r: Self)
        requires
            n * low_width(u as nat, n as nat) + 64 <= usize::MAX,
            n + ((u as u64) >> (low_width(u as nat, n as nat) as u64)) + 65 <= usize::MAX,
        ensures
            r.wf(),
            r.upper_bound() == u,
            r.capacity() == n,
            r.values() == Seq::<usize>::empty(),
    {
        let l = choose_width(u, n);
        let (_low, high) = split(u, l);
        Self {
            u,
            n,
            l,
            low_bits: BitFieldVec::new(l, n),
            high_bits: Bitmap::new(n + high + 1),
            last_value: 0,
            count: 0,
            values: Ghost(Seq::empty()),
        }
    }

    /// Returns an upper bound on the number of bits that `n` values of at
    /// most `u` take: two bits for each value and the logarithm of `u / n`,
    /// rounded up, for its low bits.
    pub fn mem_upperbound(u: usize, n: usize) -> (r: usize)
        requires
            2 * n + n * log2_ceil_ratio(u as nat, n as nat) <= usize::MAX,
        ensures
            r == 2 * n + n * log2_ceil_ratio(u as nat, n as nat),
    {
        let bits = if n > 0 && u > n {
            // The quotient rounded up, less one: `u - 1` over `n`.
            let q = (u - 1) / n;
            bit_length(q as u64)
        } else {
            0
        };
        assert(n * bits >= 0) by (nonlinear_arith)
            requires
                n >= 0,
                bits >= 0,
        ;
        2 * n + n * bits
    }

    /// Adds a value, which must not be lower than the one before it.
    pub fn push(&mut self, value: usize) -> (r: Result<(), EliasFanoError>)
        requires
            old(self).wf(),
            old(self).values().len() < old(self).capacity(),
            value <= old(self).upper_bound(),
        ensures
            final(self).wf(),
            final(self).upper_bound() == old(self).upper_bound(),
            final(self).capacity() == old(self).capacity(),
            r is Err <==> value < old(self).last(),
            r is Err ==> final(self).values() == old(self).values(),
            r is Ok ==> final(self).values() == old(self).values().push(value),
    {
        if value < self.last_value {
            return Err(EliasFanoError::NotMonotone);
        }
        self.push_unchecked(value);
        Ok(())
    }

    /// Adds a value that is known not to be lower than the one before it.
    #[verifier::rlimit(50)]
    pub fn push_unchecked(&mut self, value: usize)
        requires
            old(self).wf(),
            old(self).values().len() < old(self).capacity(),
            value <= old(self).upper_bound(),
            value >= old(self).last(),
        ensures
            final(self).wf(),
            final(self).upper_bound() == old(self).upper_bound(),
            final(self).capacity() == old(self).capacity(),
            final(self).values() == old(self).values().push(value),
    {
        let ghost before = self.high_bits@;
        let ghost top = self.top();
        let (low, high_part) = split(value, self.l);
        proof {
            lemma_split(value as u64, self.u as u64, self.l as u64);
            lemma_split(self.last_value as u64, value as u64, self.l as u64);
            self.low_bits.lemma_wf();
        }
        self.low_bits.set(self.count, low);
        let high = high_part + self.count;
        self.high_bits.set(high, 1);
        proof {
            let after = self.high_bits@;
            let ghost_values = self.values@.push(value);
            lemma_rank_same(before, after, high as nat);
            lemma_rank_of_zeros(before, top as nat, high as nat);
            assert forall|i: int| 0 <= i < self.count + 1 implies is_select(
                after,
                i as nat,
                high_position(#[trigger] ghost_values[i], self.l, i) as nat,
            ) by {
                if i < self.count {
                    let p = high_position(self.values@[i], self.l, i);
                    assert(is_select(before, i as nat, p as nat));
                    assert(self.values@[i] <= self.values@[self.count - 1]);
                    lemma_split(
                        self.values@[i] as u64,
                        self.values@[self.count - 1] as u64,
                        self.l as u64,
                    );
                    lemma_rank_same(before, after, p as nat);
                }
            }
            self.values = Ghost(ghost_values);
        }
        self.count += 1;
        self.last_value = value;
    }

    /// Ends the construction, once all the values have been added: the
    /// sequence holds the values in the order in which they were added.
    #[verifier::rlimit(50)]
    pub fn build(self) -> (r: EliasFano)
        requires
            self.wf(),
            self.values().len() == self.capacity(),
        ensures
            r.wf(),
            r.upper_bound() == self.upper_bound(),
            r.spec_len() == self.capacity(),
            r@ == self.values(),
    {
        proof {
            lemma_rank_of_zeros(self.high_bits@, self.top() as nat, self.high_bits@.len());
        }
        let ghost values = self.values@;
        let ghost l = self.l;
        let r = EliasFano {
            u: self.u,
            n: self.n,
            l: self.l,
            low_bits: self.low_bits,
            high_bits: self.high_bits.with_count(self.n),
        };
        proof {
            assert forall|i: int| 0 <= i < r.n implies #[trigger] value_at(
                r.high_bits@,
                r.low_bits@,
                r.l,
                i,
            ) == values[i] by {
                let p = high_position(values[i], l, i);
                lemma_select_found(r.high_bits@, i as nat, p as nat);
                lemma_split(values[i] as u64, values[i] as u64, l as u64);
            }
            assert(r@ =~= values);
        }
        r
    }
}

/// A concurrent builder for the Elias–Fano representation: threads set the
/// values of different indices at once.
pub struct EliasFanoAtomicBuilder {
    u: usize,
    n: usize,
    l: usize,
    low_bits: AtomicBitFieldVec,
    high_bits: AtomicBitFieldVec,
}

impl EliasFanoAtomicBuilder {
    /// The upper bound of the values.
    pub closed spec fn upper_bound(&self) -> usize {
        self.u
    }

    /// The number of values that the builder is for.
    pub closed spec fn capacity(&self) -> usize {
        self.n
    }

    /// The builder has room for the low bits of each value and a bit for
    /// each high part.
    pub closed spec fn wf(&self) -> bool {
        &&& self.l < 64
        &&& self.l == low_width(self.u as nat, self.n as nat)
        &&& self.low_bits.wf()
        &&& self.low_bits.spec_bit_width() == self.l
        &&& self.low_bits.spec_len() == self.n
        &&& self.high_bits.wf()
        &&& self.high_bits.spec_bit_width() == 1
        &&& self.high_bits.spec_len() == self.n + ((self.u as u64) >> (self.l as u64)) + 1
    }

    /// Creates a builder for `n` values of at most `u`.
    pub fn new(u: usize, n: usize) -> (r: Self)
        requires
            n * low_width(u as nat, n as nat) + 64 <= usize::MAX,
            n + ((u as u64) >> (low_width(u as nat, n as nat) as u64)) + 65 <= usize::MAX,
        ensures
            r.wf(),
            r.upper_bound() == u,
            r.capacity() == n,
    {
        let l = choose_width(u, n);
        let (_low, high) = split(u, l);
        Self {
            u,
            n,
            l,
            low_bits: AtomicBitFieldVec::new(l, n),
            high_bits: AtomicBitFieldVec::new(1, n + high + 1),
        }
    }

    /// Returns an upper bound on the number of bits that `n` values of at
    /// most `u` take.
    pub fn mem_upperbound(u: u64, n: u64) -> (r: u64)
        requires
            2 * n + n * log2_ceil_ratio(u as nat, n as nat) <= u64::MAX,
        ensures
            r == 2 * n + n * log2_ceil_ratio(u as nat, n as nat),
    {
        let bits: u64 = if n > 0 && u > n {
            let q = (u - 1) / n;
            bit_length(q) as u64
        } else {
            0
        };
        assert(n * bits >= 0) by (nonlinear_arith)
            requires
                n >= 0,
                bits >= 0,
        ;
        2 * n + n * bits
    }

    /// Where the value `value` of index `index` goes: its low bits, and
    /// the position of its bit.
    fn place(&self, index: usize, value: usize) -> (r: (u64, usize))
        requires
            self.wf(),
            index < self.capacity(),
            value <= self.upper_bound(),
        ensures
            r.0 <= self.low_bits.spec_mask(),
            r.1 < self.high_bits.spec_len(),
            self.low_bits.spec_bit_width() < 64,
            self.high_bits.spec_bit_width() < 64,
            1 <= self.high_bits.spec_mask(),
            index < self.low_bits.spec_len(),
    {
        let (low, high_part) = split(value, self.l);
        proof {
            lemma_split(value as u64, self.u as u64, self.l as u64);
            self.low_bits.lemma_wf();
            self.high_bits.lemma_wf();
            lemma_one_bit();
        }
        (low, high_part + index)
    }

    /// Sets the value of index `index`. The values have to be monotone in
    /// their indices and each index has to be set once, which is for the
    /// callers to see to.
    pub fn set_atomic(&self, index: usize, value: usize, order: Ordering)
        requires
            self.wf(),
            index < self.capacity(),
            value <= self.upper_bound(),
            can_load(order),
    {
        let (low, high) = self.place(index, value);
        self.low_bits.set_atomic_unchecked(index, low, order);
        self.high_bits.set_atomic_unchecked(high, 1, order);
    }

    /// Ends the construction. What the sequence holds is what the threads
    /// have written, which [`EliasFano::validate`] checks.
    pub fn build(self) -> (r: EliasFano)
        requires
            self.wf(),
        ensures
            r.upper_bound() == self.upper_bound(),
            r.spec_len() == self.capacity(),
            r.low_width() == low_width(self.upper_bound() as nat, self.capacity() as nat),
            r.low_bits().wf(),
            r.low_bits().spec_bit_width() == r.low_width(),
            r.low_bits().spec_len() == r.spec_len(),
            r.high_bits().wf(),
    {
        let high = Bitmap::from_raw_parts(self.high_bits.convert_to());
        let ones = high.count_ones();
        EliasFano {
            u: self.u,
            n: self.n,
            l: self.l,
            low_bits: self.low_bits.convert_to(),
            high_bits: high.with_count(ones),
        }
    }
}

/// A monotone sequence in the Elias–Fano representation.
#[derive(Debug, Clone, Hash)]
pub struct EliasFano {
    /// The upper bound of the values.
    u: usize,
    /// The number of values.
    n: usize,
    /// The number of low bits.
    l: usize,
    /// The `l` lowest bits of each value.
    low_bits: BitFieldVec,
    /// The gaps between the high parts, in unary.
    high_bits: CountingBitmap,
}

impl View for EliasFano {
    type V = Seq<usize>;

    /// The values, in order.
    open spec fn view(&self) -> Seq<usize> {
        Seq::new(
            self.spec_len() as nat,
            |i: int| value_at(self.high_bits()@, self.low_bits()@, self.low_width(), i) as usize,
        )
    }
}

impl EliasFano {
    /// The upper bound of the values.
    pub closed spec fn upper_bound(&self) -> usize {
        self.u
    }

    /// The number of values.
    pub closed spec fn spec_len(&self) -> usize {
        self.n
    }

    /// The number of low bits.
    pub closed spec fn low_width(&self) -> usize {
        self.l
    }

    /// The low bits of the values.
    pub closed spec fn low_bits(&self) -> BitFieldVec {
        self.low_bits
    }

    /// The bitmap of the high parts.
    pub closed spec fn high_bits(&self) -> CountingBitmap {
        self.high_bits
    }

    /// The two parts fit together: there are low bits and a set bit for
    /// each value, and each value fits in a machine word.
    pub open spec fn wf(&self) -> bool {
        &&& self.low_width() < 64
        &&& self.low_bits().wf()
        &&& self.low_bits().spec_bit_width() == self.low_width()
        &&& self.low_bits().spec_len() == self.spec_len()
        &&& self.high_bits().wf()
        &&& self.high_bits().spec_count() == self.spec_len()
        &&& forall|i: int|
            0 <= i < self.spec_len() ==> #[trigger] value_at(
                self.high_bits()@,
                self.low_bits()@,
                self.low_width(),
                i,
            ) <= usize::MAX
    }

    /// Tells whether the two parts fit together.
    pub fn validate(&self) -> (r: bool)
        requires
            self.high_bits().wf(),
        ensures
            r == self.wf(),
    {
        if !(self.l < 64 && self.low_bits.is_valid() && self.low_bits.bit_width() == self.l
            && self.low_bits.len() == self.n && self.high_bits.count() == self.n) {
            return false;
        }
        // One pass over the bitmap: the set bit of rank `i` gives the value `i`.
        let len = self.high_bits.len();
        let mut i: usize = 0;
        let mut p: usize = 0;
        while p < len
            invariant
                p <= len,
                len == self.high_bits@.len(),
                i <= p,
                i <= self.n,
                i == rank(self.high_bits@, p as nat),
                self.l < 64,
                self.low_bits.wf(),
                self.low_bits.spec_bit_width() == self.l,
                self.low_bits.spec_len() == self.n,
                self.high_bits.wf(),
                self.high_bits.spec_count() == self.n,
                forall|j: int|
                    0 <= j < i ==> #[trigger] value_at(self.high_bits@, self.low_bits@, self.l, j)
                        <= usize::MAX,
            decreases len - p,
        {
            if self.high_bits.get(p) == 1 {
                proof {
                    lemma_rank_grows(self.high_bits@, (p + 1) as nat, len as nat);
                    lemma_select_found(self.high_bits@, i as nat, p as nat);
                }
                let value = (((p - i) as u64) << self.l) | self.low_bits.get_unchecked(i);
                assert(value == value_at(self.high_bits@, self.low_bits@, self.l, i as int));
                if value > usize::MAX as u64 {
                    return false;
                }
                i += 1;
            }
            p += 1;
        }
        true
    }

    /// Computes the value of index `index` as a word of 64 bits.
    fn value(&self, index: usize) -> (r: u64)
        requires
            self.l < 64,
            self.low_bits.wf(),
            self.low_bits.spec_len() == self.n,
            self.high_bits.wf(),
            self.high_bits.spec_count() == self.n,
            index < self.n,
        ensures
            r == value_at(self.high_bits@, self.low_bits@, self.l, index as int),
    {
        let position = self.high_bits.select_unchecked(index);
        proof {
            lemma_rank_grows(self.high_bits@, 0, position as nat);
        }
        let high = position - index;
        let low = self.low_bits.get_unchecked(index);
        ((high as u64) << self.l) | low
    }

    /// Applies `func` to the two parts and puts what it returns in their place.
    pub fn monad<F: FnOnce(CountingBitmap, BitFieldVec) -> (CountingBitmap, BitFieldVec)>(
        self,
        func: F,
    ) -> (r: EliasFano)
        requires
            call_requires(func, (self.high_bits(), self.low_bits())),
        ensures
            r.upper_bound() == self.upper_bound(),
            r.spec_len() == self.spec_len(),
            r.low_width() == self.low_width(),
            call_ensures(func, (self.high_bits(), self.low_bits()), (r.high_bits(), r.low_bits())),
    {
        let (high_bits, low_bits) = func(self.high_bits, self.low_bits);
        EliasFano { u: self.u, n: self.n, l: self.l, low_bits, high_bits }
    }

    /// Puts a sequence together from its parts.
    pub fn from_raw_parts(
        u: usize,
        n: usize,
        l: usize,
        low_bits: BitFieldVec,
        high_bits: CountingBitmap,
    ) -> (r: Self)
        ensures
            r.upper_bound() == u,
            r.spec_len() == n,
            r.low_width() == l,
            r.low_bits() == low_bits,
            r.high_bits() == high_bits,
    {
        Self { u, n, l, low_bits, high_bits }
    }

    /// Returns the parts of the sequence: the upper bound, the number of
    /// values, the number of low bits, the low bits and the bitmap of the
    /// high parts.
    pub fn as_raw_parts(&self) -> (r: (usize, usize, usize, &BitFieldVec, &CountingBitmap))
        ensures
            r.0 == self.upper_bound(),
            r.1 == self.spec_len(),
            r.2 == self.low_width(),
            *r.3 == self.low_bits(),
            *r.4 == self.high_bits(),
    {
        (self.u, self.n, self.l, &self.low_bits, &self.high_bits)
    }

    /// Takes a sequence apart: the upper bound, the number of values, the
    /// number of low bits, the low bits and the bitmap of the high parts.
    pub fn into_raw_parts(self) -> (r: (usize, usize, usize, BitFieldVec, CountingBitmap))
        ensures
            r.0 == self.upper_bound(),
            r.1 == self.spec_len(),
            r.2 == self.low_width(),
            r.3 == self.low_bits(),
            r.4 == self.high_bits(),
    {
        (self.u, self.n, self.l, self.low_bits, self.high_bits)
    }

    /// Returns the number of values.
    #[verifier::when_used_as_spec(spec_len)]
    pub fn len(&self) -> (r: usize)
        ensures
            r == self.spec_len(),
    {
        self.n
    }

    /// Returns the number of values.
    pub fn count(&self) -> (r: usize)
        ensures
            r == self.spec_len(),
    {
        self.n
    }

    /// Returns the value of index `index`.
    pub fn get_unchecked(&self, index: usize) -> (r: usize)
        requires
            self.wf(),
            index < self.spec_len(),
        ensures
            r == self@[index as int],
    {
        assert(value_at(self.high_bits@, self.low_bits@, self.l, index as int) <= usize::MAX);
        self.value(index) as usize
    }

    /// Returns the value of index `index`.
    pub fn get(&self, index: usize) -> (r: usize)
        requires
            self.wf(),
            index < self.spec_len(),
        ensures
            r == self@[index as int],
    {
        self.get_unchecked(index)
    }

    /// Returns the value of rank `rank`: the sequence seen as the set of
    /// its values.
    pub fn select_unchecked(&self, rank: usize) -> (r: usize)
        requires
            self.wf(),
            rank < self.spec_len(),
        ensures
            r == self@[rank as int],
    {
        self.get_unchecked(rank)
    }
}

} // verus!
