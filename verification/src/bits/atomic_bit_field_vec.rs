//! A vector of values of fixed bit width that threads can share.
//!
//! The layout is that of [`BitFieldVec`]. Where the bit width divides the
//! word size no value lies across two words, and reading and writing are
//! safe between threads; otherwise a value that lies across two words is
//! written in two steps, and two threads that write the same such value at
//! once may each leave one half. What other threads do cannot be told from
//! inside one thread: of a value read, only its width is known.

use crate::bits::bit_field_vec::{
    capacity_of, field_at, field_update, lemma_word_of, lemma_words_with, read_field, words_with,
    BitFieldVec,
};
use crate::bits::word::{divides_word, lemma_masked, low_mask, mask};
use std::sync::atomic::{compiler_fence, fence, AtomicU64, Ordering};
use vstd::prelude::*;

verus! {

/// A tentatively thread-safe vector of bit fields of fixed width.
#[derive(Debug)]
pub struct AtomicBitFieldVec {
    /// The underlying storage.
    data: Vec<AtomicU64>,
    /// The bit width of the values stored in the vector.
    bit_width: usize,
    /// A mask with its lowest `bit_width` bits set to one.
    mask: u64,
    /// The length of the vector.
    len: usize,
}

/// Keeps the bits of `word` that `keep` marks and sets those of `bits`.
pub fn merged(word: u64, keep: u64, bits: u64) -> (r: Option<u64>)
    ensures
        r == Some((word & keep) | bits),
{
    Some((word & keep) | bits)
}

/// The memory order can be used to read: it does not ask for a release.
pub open spec fn can_load(order: Ordering) -> bool {
    order == Ordering::Relaxed || order == Ordering::Acquire || order == Ordering::SeqCst
}

/// Replaces the word of `cell` by what `merged` makes of it, in one step.
///
/// Calls `AtomicU64::fetch_update`, which reads the word, applies the
/// function and stores the result unless the word has changed meanwhile,
/// in which case it starts again. It panics where the order of the read
/// asks for a release, which is left out here.
#[verifier::external_body]
fn update_word(cell: &AtomicU64, keep: u64, bits: u64, order: Ordering)
    requires
        can_load(order),
{
    let _ = cell.fetch_update(order, order, |word| merged(word, keep, bits));
}

/// Keeps memory accesses from moving across this point.
///
/// Calls `std::sync::atomic::fence`, which panics for the relaxed order.
#[verifier::external_body]
fn memory_fence(order: Ordering)
    requires
        order != Ordering::Relaxed,
{
    fence(order);
}

/// Keeps the compiler from moving memory accesses across this point.
///
/// Calls `std::sync::atomic::compiler_fence`, which panics for the relaxed order.
#[verifier::external_body]
fn memory_compiler_fence(order: Ordering)
    requires
        order != Ordering::Relaxed,
{
    compiler_fence(order);
}

/// The words after the writes of `writes`, each an index and a value, have
/// taken effect one after the other.
pub open spec fn after_writes(words: Seq<u64>, bit_width: nat, writes: Seq<(nat, u64)>) -> Seq<u64>
    decreases writes.len(),
{
    if writes.len() == 0 {
        words
    } else {
        words_with(
            after_writes(words, bit_width, writes.drop_last()),
            bit_width,
            writes.last().0,
            writes.last().1,
        )
    }
}

/// Writes do not change the number of words.
pub proof fn lemma_after_writes_len(
    words: Seq<u64>,
    bit_width: nat,
    len: nat,
    writes: Seq<(nat, u64)>,
)
    requires
        bit_width <= 64,
        words.len() >= 1,
        len * bit_width <= 64 * words.len(),
        forall|k: int|
            0 <= k < writes.len() ==> (#[trigger] writes[k]).0 < len && writes[k].1 <= low_mask(
                bit_width as u64,
            ),
    ensures
        after_writes(words, bit_width, writes).len() == words.len(),
    decreases writes.len(),
{
    if writes.len() > 0 {
        let before = writes.drop_last();
        assert forall|k: int| 0 <= k < before.len() implies (#[trigger] before[k]).0 < len
            && before[k].1 <= low_mask(bit_width as u64) by {
            assert(before[k] == writes[k]);
        }
        lemma_after_writes_len(words, bit_width, len, before);
        lemma_words_with(
            after_writes(words, bit_width, before),
            bit_width,
            len,
            writes.last().0,
            writes.last().1,
        );
    }
}

/// Where the bit width divides the word size, so that each write changes a
/// single word in one step, and each index is written by one thread only,
/// which writes the value `id_of` of the index: in whatever order the writes
/// take effect, an index that was written holds its value in the end.
///
/// That the writes of the threads take effect in some order is what the
/// processor gives for changes of a single word, and is not stated here.
pub proof fn lemma_exclusive_writes(
    words: Seq<u64>,
    bit_width: nat,
    len: nat,
    writes: Seq<(nat, u64)>,
    id_of: spec_fn(nat) -> u64,
    index: nat,
)
    requires
        divides_word(bit_width),
        words.len() >= 1,
        len * bit_width <= 64 * words.len(),
        forall|k: int|
            0 <= k < writes.len() ==> (#[trigger] writes[k]).0 < len && writes[k].1 <= low_mask(
                bit_width as u64,
            ) && writes[k].1 == id_of(writes[k].0),
        exists|k: int| 0 <= k < writes.len() && (#[trigger] writes[k]).0 == index,
    ensures
        field_at(after_writes(words, bit_width, writes), bit_width, index) == id_of(index),
    decreases writes.len(),
{
    let before = writes.drop_last();
    let last = writes.last();
    assert forall|k: int| 0 <= k < before.len() implies (#[trigger] before[k]).0 < len
        && before[k].1 <= low_mask(bit_width as u64) && before[k].1 == id_of(before[k].0) by {
        assert(before[k] == writes[k]);
    }
    lemma_after_writes_len(words, bit_width, len, before);
    let sofar = after_writes(words, bit_width, before);
    lemma_words_with(sofar, bit_width, len, last.0, last.1);
    if last.0 != index {
        let k = choose|k: int| 0 <= k < writes.len() && (#[trigger] writes[k]).0 == index;
        assert(before[k] == writes[k]);
        lemma_exclusive_writes(words, bit_width, len, before, id_of, index);
    }
}

impl AtomicBitFieldVec {
    /// The number of words that back the vector.
    pub closed spec fn spec_words(&self) -> nat {
        self.data@.len()
    }

    /// The bit width of the values.
    pub closed spec fn spec_bit_width(&self) -> usize {
        self.bit_width
    }

    /// The number of values.
    pub closed spec fn spec_len(&self) -> usize {
        self.len
    }

    /// The mask that keeps `bit_width` bits: the largest value an element can hold.
    pub closed spec fn spec_mask(&self) -> u64 {
        self.mask
    }

    /// The representation invariant, which is that of [`BitFieldVec`].
    pub closed spec fn wf(&self) -> bool {
        &&& self.bit_width <= 64
        &&& self.mask == low_mask(self.bit_width as u64)
        &&& self.data@.len() >= 1
        &&& self.len * self.bit_width <= 64 * self.data@.len()
        &&& self.len * self.bit_width + 64 <= usize::MAX
    }

    /// What the invariant says, for users of the vector.
    pub proof fn lemma_wf(&self)
        requires
            self.wf(),
        ensures
            self.spec_bit_width() <= 64,
            self.spec_mask() == low_mask(self.spec_bit_width() as u64),
            self.spec_words() >= 1,
            self.spec_len() * self.spec_bit_width() <= 64 * self.spec_words(),
    {
    }

    /// Makes `n` cells that hold `word`.
    fn cells(n: usize, word: u64) -> (r: Vec<AtomicU64>)
        ensures
            r@.len() == n,
    {
        let mut data: Vec<AtomicU64> = Vec::with_capacity(n);
        let mut i: usize = 0;
        while i < n
            invariant
                i <= n,
                data@.len() == i,
            decreases n - i,
        {
            data.push(AtomicU64::new(word));
            i += 1;
        }
        data
    }

    /// Returns a new vector of `len` values whose words all hold `word`.
    pub fn fill_words(bit_width: usize, len: usize, word: u64) -> (r: Self)
        requires
            bit_width <= 64,
            len * bit_width + 64 <= usize::MAX,
        ensures
            r.wf(),
            r.spec_bit_width() == bit_width,
            r.spec_len() == len,
    {
        assert(len * bit_width <= usize::MAX);
        let needed = (len * bit_width + 63) / 64;
        let n_of_words = if needed < 1 {
            1
        } else {
            needed
        };
        Self { data: Self::cells(n_of_words, word), bit_width, mask: mask(bit_width), len }
    }

    /// Returns a new vector of given bit width and length, every value of
    /// which is `value`.
    pub fn fill(bit_width: usize, len: usize, value: u64) -> (r: Self)
        requires
            bit_width <= 64,
            len * bit_width + 64 <= usize::MAX,
            value <= low_mask(bit_width as u64),
        ensures
            r.wf(),
            r.spec_bit_width() == bit_width,
            r.spec_len() == len,
    {
        BitFieldVec::fill(bit_width, len, value).convert_to()
    }

    /// Returns the number of values that the vector can hold without
    /// reallocating: at least its length.
    pub fn capacity(&self) -> (r: usize)
        requires
            self.wf(),
            self.spec_bit_width() > 0,
        ensures
            r >= self.spec_len(),
    {
        let words = capacity_of(&self.data);
        let bits = (words as u128) * 64;
        let values = bits / (self.bit_width as u128);
        assert(values >= self.len) by (nonlinear_arith)
            requires
                values == (words * 64) / (self.bit_width as int),
                self.len * self.bit_width <= 64 * words,
                self.bit_width > 0,
        ;
        if values > usize::MAX as u128 {
            usize::MAX
        } else {
            values as usize
        }
    }

    /// Returns a new vector of `len` zeros.
    pub fn new(bit_width: usize, len: usize) -> (r: Self)
        requires
            bit_width <= 64,
            len * bit_width + 64 <= usize::MAX,
        ensures
            r.wf(),
            r.spec_bit_width() == bit_width,
            r.spec_len() == len,
    {
        Self::fill_words(bit_width, len, 0)
    }

    /// Creates an empty vector that does not need to reallocate for up to
    /// `capacity` values.
    pub fn with_capacity(bit_width: usize, capacity: usize) -> (r: Self)
        requires
            bit_width <= 64,
            capacity * bit_width + 64 <= usize::MAX,
        ensures
            r.wf(),
            r.spec_bit_width() == bit_width,
            r.spec_len() == 0,
    {
        assert(capacity * bit_width <= usize::MAX);
        let needed = (capacity * bit_width + 63) / 64;
        // At least one word, to handle the case of bit width zero.
        let n_of_words = if needed < 1 {
            1
        } else {
            needed
        };
        let mut data: Vec<AtomicU64> = Vec::with_capacity(n_of_words);
        data.push(AtomicU64::new(0));
        Self { data, bit_width, mask: mask(bit_width), len: 0 }
    }

    /// Creates a new vector of given bit width and length whose values are
    /// not specified.
    pub fn new_uninit(bit_width: usize, len: usize) -> (r: Self)
        requires
            bit_width <= 64,
            len * bit_width + 64 <= usize::MAX,
        ensures
            r.wf(),
            r.spec_bit_width() == bit_width,
            r.spec_len() == len,
    {
        Self::fill_words(bit_width, len, 0)
    }

    /// Creates a new vector of given bit width and length whose values have
    /// all their bits set.
    pub fn new_ones(bit_width: usize, len: usize) -> (r: Self)
        requires
            bit_width <= 64,
            len * bit_width + 64 <= usize::MAX,
        ensures
            r.wf(),
            r.spec_bit_width() == bit_width,
            r.spec_len() == len,
    {
        Self::fill_words(bit_width, len, u64::MAX)
    }

    /// Sets the length, keeping the words.
    pub fn set_len(&mut self, len: usize)
        requires
            old(self).wf(),
            len * old(self).spec_bit_width() <= 64 * old(self).spec_words(),
            len * old(self).spec_bit_width() + 64 <= usize::MAX,
        ensures
            final(self).wf(),
            final(self).spec_bit_width() == old(self).spec_bit_width(),
            final(self).spec_words() == old(self).spec_words(),
            final(self).spec_len() == len,
    {
        self.len = len;
    }

    /// Stores `word` in every cell.
    fn store_all(&mut self, word: u64)
        requires
            old(self).wf(),
        ensures
            final(self).wf(),
            final(self).spec_bit_width() == old(self).spec_bit_width(),
            final(self).spec_len() == old(self).spec_len(),
            final(self).spec_words() == old(self).spec_words(),
    {
        let n = self.data.len();
        let mut k: usize = 0;
        while k < n
            invariant
                k <= n,
                n == self.data@.len(),
                *self == *old(self),
            decreases n - k,
        {
            self.data[k].store(word, Ordering::Relaxed);
            k += 1;
        }
    }

    /// Writes zero to all bits of the vector.
    pub fn reset(&mut self)
        requires
            old(self).wf(),
        ensures
            final(self).wf(),
            final(self).spec_bit_width() == old(self).spec_bit_width(),
            final(self).spec_len() == old(self).spec_len(),
            final(self).spec_words() == old(self).spec_words(),
    {
        self.store_all(0);
    }

    /// Writes one to all bits of the vector.
    pub fn reset_ones(&mut self)
        requires
            old(self).wf(),
        ensures
            final(self).wf(),
            final(self).spec_bit_width() == old(self).spec_bit_width(),
            final(self).spec_len() == old(self).spec_len(),
            final(self).spec_words() == old(self).spec_words(),
    {
        self.store_all(u64::MAX);
    }

    /// Removes every value; the bit width stays.
    pub fn clear(&mut self)
        requires
            old(self).wf(),
        ensures
            final(self).wf(),
            final(self).spec_bit_width() == old(self).spec_bit_width(),
            final(self).spec_len() == 0,
            final(self).spec_words() == 1,
    {
        // One word stays, to handle the case of bit width zero.
        self.data.truncate(1);
        self.len = 0;
    }

    /// Returns the bit width of the values of the vector.
    #[verifier::when_used_as_spec(spec_bit_width)]
    pub fn bit_width(&self) -> (r: usize)
        ensures
            r == self.spec_bit_width(),
    {
        self.bit_width
    }

    /// Returns the mask that keeps the lowest `bit_width` bits of a word.
    #[verifier::when_used_as_spec(spec_mask)]
    pub fn mask(&self) -> (r: u64)
        ensures
            r == self.spec_mask(),
    {
        self.mask
    }

    /// Returns the number of values in the vector.
    #[verifier::when_used_as_spec(spec_len)]
    pub fn len(&self) -> (r: usize)
        ensures
            r == self.spec_len(),
    {
        self.len
    }

    /// Creates a vector from cells that hold values of `bit_width` bits.
    pub fn from_raw_parts(data: Vec<AtomicU64>, bit_width: usize, len: usize) -> (r: Self)
        requires
            bit_width <= 64,
            data@.len() >= 1,
            len * bit_width <= 64 * data@.len(),
            len * bit_width + 64 <= usize::MAX,
        ensures
            r.wf(),
            r.spec_words() == data@.len(),
            r.spec_bit_width() == bit_width,
            r.spec_len() == len,
    {
        Self { data, bit_width, mask: mask(bit_width), len }
    }

    /// Gives back the cells, the bit width and the length.
    pub fn into_raw_parts(self) -> (r: (Vec<AtomicU64>, usize, usize))
        ensures
            r.0@.len() == self.spec_words(),
            r.1 == self.spec_bit_width(),
            r.2 == self.spec_len(),
    {
        (self.data, self.bit_width, self.len)
    }

    /// Makes a vector that is not shared of one that no thread shares any
    /// more, word by word: the values are those that were written last.
    pub fn convert_to(self) -> (r: BitFieldVec)
        requires
            self.wf(),
        ensures
            r.wf(),
            r.spec_bit_width() == self.spec_bit_width(),
            r.spec_len() == self.spec_len(),
            r.words().len() == self.spec_words(),
    {
        let n = self.data.len();
        let mut words: Vec<u64> = Vec::with_capacity(n);
        let mut k: usize = 0;
        while k < n
            invariant
                k <= n,
                n == self.data@.len(),
                words@.len() == k,
            decreases n - k,
        {
            words.push(self.data[k].load(Ordering::Relaxed));
            k += 1;
        }
        BitFieldVec::from_raw_parts(words, self.bit_width, self.len)
    }

    /// Returns the value at `index`, read in the memory order `order`: what
    /// [`read_field`] takes out of the word, or the two words, that the
    /// value lies in, as they are loaded. What other threads have written
    /// there is not known here, so of the value only its width is.
    pub fn get_atomic_unchecked(&self, index: usize, order: Ordering) -> (r: u64)
        requires
            self.wf(),
            index < self.spec_len(),
            can_load(order),
        ensures
            r <= self.spec_mask(),
    {
        proof {
            lemma_word_of(self.len, self.bit_width, index, self.data@.len());
        }
        let pos = index * self.bit_width;
        let word_index = pos / 64;
        let bit_index = pos % 64;
        if bit_index + self.bit_width <= 64 {
            let word = self.data[word_index].load(order);
            read_field(word, 0, bit_index, self.bit_width, self.mask)
        } else {
            let low = self.data[word_index].load(order);
            let high = self.data[word_index + 1].load(order);
            read_field(low, high, bit_index, self.bit_width, self.mask)
        }
    }

    /// Returns the value at `index`, read in the memory order `order`.
    pub fn get_atomic(&self, index: usize, order: Ordering) -> (r: u64)
        requires
            self.wf(),
            index < self.spec_len(),
            can_load(order),
        ensures
            r <= self.spec_mask(),
    {
        self.get_atomic_unchecked(index, order)
    }

    /// Sets the value at `index` to `value`, in the memory order `order`.
    pub fn set_atomic(&self, index: usize, value: u64, order: Ordering)
        requires
            self.wf(),
            self.spec_bit_width() < 64,
            index < self.spec_len(),
            value <= self.spec_mask(),
            can_load(order),
    {
        self.set_atomic_unchecked(index, value, order);
    }

    /// Sets the value at `index` to `value`, in the memory order `order`.
    ///
    /// A value inside one word is replaced in one step. A value that lies
    /// across two words is replaced in two steps, first in the lower word
    /// and then in the upper one, with fences between them so that two
    /// threads that write at once are likely to do so in the same order.
    /// What each step keeps of its word and what it puts there is what
    /// [`field_update`] computes.
    pub fn set_atomic_unchecked(&self, index: usize, value: u64, order: Ordering)
        requires
            self.wf(),
            self.spec_bit_width() < 64,
            index < self.spec_len(),
            value <= self.spec_mask(),
            can_load(order),
    {
        proof {
            lemma_word_of(self.len, self.bit_width, index, self.data@.len());
        }
        let pos = index * self.bit_width;
        let word_index = pos / 64;
        let bit_index = pos % 64;
        let (low, high) = field_update(bit_index, self.bit_width, self.mask, value);
        if bit_index + self.bit_width <= 64 {
            // The value is within one word: this is consistent.
            update_word(&self.data[word_index], low.0, low.1, order);
        } else {
            // Try to wait for the other thread to finish.
            memory_fence(Ordering::Acquire);
            update_word(&self.data[word_index], low.0, low.1, order);
            memory_fence(Ordering::Release);

            // The two steps stay in this order, so that two threads that
            // write at once both set the lower bits first.
            memory_compiler_fence(Ordering::SeqCst);

            memory_fence(Ordering::Acquire);
            update_word(&self.data[word_index + 1], high.0, high.1, order);
            memory_fence(Ordering::Release);
        }
    }

    /// Sets every value to zero, one by one, in the memory order `order`.
    pub fn reset_atomic(&mut self, order: Ordering)
        requires
            old(self).wf(),
            old(self).spec_bit_width() < 64,
            can_load(order),
        ensures
            final(self).wf(),
            final(self).spec_bit_width() == old(self).spec_bit_width(),
            final(self).spec_len() == old(self).spec_len(),
            final(self).spec_words() == old(self).spec_words(),
    {
        let n = self.len;
        let mut idx: usize = 0;
        while idx < n
            invariant
                idx <= n,
                n == self.len,
                *self == *old(self),
                self.wf(),
                self.bit_width < 64,
                can_load(order),
            decreases n - idx,
        {
            proof {
                lemma_masked(0, self.mask);
            }
            self.set_atomic_unchecked(idx, 0, order);
            idx += 1;
        }
    }
}

impl BitFieldVec {
    /// Makes a shared vector of a vector that is not shared, word by word.
    pub fn convert_to(self) -> (r: AtomicBitFieldVec)
        requires
            self.wf(),
        ensures
            r.wf(),
            r.spec_bit_width() == self.spec_bit_width(),
            r.spec_len() == self.spec_len(),
            r.spec_words() == self.words().len(),
    {
        proof {
            self.lemma_wf();
        }
        let (words, bit_width, len) = self.into_raw_parts();
        let n = words.len();
        let mut data: Vec<AtomicU64> = Vec::with_capacity(n);
        let mut i: usize = 0;
        while i < n
            invariant
                i <= n,
                n == words@.len(),
                data@.len() == i,
            decreases n - i,
        {
            data.push(AtomicU64::new(words[i]));
            i += 1;
        }
        AtomicBitFieldVec { data, bit_width, mask: mask(bit_width), len }
    }
}

} // verus!
