//! Vectors of values of fixed bit width.
//!
//! Elements are stored contiguously, with no padding bits: unless the bit
//! width divides the word size, some elements lie across a word boundary.

use crate::bits::word::{
    bit_len, bit_length, bits_of, divides_word, lemma_bit_len, lemma_uniform_words, rotl, holds_low_bits, is_power_of_two, lemma_and_basics, lemma_buffer_carry,
    lemma_buffer_within, lemma_cut_keeps_low, lemma_bits_of_bound, lemma_bits_of_empty, lemma_disjoint_read,
    lemma_pow2_minus_one, lemma_rev_window_init, lemma_rev_window_next_word,
    lemma_rev_window_refill, lemma_rev_window_reload, lemma_rev_window_rest,
    lemma_rev_window_take, lemma_shr_twice, lemma_straddle_parts, lemma_straddle_read,
    lemma_window_refill, lemma_write_straddle_high, lemma_write_straddle_low,
    lemma_shift_by_zero, lemma_write_within, low_mask, mask, rotate_left, same_outside, shift_left, shift_right,
    shr_or_zero,
};
use vstd::prelude::*;

verus! {

/// The value of the element `index` of a packed vector of width `bit_width`
/// laid out in `words`: the bits `[index * bit_width, (index + 1) * bit_width)`
/// of the words taken as one long string of bits, lowest bit first.
pub open spec fn field_at(words: Seq<u64>, bit_width: nat, index: nat) -> u64 {
    let pos = index * bit_width;
    let k = (pos / 64) as int;
    let b = (pos % 64) as u64;
    let n = bit_width as u64;
    if b + n <= 64 {
        bits_of(words[k], b, n)
    } else {
        bits_of(words[k], b, (64 - b) as u64) | (bits_of(words[k + 1], 0, (b + n - 64) as u64) << (
        (64 - b) as u64))
    }
}

/// The value of `n` bits that begins at the bit `b` of the word `low` and,
/// where `low` ends before the value does, goes on at the bottom of the
/// word `high`.
pub open spec fn field_of_pair(low: u64, high: u64, b: u64, n: u64) -> u64 {
    if b + n <= 64 {
        bits_of(low, b, n)
    } else {
        bits_of(low, b, (64 - b) as u64) | (bits_of(high, 0, (b + n - 64) as u64) << ((64
            - b) as u64))
    }
}

/// An element is the value that begins, at the element's place, in the
/// word that holds its first bit, and goes on in the word after it.
pub proof fn lemma_field_of_pair(words: Seq<u64>, bit_width: nat, index: nat)
    ensures
        field_at(words, bit_width, index) == field_of_pair(
            words[(index * bit_width / 64) as int],
            words[(index * bit_width / 64) as int + 1],
            ((index * bit_width) % 64) as u64,
            bit_width as u64,
        ),
{
}

/// Takes a value of `bit_width` bits out of the word `low`, from the bit
/// `bit_index` on, and out of the bottom of the word `high` where the value
/// goes on there. The words are given: this is how a value is read from
/// words that were loaded one by one, whatever they hold.
pub fn read_field(low: u64, high: u64, bit_index: usize, bit_width: usize, mask: u64) -> (r: u64)
    requires
        bit_index < 64,
        bit_width <= 64,
        mask == low_mask(bit_width as u64),
    ensures
        r == field_of_pair(low, high, bit_index as u64, bit_width as u64),
        r <= mask,
{
    if bit_index + bit_width <= 64 {
        proof {
            lemma_bits_of_bound(low, bit_index as u64, bit_width as u64);
        }
        (low >> bit_index) & mask
    } else {
        proof {
            lemma_straddle_read(low, high, bit_index as u64, bit_width as u64);
            crate::bits::word::lemma_masked((low >> bit_index) | (high << (64 - bit_index)), mask);
        }
        ((low >> bit_index) | (high << (64 - bit_index))) & mask
    }
}

/// The words `low` and `high` after a value of `n` bits was written from
/// the bit `b` of `low` on: all of it into `low` where it ends there, and
/// its upper bits at the bottom of `high` otherwise.
pub open spec fn pair_with_field(low: u64, high: u64, value: u64, b: u64, n: u64) -> (u64, u64) {
    if b + n <= 64 {
        ((low & !(low_mask(n) << b)) | (value << b), high)
    } else {
        (
            (low & low_mask(b)) | (value << b),
            (high & !(low_mask(n) >> ((64 - b) as u64))) | (value >> ((64 - b) as u64)),
        )
    }
}

/// The word that keeps the bits of `word` that `change.0` marks and takes
/// the bits of `change.1`.
pub open spec fn changed(word: u64, change: (u64, u64)) -> u64 {
    (word & change.0) | change.1
}

/// Whatever two words hold, once a value is written into them it is read
/// from them, and the bits outside its place are as they were.
pub proof fn lemma_pair_with_field(low: u64, high: u64, value: u64, b: u64, n: u64)
    requires
        b < 64,
        n <= 64,
        value <= low_mask(n),
    ensures
        field_of_pair(
            pair_with_field(low, high, value, b, n).0,
            pair_with_field(low, high, value, b, n).1,
            b,
            n,
        ) == value,
        b + n <= 64 ==> same_outside(low, pair_with_field(low, high, value, b, n).0, b, n)
            && pair_with_field(low, high, value, b, n).1 == high,
        b + n > 64 ==> same_outside(
            low,
            pair_with_field(low, high, value, b, n).0,
            b,
            (64 - b) as u64,
        ) && same_outside(high, pair_with_field(low, high, value, b, n).1, 0, (b + n - 64) as u64),
{
    if b + n <= 64 {
        lemma_write_within(low, value, b, n);
    } else {
        lemma_write_straddle_low(low, value, b, n);
        lemma_write_straddle_high(high, value, b, n);
        lemma_straddle_parts(value, b, n);
    }
}

/// Setting an element writes its value into the word that holds its first
/// bit and the word after it, and changes no other word.
pub proof fn lemma_words_with_pair(words: Seq<u64>, bit_width: nat, index: nat, value: u64)
    requires
        bit_width <= 64,
    ensures
        ({
            let k = (index * bit_width / 64) as int;
            let b = ((index * bit_width) % 64) as u64;
            let pair = pair_with_field(words[k], words[k + 1], value, b, bit_width as u64);
            words_with(words, bit_width, index, value) == (if b + bit_width <= 64 {
                words.update(k, pair.0)
            } else {
                words.update(k, pair.0).update(k + 1, pair.1)
            })
        }),
{
}

/// Computes what a write of a value of `bit_width` bits from the bit
/// `bit_index` on asks of the word that it begins in and of the word after
/// it: for each, the bits to keep and the bits to take. Of the word after
/// it everything is kept where the value does not reach it.
///
/// This is how a value is written into words that are changed one by one,
/// each in one step, whatever they hold when the change takes effect.
pub fn field_update(bit_index: usize, bit_width: usize, mask: u64, value: u64) -> (r: (
    (u64, u64),
    (u64, u64),
))
    requires
        bit_index < 64,
        bit_width <= 64,
        mask == low_mask(bit_width as u64),
        value <= mask,
    ensures
        forall|low: u64, high: u64|
            #[trigger] pair_with_field(low, high, value, bit_index as u64, bit_width as u64) == (
                changed(low, r.0),
                changed(high, r.1),
            ),
{
    if bit_index + bit_width <= 64 {
        proof {
            assert forall|low: u64, high: u64|
                #[trigger] pair_with_field(low, high, value, bit_index as u64, bit_width as u64)
                    == (
                    changed(low, (!(mask << bit_index), value << bit_index)),
                    changed(high, (u64::MAX, 0u64)),
                ) by {
                lemma_and_basics(high, 0);
            }
        }
        ((!(mask << bit_index), value << bit_index), (u64::MAX, 0))
    } else {
        proof {
            lemma_pow2_minus_one(bit_index as u64);
        }
        (
            ((1u64 << bit_index) - 1, value << bit_index),
            (!(mask >> (64 - bit_index)), value >> (64 - bit_index)),
        )
    }
}

/// The number of bits of the range `[pos, pos + n)` that fall into the word `k`.
pub open spec fn local_count(pos: nat, n: nat, k: nat) -> nat {
    let s = if pos > 64 * k {
        pos
    } else {
        64 * k
    };
    let e = if pos + n < 64 * k + 64 {
        pos + n
    } else {
        64 * k + 64
    };
    if s < e {
        (e - s) as nat
    } else {
        0
    }
}

/// The first bit of the word `k` that belongs to the range `[pos, pos + n)`.
pub open spec fn local_start(pos: nat, n: nat, k: nat) -> nat {
    if local_count(pos, n, k) > 0 && pos > 64 * k {
        (pos - 64 * k) as nat
    } else {
        0
    }
}

/// The word `k` changed at most in the bits of the range `[pos, pos + n)`.
pub open spec fn word_kept(before: Seq<u64>, after: Seq<u64>, pos: nat, n: nat, k: int) -> bool {
    same_outside(
        before[k],
        after[k],
        local_start(pos, n, k as nat) as u64,
        local_count(pos, n, k as nat) as u64,
    )
}

/// `after` differs from `before` at most in the bits of the range `[pos, pos + n)`.
pub open spec fn writes_only(before: Seq<u64>, after: Seq<u64>, pos: nat, n: nat) -> bool {
    &&& before.len() == after.len()
    &&& forall|k: int| 0 <= k < before.len() ==> #[trigger] word_kept(before, after, pos, n, k)
}

/// Consecutive elements occupy consecutive, disjoint ranges of bits.
pub proof fn lemma_field_ranges(bit_width: nat, i: nat, j: nat)
    ensures
        i < j ==> i * bit_width + bit_width <= j * bit_width,
        i == j ==> i * bit_width == j * bit_width,
        (i + 1) * bit_width == i * bit_width + bit_width,
        0 <= (i as int) * (bit_width as int) == i * bit_width,
        0 <= (j as int) * (bit_width as int) == j * bit_width,
{
    assert(i < j ==> i * bit_width + bit_width <= j * bit_width) by (nonlinear_arith);
    assert((i + 1) * bit_width == i * bit_width + bit_width) by (nonlinear_arith);
    assert(0 <= (i as int) * (bit_width as int)) by (nonlinear_arith);
    assert(0 <= (j as int) * (bit_width as int)) by (nonlinear_arith);
}

/// Where the element `index` lies: its bits end within the words, so the word
/// its first bit falls in exists, and so does the next one where the element
/// crosses a word boundary.
pub proof fn lemma_locate(len: nat, bit_width: nat, index: nat, n_words: nat)
    requires
        index < len,
        len * bit_width <= 64 * n_words,
        n_words >= 1,
    ensures
        0 <= (index as int) * (bit_width as int) == index * bit_width,
        index * bit_width + bit_width <= len * bit_width,
        index * bit_width + bit_width <= 64 * n_words,
        (index * bit_width) / 64 < n_words,
        (index * bit_width) % 64 + bit_width > 64 ==> (index * bit_width) / 64 + 1 < n_words,
        bit_width == 0 ==> index * bit_width == 0,
        (index + 1) * bit_width == index * bit_width + bit_width,
{
    lemma_field_ranges(bit_width, index, len);
    assert(bit_width == 0 ==> index * bit_width == 0) by (nonlinear_arith);
}

/// Where the element `index` lies, for lengths and widths as the machine holds them.
pub proof fn lemma_word_of(len: usize, bit_width: usize, index: usize, n_words: nat)
    requires
        index < len,
        bit_width <= 64,
        len * bit_width <= 64 * n_words,
        len * bit_width + 64 <= usize::MAX,
        n_words >= 1,
    ensures
        index * bit_width + bit_width <= len * bit_width,
        (index * bit_width) / 64 < n_words,
        (index * bit_width) % 64 + bit_width > 64 ==> (index * bit_width) / 64 + 1 < n_words && 0
            < (index * bit_width) % 64,
        (1u64 << (((index * bit_width) % 64) as u64)) >= 1,
{
    lemma_locate(len as nat, bit_width as nat, index as nat, n_words);
    let b = ((index * bit_width) % 64) as u64;
    if b == 0 {
        crate::bits::word::lemma_masked(0, 0);
    } else {
        lemma_pow2_minus_one(b);
    }
}

/// An element reads as before where the words it lies in changed at most in
/// the bits of a range `[pos, pos + n)` that does not meet the element.
pub proof fn lemma_field_untouched(
    before: Seq<u64>,
    after: Seq<u64>,
    bit_width: nat,
    j: nat,
    pos: nat,
    n: nat,
)
    requires
        bit_width <= 64,
        pos + n <= j * bit_width || j * bit_width + bit_width <= pos,
        word_kept(before, after, pos, n, (j * bit_width / 64) as int),
        (j * bit_width) % 64 + bit_width > 64 ==> word_kept(
            before,
            after,
            pos,
            n,
            (j * bit_width / 64) as int + 1,
        ),
    ensures
        field_at(after, bit_width, j) == field_at(before, bit_width, j),
{
    let pj = j * bit_width;
    let k = (pj / 64) as int;
    let b = (pj % 64) as u64;
    let w = bit_width as u64;
    if bit_width == 0 {
        lemma_bits_of_empty(before[k], b);
        lemma_bits_of_empty(after[k], b);
    } else if b + w <= 64 {
        lemma_disjoint_read(
            before[k],
            after[k],
            local_start(pos, n, k as nat) as u64,
            local_count(pos, n, k as nat) as u64,
            b,
            w,
        );
    } else {
        lemma_disjoint_read(
            before[k],
            after[k],
            local_start(pos, n, k as nat) as u64,
            local_count(pos, n, k as nat) as u64,
            b,
            (64 - b) as u64,
        );
        lemma_disjoint_read(
            before[k + 1],
            after[k + 1],
            local_start(pos, n, (k + 1) as nat) as u64,
            local_count(pos, n, (k + 1) as nat) as u64,
            0,
            (b + w - 64) as u64,
        );
    }
}

/// An element other than the one whose bits were rewritten reads as before.
pub proof fn lemma_field_frame(before: Seq<u64>, after: Seq<u64>, bit_width: nat, i: nat, j: nat)
    requires
        bit_width <= 64,
        i != j,
        writes_only(before, after, i * bit_width, bit_width),
        (j + 1) * bit_width <= 64 * before.len(),
    ensures
        field_at(after, bit_width, j) == field_at(before, bit_width, j),
{
    lemma_field_ranges(bit_width, i, j);
    lemma_field_ranges(bit_width, j, i);
    let k = (j * bit_width / 64) as int;
    if bit_width == 0 {
        lemma_bits_of_empty(before[k], 0);
        lemma_bits_of_empty(after[k], 0);
    } else {
        assert(word_kept(before, after, i * bit_width, bit_width, k));
        if (j * bit_width) % 64 + bit_width > 64 {
            assert(word_kept(before, after, i * bit_width, bit_width, k + 1));
        }
        lemma_field_untouched(before, after, bit_width, j, i * bit_width, bit_width);
    }
}

/// The words of a packed vector after the element `index` was set to `value`.
pub open spec fn words_with(words: Seq<u64>, bit_width: nat, index: nat, value: u64) -> Seq<u64> {
    let pos = index * bit_width;
    let k = (pos / 64) as int;
    let b = (pos % 64) as u64;
    let n = bit_width as u64;
    if b + n <= 64 {
        words.update(k, (words[k] & !(low_mask(n) << b)) | (value << b))
    } else {
        words.update(k, (words[k] & low_mask(b)) | (value << b)).update(
            k + 1,
            (words[k + 1] & !(low_mask(n) >> ((64 - b) as u64))) | (value >> ((64 - b) as u64)),
        )
    }
}

/// Setting an element changes its bits and no others: the element then reads
/// as the value set, and every other element reads as before.
pub proof fn lemma_words_with(words: Seq<u64>, bit_width: nat, len: nat, index: nat, value: u64)
    requires
        bit_width <= 64,
        value <= low_mask(bit_width as u64),
        index < len,
        len * bit_width <= 64 * words.len(),
        words.len() >= 1,
    ensures
        words_with(words, bit_width, index, value).len() == words.len(),
        writes_only(
            words,
            words_with(words, bit_width, index, value),
            index * bit_width,
            bit_width,
        ),
        field_at(words_with(words, bit_width, index, value), bit_width, index) == value,
        forall|j: nat|
            j != index && j < len ==> #[trigger] field_at(
                words_with(words, bit_width, index, value),
                bit_width,
                j,
            ) == field_at(words, bit_width, j),
        forall|m: int|
            0 <= m < words.len() && m != index * bit_width / 64 && m != index * bit_width / 64 + 1
                ==> #[trigger] words_with(words, bit_width, index, value)[m] == words[m],
{
    let after = words_with(words, bit_width, index, value);
    let pos = index * bit_width;
    let k = (pos / 64) as int;
    let b = (pos % 64) as u64;
    let n = bit_width as u64;
    lemma_locate(len, bit_width, index, words.len());
    if b + n <= 64 {
        lemma_write_within(words[k], value, b, n);
        assert forall|m: int| 0 <= m < words.len() implies #[trigger] word_kept(
            words,
            after,
            pos,
            bit_width,
            m,
        ) by {
            if m == k {
                assert(local_count(pos, bit_width, m as nat) == bit_width);
                assert(local_start(pos, bit_width, m as nat) == b);
            }
        }
    } else {
        lemma_write_straddle_low(words[k], value, b, n);
        lemma_write_straddle_high(words[k + 1], value, b, n);
        lemma_straddle_parts(value, b, n);
        assert forall|m: int| 0 <= m < words.len() implies #[trigger] word_kept(
            words,
            after,
            pos,
            bit_width,
            m,
        ) by {
            if m == k {
                assert(local_count(pos, bit_width, m as nat) == 64 - b);
                assert(local_start(pos, bit_width, m as nat) == b);
            } else if m == k + 1 {
                assert(local_count(pos, bit_width, m as nat) == b + n - 64);
                assert(local_start(pos, bit_width, m as nat) == 0);
            }
        }
    }
    assert forall|j: nat| j != index && j < len implies #[trigger] field_at(after, bit_width, j)
        == field_at(words, bit_width, j) by {
        lemma_locate(len, bit_width, j, words.len());
        lemma_field_frame(words, after, bit_width, index, j);
    }
}

/// A vector of bit fields of fixed width, packed into 64-bit words.
#[derive(Debug, Clone, Hash)]
pub struct BitFieldVec {
    /// The underlying storage.
    data: Vec<u64>,
    /// The bit width of the values stored in the vector.
    bit_width: usize,
    /// A mask with its lowest `bit_width` bits set to one.
    mask: u64,
    /// The length of the vector.
    len: usize,
}

impl View for BitFieldVec {
    type V = Seq<u64>;

    /// The values stored in the vector, in order.
    open spec fn view(&self) -> Seq<u64> {
        Seq::new(
            self.spec_len() as nat,
            |i: int| field_at(self.words(), self.spec_bit_width() as nat, i as nat),
        )
    }
}

impl BitFieldVec {
    /// The words that back the vector.
    pub closed spec fn words(&self) -> Seq<u64> {
        self.data@
    }

    /// The bit width of the values.
    pub closed spec fn spec_bit_width(&self) -> usize {
        self.bit_width
    }

    /// The number of values.
    pub closed spec fn spec_len(&self) -> usize {
        self.len
    }

    /// The mask that keeps `bit_width` bits: the largest value an element can hold.
    pub closed spec fn spec_mask(&self) -> u64 {
        self.mask
    }

    /// The representation invariant: the width fits a word, the mask belongs to
    /// the width, the words hold all the elements, and there is at least one word.
    pub closed spec fn wf(&self) -> bool {
        &&& self.bit_width <= 64
        &&& self.mask == low_mask(self.bit_width as u64)
        &&& self.data@.len() >= 1
        &&& self.len * self.bit_width <= 64 * self.data@.len()
        &&& self.len * self.bit_width + 64 <= usize::MAX
    }

    /// What the invariant says, for users of the vector.
    pub proof fn lemma_wf(&self)
        requires
            self.wf(),
        ensures
            self.spec_bit_width() <= 64,
            self.spec_mask() == low_mask(self.spec_bit_width() as u64),
            self.words().len() >= 1,
            self.spec_len() * self.spec_bit_width() <= 64 * self.words().len(),
            self.spec_len() * self.spec_bit_width() + 64 <= usize::MAX,
            self@.len() == self.spec_len(),
            forall|i: int| 0 <= i < self.spec_len() ==> #[trigger] self@[i] <= self.spec_mask(),
    {
        assert forall|i: int| 0 <= i < self.spec_len() implies #[trigger] self@[i]
            <= self.spec_mask() by {
            lemma_field_bound(self.words(), self.spec_bit_width() as nat, i as nat);
        }
    }

    /// Tells whether the representation invariant holds.
    pub fn is_valid(&self) -> (r: bool)
        ensures
            r == self.wf(),
    {
        if self.bit_width > 64 || self.data.len() < 1 {
            return false;
        }
        if self.mask != mask(self.bit_width) {
            return false;
        }
        match self.len.checked_mul(self.bit_width) {
            Some(bits) => bits <= usize::MAX - 64 && (bits + 63) / 64 <= self.data.len(),
            None => false,
        }
    }

    /// Returns the number of values in the vector.
    #[verifier::when_used_as_spec(spec_len)]
    pub fn len(&self) -> (r: usize)
        ensures
            r == self.spec_len(),
    {
        self.len
    }

    /// Returns a new vector of `len` values whose words all hold `word`.
    pub fn fill_words(bit_width: usize, len: usize, word: u64) -> (r: Self)
        requires
            bit_width <= 64,
            len * bit_width + 64 <= usize::MAX,
        ensures
            r.wf(),
            r.spec_bit_width() == bit_width,
            r.spec_len() == len,
            r.words().len() == words_for(len as nat, bit_width as nat),
            forall|k: int| 0 <= k < r.words().len() ==> r.words()[k] == word,
    {
        assert(len * bit_width <= usize::MAX);
        let bits = len * bit_width;
        let needed = (bits + 63) / 64;
        let n_of_words = if needed < 1 {
            1
        } else {
            needed
        };
        let data = vec![word; n_of_words];
        Self { data, bit_width, mask: mask(bit_width), len }
    }

    /// Creates a new zero-initialized vector of given bit width and length.
    pub fn new(bit_width: usize, len: usize) -> (r: Self)
        requires
            bit_width <= 64,
            len * bit_width + 64 <= usize::MAX,
        ensures
            r.wf(),
            r.spec_bit_width() == bit_width,
            r.spec_len() == len,
            r.words().len() == words_for(len as nat, bit_width as nat),
            r@ == Seq::new(len as nat, |i: int| 0u64),
    {
        let r = Self::fill_words(bit_width, len, 0);
        proof {
            assert forall|i: int| 0 <= i < len implies #[trigger] r@[i] == 0 by {
                lemma_field_uniform(r.data@, bit_width as nat, len as nat, i as nat, 0);
            }
            assert(r@ =~= Seq::new(len as nat, |i: int| 0u64));
        }
        r
    }

    /// Creates a new vector of given bit width and length whose values have
    /// all their bits set.
    pub fn new_ones(bit_width: usize, len: usize) -> (r: Self)
        requires
            bit_width <= 64,
            len * bit_width + 64 <= usize::MAX,
        ensures
            r.wf(),
            r.spec_bit_width() == bit_width,
            r.spec_len() == len,
            r.words().len() == words_for(len as nat, bit_width as nat),
            r@ == Seq::new(len as nat, |i: int| low_mask(bit_width as u64)),
    {
        let r = Self::fill_words(bit_width, len, u64::MAX);
        proof {
            assert forall|i: int| 0 <= i < len implies #[trigger] r@[i] == low_mask(
                bit_width as u64,
            ) by {
                lemma_field_uniform(r.data@, bit_width as nat, len as nat, i as nat, u64::MAX);
            }
            assert(r@ =~= Seq::new(len as nat, |i: int| low_mask(bit_width as u64)));
        }
        r
    }

    /// Creates a new vector of given bit width and length whose values are
    /// not specified.
    pub fn new_uninit(bit_width: usize, len: usize) -> (r: Self)
        requires
            bit_width <= 64,
            len * bit_width + 64 <= usize::MAX,
        ensures
            r.wf(),
            r.spec_bit_width() == bit_width,
            r.spec_len() == len,
            r.words().len() == words_for(len as nat, bit_width as nat),
    {
        Self::fill_words(bit_width, len, 0)
    }

    /// Returns a new vector of given bit width and length, every value of
    /// which is `value`.
    pub fn fill(bit_width: usize, len: usize, value: u64) -> (r: Self)
        requires
            bit_width <= 64,
            len * bit_width + 64 <= usize::MAX,
            value <= low_mask(bit_width as u64),
        ensures
            r.wf(),
            r.spec_bit_width() == bit_width,
            r.spec_len() == len,
            r.words().len() == words_for(len as nat, bit_width as nat),
            r@ == Seq::new(len as nat, |i: int| value),
    {
        let mut vec = Self::new_uninit(bit_width, len);
        let constant = |_v: u64| -> (r: u64)
            ensures
                r == value,
            { value };
        vec.apply_inplace_unchecked(constant);
        assert(vec@ =~= Seq::new(len as nat, |i: int| value));
        vec
    }

    /// Creates an empty vector that does not need to reallocate for up to
    /// `capacity` values.
    pub fn with_capacity(bit_width: usize, capacity: usize) -> (r: Self)
        requires
            bit_width <= 64,
            capacity * bit_width + 64 <= usize::MAX,
        ensures
            r.wf(),
            r.spec_bit_width() == bit_width,
            r.spec_len() == 0,
            r.words().len() == 1,
            r@ == Seq::<u64>::empty(),
    {
        assert(capacity * bit_width <= usize::MAX);
        let needed = (capacity * bit_width + 63) / 64;
        // At least one word, to handle the case of bit width zero.
        let n_of_words = if needed < 1 {
            1
        } else {
            needed
        };
        let mut data: Vec<u64> = Vec::with_capacity(n_of_words);
        data.push(0);
        let r = Self { data, bit_width, mask: mask(bit_width), len: 0 };
        assert(r@ =~= Seq::<u64>::empty());
        r
    }

    /// Returns the number of values that the vector can hold without
    /// reallocating: at least its length.
    pub fn capacity(&self) -> (r: usize)
        requires
            self.wf(),
            self.spec_bit_width() > 0,
        ensures
            r >= self.spec_len(),
    {
        let words = capacity_of(&self.data);
        let bits = (words as u128) * 64;
        let values = bits / (self.bit_width as u128);
        assert(values >= self.len) by (nonlinear_arith)
            requires
                values == (words * 64) / (self.bit_width as int),
                self.len * self.bit_width <= 64 * words,
                self.bit_width > 0,
        ;
        if values > usize::MAX as u128 {
            usize::MAX
        } else {
            values as usize
        }
    }

    /// Sets the length, keeping the words: the values below the new length
    /// are what the words hold there.
    pub fn set_len(&mut self, len: usize)
        requires
            old(self).wf(),
            len * old(self).spec_bit_width() <= 64 * old(self).words().len(),
            len * old(self).spec_bit_width() + 64 <= usize::MAX,
        ensures
            final(self).wf(),
            final(self).spec_bit_width() == old(self).spec_bit_width(),
            final(self).words() == old(self).words(),
            final(self).spec_len() == len,
    {
        self.len = len;
    }

    /// Writes zero to all bits of the vector: every value becomes zero.
    pub fn reset(&mut self)
        requires
            old(self).wf(),
        ensures
            final(self).wf(),
            final(self).spec_bit_width() == old(self).spec_bit_width(),
            final(self).spec_len() == old(self).spec_len(),
            final(self).words().len() == old(self).words().len(),
            final(self)@ == Seq::new(old(self).spec_len() as nat, |i: int| 0u64),
    {
        self.fill_all_words(0);
        proof {
            assert forall|i: int| 0 <= i < self.len implies #[trigger] self@[i] == 0 by {
                lemma_field_uniform(self.data@, self.bit_width as nat, self.len as nat, i as nat, 0);
            }
            assert(self@ =~= Seq::new(self.len as nat, |i: int| 0u64));
        }
    }

    /// Writes one to all bits of the vector: every value becomes the mask.
    pub fn reset_ones(&mut self)
        requires
            old(self).wf(),
        ensures
            final(self).wf(),
            final(self).spec_bit_width() == old(self).spec_bit_width(),
            final(self).spec_len() == old(self).spec_len(),
            final(self).words().len() == old(self).words().len(),
            final(self)@ == Seq::new(old(self).spec_len() as nat, |i: int| old(self).spec_mask()),
    {
        self.fill_all_words(u64::MAX);
        proof {
            assert forall|i: int| 0 <= i < self.len implies #[trigger] self@[i] == self.mask by {
                lemma_field_uniform(
                    self.data@,
                    self.bit_width as nat,
                    self.len as nat,
                    i as nat,
                    u64::MAX,
                );
            }
            assert(self@ =~= Seq::new(self.len as nat, |i: int| self.mask));
        }
    }

    /// Overwrites every word with `word`.
    fn fill_all_words(&mut self, word: u64)
        requires
            old(self).wf(),
        ensures
            final(self).wf(),
            final(self).bit_width == old(self).bit_width,
            final(self).mask == old(self).mask,
            final(self).len == old(self).len,
            final(self).data@.len() == old(self).data@.len(),
            forall|k: int| 0 <= k < final(self).data@.len() ==> final(self).data@[k] == word,
    {
        let n = self.data.len();
        let mut k: usize = 0;
        while k < n
            invariant
                k <= n,
                n == self.data@.len(),
                self.bit_width == old(self).bit_width,
                self.mask == old(self).mask,
                self.len == old(self).len,
                self.data@.len() == old(self).data@.len(),
                forall|m: int| 0 <= m < k ==> self.data@[m] == word,
            decreases n - k,
        {
            self.data.set(k, word);
            k += 1;
        }
    }

    /// Removes every value; the bit width stays.
    pub fn clear(&mut self)
        requires
            old(self).wf(),
        ensures
            final(self).wf(),
            final(self).spec_bit_width() == old(self).spec_bit_width(),
            final(self).spec_len() == 0,
            final(self).words().len() == 1,
            final(self)@ == Seq::<u64>::empty(),
    {
        // One word stays, to handle the case of bit width zero.
        self.data.truncate(1);
        self.len = 0;
        assert(self@ =~= Seq::<u64>::empty());
    }

    /// Returns the bit width of the values of the vector.
    #[verifier::when_used_as_spec(spec_bit_width)]
    pub fn bit_width(&self) -> (r: usize)
        ensures
            r == self.spec_bit_width(),
    {
        self.bit_width
    }

    /// Returns the mask that keeps the lowest `bit_width` bits of a word.
    #[verifier::when_used_as_spec(spec_mask)]
    pub fn mask(&self) -> (r: u64)
        ensures
            r == self.spec_mask(),
    {
        self.mask
    }

    /// Tells whether the vector holds no value.
    pub fn is_empty(&self) -> (r: bool)
        ensures
            r == (self.spec_len() == 0),
    {
        self.len == 0
    }

    /// Creates a vector from words that hold values of `bit_width` bits.
    pub fn from_raw_parts(data: Vec<u64>, bit_width: usize, len: usize) -> (r: Self)
        requires
            bit_width <= 64,
            data@.len() >= 1,
            len * bit_width <= 64 * data@.len(),
            len * bit_width + 64 <= usize::MAX,
        ensures
            r.wf(),
            r.words() == data@,
            r.spec_bit_width() == bit_width,
            r.spec_len() == len,
    {
        Self { data, bit_width, mask: mask(bit_width), len }
    }

    /// Returns the words that back the vector.
    pub fn as_words(&self) -> (r: &Vec<u64>)
        ensures
            r@ == self.words(),
    {
        &self.data
    }

    /// Gives back the words, the bit width and the length.
    pub fn into_raw_parts(self) -> (r: (Vec<u64>, usize, usize))
        ensures
            r.0@ == self.words(),
            r.1 == self.spec_bit_width(),
            r.2 == self.spec_len(),
    {
        (self.data, self.bit_width, self.len)
    }

    /// Returns the value at `index`.
    pub fn get(&self, index: usize) -> (r: u64)
        requires
            self.wf(),
            index < self.spec_len(),
        ensures
            r == self@[index as int],
            r <= self.spec_mask(),
    {
        self.get_unchecked(index)
    }

    /// Sets the value at `index` to `value`; the other values stay.
    pub fn set(&mut self, index: usize, value: u64)
        requires
            old(self).wf(),
            index < old(self).spec_len(),
            value <= old(self).spec_mask(),
        ensures
            final(self).wf(),
            final(self).spec_bit_width() == old(self).spec_bit_width(),
            final(self).spec_len() == old(self).spec_len(),
            final(self).spec_mask() == old(self).spec_mask(),
            final(self).words().len() == old(self).words().len(),
            final(self)@ == old(self)@.update(index as int, value),
    {
        self.set_unchecked(index, value);
        proof {
            lemma_locate(
                old(self).len as nat,
                old(self).bit_width as nat,
                index as nat,
                old(self).data@.len(),
            );
            lemma_words_with(
                old(self).data@,
                old(self).bit_width as nat,
                old(self).len as nat,
                index as nat,
                value,
            );
        }
    }

    /// Adds a value at the end of the vector.
    pub fn push(&mut self, value: u64)
        requires
            old(self).wf(),
            value <= old(self).spec_mask(),
            old(self).spec_len() < usize::MAX,
            (old(self).spec_len() + 1) * old(self).spec_bit_width() + 64 <= usize::MAX,
        ensures
            final(self).wf(),
            final(self).spec_bit_width() == old(self).spec_bit_width(),
            final(self).spec_len() == old(self).spec_len() + 1,
            final(self)@ == old(self)@.push(value),
    {
        let ghost bw = self.bit_width as nat;
        let ghost before = self.data@;
        proof {
            lemma_field_ranges(bw, self.len as nat, (self.len + 1) as nat);
        }
        if ((self.len + 1) * self.bit_width + 63) / 64 > self.data.len() {
            self.data.push(0);
        }
        self.len += 1;
        proof {
            assert forall|j: int| 0 <= j < old(self).len implies #[trigger] field_at(
                self.data@,
                bw,
                j as nat,
            ) == old(self)@[j] by {
                lemma_locate(old(self).len as nat, bw, j as nat, before.len());
            }
        }
        let ghost grown = self@;
        self.set_unchecked(self.len - 1, value);
        assert(self@ =~= old(self)@.push(value));
    }

    /// Truncates the vector to `new_len` values or extends it to that length
    /// with `value`.
    #[verifier::rlimit(50)]
    pub fn resize(&mut self, new_len: usize, value: u64)
        requires
            old(self).wf(),
            value <= old(self).spec_mask(),
            new_len * old(self).spec_bit_width() + 64 <= usize::MAX,
        ensures
            final(self).wf(),
            final(self).spec_bit_width() == old(self).spec_bit_width(),
            final(self).spec_len() == new_len,
            final(self)@ == Seq::new(
                new_len as nat,
                |i: int|
                    if i < old(self).spec_len() {
                        old(self)@[i]
                    } else {
                        value
                    },
            ),
    {
        let ghost bw = self.bit_width as nat;
        let ghost before = self.data@;
        let old_len = self.len;
        if new_len > self.len {
            proof {
                lemma_field_ranges(bw, old_len as nat, new_len as nat);
            }
            if (new_len * self.bit_width + 63) / 64 > self.data.len() {
                self.data.resize((new_len * self.bit_width + 63) / 64, 0);
            }
            self.len = new_len;
            proof {
                assert forall|j: int| 0 <= j < old_len implies #[trigger] field_at(
                    self.data@,
                    bw,
                    j as nat,
                ) == old(self)@[j] by {
                    lemma_locate(old_len as nat, bw, j as nat, before.len());
                    let k = (j as nat * bw / 64) as int;
                    assert(self.data@.subrange(0, before.len() as int)[k] == self.data@[k]);
                    if (j as nat * bw) % 64 + bw > 64 {
                        assert(self.data@.subrange(0, before.len() as int)[k + 1] == self.data@[k
                            + 1]);
                    }
                }
            }
            let mut i = old_len;
            while i < new_len
                invariant
                    old_len <= i <= new_len,
                    self.wf(),
                    self.len == new_len,
                    self.bit_width == old(self).bit_width,
                    self.mask == old(self).mask,
                    value <= self.mask,
                    forall|j: int| 0 <= j < old_len ==> #[trigger] self@[j] == old(self)@[j],
                    forall|j: int| old_len <= j < i ==> #[trigger] self@[j] == value,
                decreases new_len - i,
            {
                self.set_unchecked(i, value);
                i += 1;
            }
        } else {
            proof {
                if new_len < old_len {
                    lemma_field_ranges(bw, new_len as nat, old_len as nat);
                }
            }
            self.len = new_len;
        }
        assert(self@ =~= Seq::new(
            new_len as nat,
            |i: int|
                if i < old(self).spec_len() {
                    old(self)@[i]
                } else {
                    value
                },
        ));
    }

    /// Removes and returns the last value; returns `None` if the vector is empty.
    pub fn pop(&mut self) -> (r: Option<u64>)
        requires
            old(self).wf(),
        ensures
            final(self).wf(),
            final(self).spec_bit_width() == old(self).spec_bit_width(),
            final(self).words() == old(self).words(),
            old(self)@.len() == 0 ==> r.is_none() && final(self)@ == old(self)@,
            old(self)@.len() > 0 ==> r == Some(old(self)@.last()) && final(self)@ == old(
                self,
            )@.drop_last(),
    {
        if self.len == 0 {
            return None;
        }
        let value = self.get(self.len - 1);
        proof {
            lemma_field_ranges(self.bit_width as nat, (self.len - 1) as nat, self.len as nat);
        }
        self.len -= 1;
        assert(self@ =~= old(self)@.drop_last());
        Some(value)
    }

    /// Adds the values of `values` at the end of the vector, in order.
    pub fn extend(&mut self, values: &[u64])
        requires
            old(self).wf(),
            forall|i: int| 0 <= i < values@.len() ==> #[trigger] values@[i] <= old(self).spec_mask(),
            old(self).spec_len() + values@.len() <= usize::MAX,
            (old(self).spec_len() + values@.len()) * old(self).spec_bit_width() + 64 <= usize::MAX,
        ensures
            final(self).wf(),
            final(self).spec_bit_width() == old(self).spec_bit_width(),
            final(self)@ == old(self)@ + values@,
    {
        let n = values.len();
        let mut i: usize = 0;
        while i < n
            invariant
                i <= n,
                n == values@.len(),
                self.wf(),
                self.bit_width == old(self).bit_width,
                self.mask == old(self).mask,
                self.len == old(self).len + i,
                self@ == old(self)@ + values@.subrange(0, i as int),
                forall|j: int| 0 <= j < values@.len() ==> #[trigger] values@[j] <= self.mask,
                old(self).len + n <= usize::MAX,
                (old(self).len + n) * self.bit_width + 64 <= usize::MAX,
            decreases n - i,
        {
            proof {
                lemma_field_ranges(
                    self.bit_width as nat,
                    self.len as nat,
                    (old(self).len + n) as nat,
                );
                lemma_field_ranges(
                    self.bit_width as nat,
                    (self.len + 1) as nat,
                    (old(self).len + n) as nat,
                );
            }
            self.push(values[i]);
            i += 1;
            assert(values@.subrange(0, i as int) =~= values@.subrange(0, i - 1).push(
                values@[i - 1],
            ));
            assert(self@ =~= old(self)@ + values@.subrange(0, i as int));
        }
        assert(values@.subrange(0, n as int) =~= values@);
    }

    /// Creates a new vector with the values of `slice`; the bit width is the
    /// least that holds all of them.
    ///
    /// With words of 64 bits every value fits, so this never fails.
    #[verifier::rlimit(50)]
    pub fn from_slice(slice: &[u64]) -> (r: Result<Self, BitWidthError>)
        requires
            slice@.len() * max_bit_len(slice@) + 64 <= usize::MAX,
        ensures
            r is Ok,
            r->Ok_0.wf(),
            r->Ok_0@ == slice@,
            r->Ok_0.spec_bit_width() == max_bit_len(slice@),
    {
        let n = slice.len();
        let mut max_len: usize = 0;
        let mut i: usize = 0;
        while i < n
            invariant
                i <= n,
                n == slice@.len(),
                max_len == max_bit_len(slice@.subrange(0, i as int)),
                max_len <= 64,
            decreases n - i,
        {
            let l = bit_length(slice[i]);
            proof {
                assert(slice@.subrange(0, i + 1).drop_last() =~= slice@.subrange(0, i as int));
            }
            if l > max_len {
                max_len = l;
            }
            i += 1;
        }
        assert(slice@.subrange(0, n as int) =~= slice@);
        let mut result = Self::new(max_len, n);
        let mut i: usize = 0;
        while i < n
            invariant
                i <= n,
                n == slice@.len(),
                result.wf(),
                result.len == n,
                result.bit_width == max_len,
                max_len == max_bit_len(slice@),
                max_len <= 64,
                forall|j: int| 0 <= j < i ==> #[trigger] result@[j] == slice@[j],
            decreases n - i,
        {
            proof {
                lemma_max_bit_len(slice@, i as int);
                lemma_bit_len(slice@[i as int], max_len as u64);
            }
            result.set_unchecked(i, slice[i]);
            i += 1;
        }
        assert(result@ =~= slice@);
        Ok(result)
    }

    /// Reads a word starting at the byte `index / 8` of the words, shifts
    /// it down by `index % 64` places and keeps `bit_width` bits, without
    /// checking the index.
    pub fn get_unaligned_unchecked(&self, index: usize) -> (r: u64)
        requires
            self.wf(),
            reads_unaligned(self.spec_bit_width() as nat),
            index / 8 + 8 <= 8 * self.words().len(),
        ensures
            r == (window_at(self.words(), (index / 8) as nat) >> ((index % 64) as u64))
                & self.spec_mask(),
    {
        let byte = index / 8;
        let k = byte / 8;
        let s = 8 * (byte % 8);
        let word = if s == 0 {
            self.data[k]
        } else {
            (self.data[k] >> s) | (self.data[k + 1] << (64 - s))
        };
        (word >> (index % 64)) & self.mask
    }

    /// Reads a word starting at the byte `index / 8` of the words, shifts
    /// it down by `index % 64` places and keeps `bit_width` bits.
    pub fn get_unaligned(&self, index: usize) -> (r: u64)
        requires
            self.wf(),
            index < self.spec_len(),
            reads_unaligned(self.spec_bit_width() as nat),
            index / 8 + 8 <= 8 * self.words().len(),
        ensures
            r == (window_at(self.words(), (index / 8) as nat) >> ((index % 64) as u64))
                & self.spec_mask(),
    {
        self.get_unaligned_unchecked(index)
    }

    /// Returns the value at `index`.
    pub fn get_unchecked(&self, index: usize) -> (r: u64)
        requires
            self.wf(),
            index < self.spec_len(),
        ensures
            r == self@[index as int],
            r <= self.spec_mask(),
    {
        proof {
            lemma_locate(self.len as nat, self.bit_width as nat, index as nat, self.data@.len());
            lemma_field_bound(self.words(), self.spec_bit_width() as nat, index as nat);
        }
        let pos = index * self.bit_width;
        let word_index = pos / 64;
        let bit_index = pos % 64;
        if bit_index + self.bit_width <= 64 {
            (self.data[word_index] >> bit_index) & self.mask
        } else {
            proof {
                lemma_straddle_read(
                    self.data@[word_index as int],
                    self.data@[word_index + 1],
                    bit_index as u64,
                    self.bit_width as u64,
                );
            }
            ((self.data[word_index] >> bit_index) | (self.data[word_index + 1] << (64
                - bit_index))) & self.mask
        }
    }

    /// Sets the value at `index` to `value`.
    pub fn set_unchecked(&mut self, index: usize, value: u64)
        requires
            old(self).wf(),
            index < old(self).spec_len(),
            value <= old(self).spec_mask(),
        ensures
            final(self).wf(),
            final(self).spec_bit_width() == old(self).spec_bit_width(),
            final(self).spec_len() == old(self).spec_len(),
            final(self).spec_mask() == old(self).spec_mask(),
            final(self).words() == words_with(
                old(self).words(),
                old(self).spec_bit_width() as nat,
                index as nat,
                value,
            ),
            final(self)@ == old(self)@.update(index as int, value),
    {
        let ghost before = self.data@;
        let ghost bw = self.bit_width as nat;
        proof {
            lemma_locate(self.len as nat, bw, index as nat, before.len());
            lemma_words_with(before, bw, self.len as nat, index as nat, value);
        }
        let pos = index * self.bit_width;
        let word_index = pos / 64;
        let bit_index = pos % 64;
        if bit_index + self.bit_width <= 64 {
            let mut word = self.data[word_index];
            word &= !(self.mask << bit_index);
            word |= value << bit_index;
            self.data.set(word_index, word);
        } else {
            proof {
                lemma_pow2_minus_one(bit_index as u64);
            }
            let mut word = self.data[word_index];
            word &= (1u64 << bit_index) - 1;
            word |= value << bit_index;
            self.data.set(word_index, word);

            let mut word = self.data[word_index + 1];
            word &= !(self.mask >> (64 - bit_index));
            word |= value >> (64 - bit_index);
            self.data.set(word_index + 1, word);
        }
        proof {
            let after = self.data@;
            assert(after == words_with(before, bw, index as nat, value));
            let expected = old(self)@.update(index as int, value);
            assert forall|j: int| 0 <= j < self.len implies #[trigger] self@[j] == expected[j] by {
                lemma_field_ranges(bw, j as nat, self.len as nat);
            }
            assert(self@ =~= expected);
        }
    }

    /// Rewrites each value `v` with `f(v)`, going through the words once: the
    /// values come from a read buffer and the results are gathered in a write
    /// buffer, so that each word is read and written at most once.
    ///
    /// The effect is that of setting, for each index in order, the value at
    /// that index to what `f` makes of it.
    #[verifier::rlimit(50)]
    pub fn apply_inplace_unchecked<F: Fn(u64) -> u64>(&mut self, f: F)
        requires
            old(self).wf(),
            forall|i: int|
                0 <= i < old(self)@.len() ==> call_requires(f, (#[trigger] old(self)@[i],)),
            forall|x: u64, y: u64| call_ensures(f, (x,), y) ==> y <= old(self).spec_mask(),
        ensures
            final(self).wf(),
            final(self).spec_bit_width() == old(self).spec_bit_width(),
            final(self).spec_len() == old(self).spec_len(),
            final(self).words().len() == old(self).words().len(),
            forall|i: int|
                0 <= i < old(self)@.len() ==> call_ensures(
                    f,
                    (old(self)@[i],),
                    #[trigger] final(self)@[i],
                ),
    {
        if self.len == 0 {
            return ;
        }
        let bit_width = self.bit_width;
        let len = self.len;
        let ghost bw = bit_width as nat;
        let ghost old_words = self.data@;
        let ghost old_view = self@;
        if bit_width == 0 {
            // No bits are stored: every value is zero, and stays zero.
            let mut i: usize = 0;
            while i < len
                invariant
                    i <= len,
                    *self == *old(self),
                    self.wf(),
                    self.bit_width == 0,
                    self.len == len,
                    forall|j: int|
                        0 <= j < self@.len() ==> call_requires(f, (#[trigger] self@[j],)),
                    forall|x: u64, y: u64| call_ensures(f, (x,), y) ==> y <= self.mask,
                    forall|j: int| 0 <= j < i ==> call_ensures(f, (self@[j],), #[trigger] self@[j]),
                decreases len - i,
            {
                let element = self.get_unchecked(i);
                let new_element = f(element);
                assert(new_element == self@[i as int]);
                i += 1;
            }
            return ;
        }
        assert(len * bit_width >= 1) by (nonlinear_arith)
            requires
                len >= 1,
                bit_width >= 1,
        ;
        let total_bits = len * bit_width;
        // The number of words that hold values.
        let number_of_words = (total_bits + 63) / 64;
        // The word which is being processed: the read buffer.
        let mut current_word: u64 = self.data[0];
        // The word which is being written: the write buffer.
        let mut write_buffer: u64 = 0;
        // The position of the next value in the string of all bits.
        let mut global_bit_index: usize = 0;
        let mut lower_word_limit: usize = 0;
        let mut upper_word_limit: usize = 64;
        let is_not_power_of_two = !is_power_of_two(bit_width);
        let ghost mut done: nat = 0;
        let ghost mut outs: Seq<u64> = Seq::empty();
        let ghost mut model: Seq<u64> = old_words;
        proof {
            lemma_and_basics(model[0], 0);
        }

        let mut word_number: usize = 0;
        while word_number < number_of_words - 1
            invariant
                word_number <= number_of_words - 1,
                global_bit_index <= total_bits,
                self.bit_width == bit_width,
                self.len == len,
                self.mask == low_mask(bit_width as u64),
                1 <= bit_width <= 64,
                total_bits == len * bit_width,
                total_bits + 64 <= usize::MAX,
                number_of_words == (total_bits + 63) / 64,
                number_of_words <= self.data@.len(),
                self.data@.len() == old_words.len(),
                old_view == Seq::new(len as nat, |i: int| field_at(old_words, bw, i as nat)),
                bw == bit_width,
                lower_word_limit == 64 * word_number,
                upper_word_limit == lower_word_limit + 64,
                lower_word_limit <= global_bit_index < lower_word_limit + bit_width,
                global_bit_index == done * bw,
                done <= len,
                outs.len() == done,
                forall|j: int| 0 <= j < done ==> call_ensures(f, (old_view[j],), #[trigger] outs[j]),
                forall|j: int|
                    0 <= j < done ==> #[trigger] field_at(model, bw, j as nat) == outs[j],
                model.len() == old_words.len(),
                forall|m: int| word_number < m < model.len() ==> #[trigger] model[m] == old_words[m],
                forall|m: int| 0 <= m < word_number ==> #[trigger] self.data@[m] == model[m],
                forall|m: int|
                    word_number <= m < old_words.len() ==> #[trigger] self.data@[m] == old_words[m],
                current_word == old_words[word_number as int],
                write_buffer == model[word_number as int] & low_mask(
                    (global_bit_index - lower_word_limit) as u64,
                ),
                is_not_power_of_two == !divides_word(bw),
                forall|i: int| 0 <= i < len ==> call_requires(f, (#[trigger] old_view[i],)),
                forall|x: u64, y: u64| call_ensures(f, (x,), y) ==> y <= low_mask(bit_width as u64),
            decreases number_of_words - 1 - word_number,
        {
            // The values that lie inside the current word.
            while global_bit_index + bit_width <= upper_word_limit
                invariant
                    self.bit_width == bit_width,
                    self.len == len,
                    self.mask == low_mask(bit_width as u64),
                    1 <= bit_width <= 64,
                    total_bits == len * bit_width,
                    total_bits + 64 <= usize::MAX,
                    number_of_words == (total_bits + 63) / 64,
                    word_number < number_of_words - 1,
                    global_bit_index <= total_bits,
                    number_of_words <= self.data@.len(),
                    self.data@.len() == old_words.len(),
                    old_view == Seq::new(len as nat, |i: int| field_at(old_words, bw, i as nat)),
                    bw == bit_width,
                    lower_word_limit == 64 * word_number,
                    upper_word_limit == lower_word_limit + 64,
                    lower_word_limit <= global_bit_index <= upper_word_limit,
                    global_bit_index == done * bw,
                    done <= len,
                    outs.len() == done,
                    forall|j: int|
                        0 <= j < done ==> call_ensures(f, (old_view[j],), #[trigger] outs[j]),
                    forall|j: int|
                        0 <= j < done ==> #[trigger] field_at(model, bw, j as nat) == outs[j],
                    model.len() == old_words.len(),
                    forall|m: int|
                        word_number < m < model.len() ==> #[trigger] model[m] == old_words[m],
                    forall|m: int| 0 <= m < word_number ==> #[trigger] self.data@[m] == model[m],
                    current_word == old_words[word_number as int],
                    write_buffer == model[word_number as int] & low_mask(
                        (global_bit_index - lower_word_limit) as u64,
                    ),
                    forall|i: int| 0 <= i < len ==> call_requires(f, (#[trigger] old_view[i],)),
                    forall|x: u64, y: u64|
                        call_ensures(f, (x,), y) ==> y <= low_mask(bit_width as u64),
                decreases upper_word_limit - global_bit_index,
            {
                proof {
                    lemma_next_is_element(len as nat, bw, done, total_bits as nat);
                }
                let offset = global_bit_index - lower_word_limit;
                global_bit_index += bit_width;
                let element = self.mask & (current_word >> offset);
                proof {
                    lemma_and_basics(self.mask, current_word >> (offset as u64));
                    assert(element == old_view[done as int]);
                }
                let new_element = f(element);
                proof {
                    lemma_words_with(model, bw, len as nat, done, new_element);
                    lemma_buffer_within(
                        write_buffer,
                        model[word_number as int],
                        new_element,
                        offset as u64,
                        bit_width as u64,
                    );
                    lemma_field_ranges(bw, done, done + 1);
                    model = words_with(model, bw, done, new_element);
                    outs = outs.push(new_element);
                    done = done + 1;
                }
                write_buffer |= new_element << offset;
            }

            let next_word = self.data[word_number + 1];
            let mut new_write_buffer: u64 = 0;
            if is_not_power_of_two && upper_word_limit != global_bit_index {
                proof {
                    lemma_next_is_element(len as nat, bw, done, total_bits as nat);
                }
                let remainder = upper_word_limit - global_bit_index;
                let offset = global_bit_index - lower_word_limit;
                proof {
                    lemma_straddle_read(current_word, next_word, offset as u64, bit_width as u64);
                }
                // The value lies across the end of the current word.
                let element = ((current_word >> offset) | (next_word << remainder)) & self.mask;
                assert(element == old_view[done as int]);
                global_bit_index += bit_width;
                let new_element = f(element);
                proof {
                    lemma_words_with(model, bw, len as nat, done, new_element);
                    lemma_buffer_carry(
                        model[word_number + 1],
                        new_element,
                        offset as u64,
                        bit_width as u64,
                    );
                    lemma_field_ranges(bw, done, done + 1);
                    model = words_with(model, bw, done, new_element);
                    outs = outs.push(new_element);
                    done = done + 1;
                }
                write_buffer |= new_element << offset;
                new_write_buffer = new_element >> remainder;
            } else {
                proof {
                    lemma_word_boundary(bw, done, word_number as nat);
                    lemma_and_basics(model[word_number as int], 0);
                    lemma_and_basics(model[word_number + 1], 0);
                }
            }
            current_word = next_word;
            self.data.set(word_number, write_buffer);
            write_buffer = new_write_buffer;
            lower_word_limit = upper_word_limit;
            upper_word_limit += 64;
            word_number += 1;
        }

        let last_word = number_of_words - 1;
        let mut offset = global_bit_index - lower_word_limit;
        // The values that lie in the last word.
        while offset < total_bits - global_bit_index
            invariant
                self.bit_width == bit_width,
                self.len == len,
                self.mask == low_mask(bit_width as u64),
                1 <= bit_width <= 64,
                total_bits == len * bit_width,
                total_bits + 64 <= usize::MAX,
                number_of_words == (total_bits + 63) / 64,
                last_word == number_of_words - 1,
                number_of_words <= self.data@.len(),
                self.data@.len() == old_words.len(),
                old_view == Seq::new(len as nat, |i: int| field_at(old_words, bw, i as nat)),
                bw == bit_width,
                lower_word_limit == 64 * last_word,
                lower_word_limit <= global_bit_index < lower_word_limit + bit_width,
                global_bit_index <= total_bits,
                lower_word_limit + offset == done * bw,
                offset <= 64,
                done <= len,
                outs.len() == done,
                forall|j: int| 0 <= j < done ==> call_ensures(f, (old_view[j],), #[trigger] outs[j]),
                forall|j: int|
                    0 <= j < done ==> #[trigger] field_at(model, bw, j as nat) == outs[j],
                model.len() == old_words.len(),
                forall|m: int| last_word < m < model.len() ==> #[trigger] model[m] == old_words[m],
                forall|m: int| 0 <= m < last_word ==> #[trigger] self.data@[m] == model[m],
                forall|m: int|
                    last_word <= m < old_words.len() ==> #[trigger] self.data@[m] == old_words[m],
                current_word == old_words[last_word as int],
                write_buffer == model[last_word as int] & low_mask(offset as u64),
                forall|i: int| 0 <= i < len ==> call_requires(f, (#[trigger] old_view[i],)),
                forall|x: u64, y: u64| call_ensures(f, (x,), y) ==> y <= low_mask(bit_width as u64),
            decreases len - done,
        {
            proof {
                lemma_last_word_element(
                    len as nat,
                    bw,
                    done,
                    total_bits as nat,
                    lower_word_limit as nat,
                    offset as nat,
                    global_bit_index as nat,
                );
            }
            let element = self.mask & (current_word >> offset);
            proof {
                lemma_and_basics(self.mask, current_word >> (offset as u64));
                assert(element == old_view[done as int]);
            }
            let new_element = f(element);
            proof {
                lemma_words_with(model, bw, len as nat, done, new_element);
                lemma_buffer_within(
                    write_buffer,
                    model[last_word as int],
                    new_element,
                    offset as u64,
                    bit_width as u64,
                );
                lemma_field_ranges(bw, done, done + 1);
                model = words_with(model, bw, done, new_element);
                outs = outs.push(new_element);
                done = done + 1;
            }
            write_buffer |= new_element << offset;
            offset += bit_width;
        }
        self.data.set(last_word, write_buffer);
        proof {
            lemma_last_word_done(
                len as nat,
                bw,
                done,
                total_bits as nat,
                lower_word_limit as nat,
                offset as nat,
                global_bit_index as nat,
            );
            let after = self.data@;
            let t = (total_bits - lower_word_limit) as u64;
            lemma_cut_keeps_low(model[last_word as int], t);
            assert forall|i: int| 0 <= i < len implies call_ensures(
                f,
                (old_view[i],),
                #[trigger] self@[i],
            ) by {
                lemma_locate(len as nat, bw, i as nat, after.len());
                let k = (i as nat * bw / 64) as int;
                assert(word_kept(model, after, total_bits as nat, (64 - t) as nat, k));
                if (i as nat * bw) % 64 + bw > 64 {
                    assert(word_kept(model, after, total_bits as nat, (64 - t) as nat, k + 1));
                }
                lemma_field_untouched(
                    model,
                    after,
                    bw,
                    i as nat,
                    total_bits as nat,
                    (64 - t) as nat,
                );
                assert(self@[i] == outs[i]);
            }
        }
    }

    /// Rewrites each value `v` with `f(v)`; every result has to fit in the
    /// bit width.
    pub fn apply_inplace<F: Fn(u64) -> u64>(&mut self, f: F)
        requires
            old(self).wf(),
            forall|i: int|
                0 <= i < old(self)@.len() ==> call_requires(f, (#[trigger] old(self)@[i],)),
            forall|x: u64, y: u64| call_ensures(f, (x,), y) ==> y <= old(self).spec_mask(),
        ensures
            final(self).wf(),
            final(self).spec_bit_width() == old(self).spec_bit_width(),
            final(self).spec_len() == old(self).spec_len(),
            final(self).words().len() == old(self).words().len(),
            forall|i: int|
                0 <= i < old(self)@.len() ==> call_ensures(
                    f,
                    (old(self)@[i],),
                    #[trigger] final(self)@[i],
                ),
    {
        self.apply_inplace_unchecked(f)
    }
}

/// While bits are left before the last word, the next value to rewrite is one
/// of the vector's.
pub proof fn lemma_next_is_element(len: nat, bit_width: nat, done: nat, total_bits: nat)
    requires
        total_bits == len * bit_width,
        done * bit_width < total_bits,
    ensures
        done < len,
        (done + 1) * bit_width <= total_bits,
        (done + 1) * bit_width == done * bit_width + bit_width,
{
    assert(done < len) by (nonlinear_arith)
        requires
            done * bit_width < len * bit_width,
    ;
    lemma_field_ranges(bit_width, done, len);
}

/// Where the width divides the word, a value ends where the word ends.
pub proof fn lemma_word_boundary(bit_width: nat, done: nat, word: nat)
    requires
        64 * word <= done * bit_width <= 64 * word + 64,
        done * bit_width + bit_width > 64 * word + 64,
        divides_word(bit_width) || done * bit_width == 64 * word + 64,
    ensures
        done * bit_width == 64 * word + 64,
{
    if done * bit_width != 64 * word + 64 {
        let per_word: int = 64int / (bit_width as int);
        assert(per_word * bit_width == 64);
        let gap = per_word * (word + 1) - done;
        assert(gap * bit_width == 64 * word + 64 - done * bit_width) by (nonlinear_arith)
            requires
                gap == per_word * (word + 1) - done,
                per_word * bit_width == 64,
        ;
        assert(gap == 0) by (nonlinear_arith)
            requires
                0 <= gap * bit_width < bit_width,
        ;
    }
}

/// In the last word, the scan goes on only while a value is left, and each
/// value lies inside the word.
pub proof fn lemma_last_word_element(
    len: nat,
    bit_width: nat,
    done: nat,
    total_bits: nat,
    lower: nat,
    offset: nat,
    start: nat,
)
    requires
        bit_width >= 1,
        total_bits == len * bit_width,
        lower + offset == done * bit_width,
        lower <= start <= total_bits,
        offset < total_bits - start,
    ensures
        done < len,
        lower + offset + bit_width <= total_bits,
        (done + 1) * bit_width == lower + offset + bit_width,
{
    lemma_next_is_element(len, bit_width, done, total_bits);
}

/// In the last word, the scan ends when no value is left.
pub proof fn lemma_last_word_done(
    len: nat,
    bit_width: nat,
    done: nat,
    total_bits: nat,
    lower: nat,
    offset: nat,
    start: nat,
)
    requires
        bit_width >= 1,
        total_bits == len * bit_width,
        lower + offset == done * bit_width,
        done <= len,
        lower <= start < lower + bit_width,
        start <= total_bits,
        offset >= total_bits - start,
    ensures
        done == len,
        lower + offset == total_bits,
{
    assert(done >= len) by (nonlinear_arith)
        requires
            done * bit_width > len * bit_width - bit_width,
            bit_width >= 1,
    ;
}

/// The error of a conversion whose values take more bits than a word has.
#[derive(Debug, Clone, Copy, PartialEq, Eq)]
pub struct BitWidthError {
    /// The bit width that the values take.
    pub bit_width: usize,
}

/// The largest number of bits that a value of `s` takes.
pub open spec fn max_bit_len(s: Seq<u64>) -> nat
    decreases s.len(),
{
    if s.len() == 0 {
        0
    } else {
        let rest = max_bit_len(s.drop_last());
        if bit_len(s.last()) > rest {
            bit_len(s.last())
        } else {
            rest
        }
    }
}

/// No value takes more bits than the largest number of bits taken.
pub proof fn lemma_max_bit_len(s: Seq<u64>, i: int)
    requires
        0 <= i < s.len(),
    ensures
        bit_len(s[i]) <= max_bit_len(s),
    decreases s.len(),
{
    if i < s.len() - 1 {
        lemma_max_bit_len(s.drop_last(), i);
    }
}

/// Where every word that holds values is `word`, every value is what a field
/// of a word of that kind holds.
pub proof fn lemma_field_uniform(words: Seq<u64>, bit_width: nat, len: nat, index: nat, word: u64)
    requires
        bit_width <= 64,
        index < len,
        len * bit_width <= 64 * words.len(),
        words.len() >= 1,
        word == 0 || word == u64::MAX,
        forall|k: int| 0 <= k < words.len() ==> words[k] == word,
    ensures
        field_at(words, bit_width, index) == (if word == 0 {
            0
        } else {
            low_mask(bit_width as u64)
        }),
{
    lemma_locate(len, bit_width, index, words.len());
    lemma_uniform_words(((index * bit_width) % 64) as u64, bit_width as u64);
}

/// Returns the number of items that `data` can hold without reallocating.
///
/// Calls `Vec::capacity`, of which the standard library promises that it is
/// at least the vector's length.
#[verifier::external_body]
pub(crate) fn capacity_of<T>(data: &Vec<T>) -> (r: usize)
    ensures
        r >= data@.len(),
{
    data.capacity()
}

/// The bit widths for which unaligned reads are defined.
pub open spec fn reads_unaligned(bit_width: nat) -> bool {
    bit_width % 8 != 3 && bit_width % 8 != 5 && bit_width % 8 != 6 && bit_width % 8 != 7
}

/// The word that starts at the byte `byte` of the words, the lowest byte
/// of each word coming first.
pub open spec fn window_at(words: Seq<u64>, byte: nat) -> u64 {
    let k = (byte / 8) as int;
    let s = (8 * (byte % 8)) as u64;
    if s == 0 {
        words[k]
    } else {
        (words[k] >> s) | (words[k + 1] << ((64 - s) as u64))
    }
}

/// The number of words that hold `len` values of `bit_width` bits: at least one.
pub open spec fn words_for(len: nat, bit_width: nat) -> nat {
    if len * bit_width == 0 {
        1
    } else {
        ((len * bit_width + 63) / 64) as nat
    }
}

/// Every element fits in `bit_width` bits.
pub proof fn lemma_field_bound(words: Seq<u64>, bit_width: nat, index: nat)
    requires
        bit_width <= 64,
    ensures
        field_at(words, bit_width, index) <= low_mask(bit_width as u64),
{
    let pos = index * bit_width;
    let k = (pos / 64) as int;
    let b = (pos % 64) as u64;
    let n = bit_width as u64;
    if b + n <= 64 {
        lemma_bits_of_bound(words[k], b, n);
    } else {
        lemma_straddle_read(words[k], words[k + 1], b, n);
        let x = (words[k] >> b) | (words[k + 1] << ((64 - b) as u64));
        lemma_and_basics(x, 0);
        lemma_bits_of_bound(x >> 0u64, 0, n);
        lemma_shift_by_zero(x);
    }
}

/// A forward scan over the values of a [`BitFieldVec`] that does not check
/// for the end: it keeps the unread bits of the current word in a window.
pub struct BitFieldVectorUncheckedIterator<'a> {
    vec: &'a BitFieldVec,
    word_index: usize,
    window: u64,
    fill: usize,
    index: Ghost<nat>,
}

impl<'a> BitFieldVectorUncheckedIterator<'a> {
    /// The vector that is scanned.
    pub closed spec fn vec(&self) -> BitFieldVec {
        *self.vec
    }

    /// The index of the value that the next call yields.
    pub closed spec fn position(&self) -> nat {
        self.index@
    }

    /// The window holds the unread bits of the current word, and the bits
    /// consumed so far are those of the values before `position`.
    pub closed spec fn wf(&self) -> bool {
        &&& self.vec.wf()
        &&& self.index@ <= self.vec.len
        &&& self.index@ < self.vec.len ==> {
            &&& self.fill <= 64
            &&& self.word_index < self.vec.data@.len()
            &&& 64 * (self.word_index + 1) - self.fill == self.index@ * self.vec.bit_width
            &&& self.window == shr_or_zero(
                self.vec.data@[self.word_index as int],
                (64 - self.fill) as u64,
            )
        }
    }

    /// Starts a scan at the value `index`.
    pub fn new(vec: &'a BitFieldVec, index: usize) -> (r: Self)
        requires
            vec.wf(),
            index <= vec.spec_len(),
        ensures
            r.wf(),
            r.vec() == *vec,
            r.position() == index,
    {
        if index == vec.len {
            Self { vec, word_index: 0, window: 0, fill: 0, index: Ghost(index as nat) }
        } else {
            proof {
                lemma_locate(vec.len as nat, vec.bit_width as nat, index as nat, vec.data@.len());
            }
            let bit_offset = index * vec.bit_width;
            let bit_index = bit_offset % 64;
            let word_index = bit_offset / 64;
            let fill = 64 - bit_index;
            let window = vec.data[word_index] >> bit_index;
            Self { vec, word_index, window, fill, index: Ghost(index as nat) }
        }
    }

    /// Yields the next value and moves on by one.
    #[verifier::rlimit(50)]
    pub fn next_unchecked(&mut self) -> (r: u64)
        requires
            old(self).wf(),
            old(self).position() < old(self).vec().spec_len(),
        ensures
            final(self).wf(),
            final(self).vec() == old(self).vec(),
            final(self).position() == old(self).position() + 1,
            r == old(self).vec()@[old(self).position() as int],
    {
        let bit_width = self.vec.bit_width;
        let ghost i = self.index@;
        let ghost w0 = self.vec.data@[self.word_index as int];
        proof {
            lemma_locate(self.vec.len as nat, bit_width as nat, i, self.vec.data@.len());
            lemma_field_ranges(bit_width as nat, i, i + 1);
            if i + 1 < self.vec.len {
                lemma_locate(self.vec.len as nat, bit_width as nat, i + 1, self.vec.data@.len());
            }
        }
        let ghost words = self.vec.data@;
        let ghost bw = bit_width as nat;
        let ghost pos = i * bw;
        proof {
            assert(pos == 64 * (self.word_index + 1) - self.fill);
        }
        if self.fill >= bit_width {
            proof {
                // The value lies inside the current word, at the bottom of the window.
                assert(self.fill > 0);
                assert(pos / 64 == self.word_index);
                assert(pos % 64 == 64 - self.fill);
                lemma_shr_twice(w0, (64 - self.fill) as u64, bit_width as u64);
                assert(field_at(words, bw, i) == bits_of(
                    w0,
                    (64 - self.fill) as u64,
                    bit_width as u64,
                ));
            }
            self.fill -= bit_width;
            let res = self.window & self.vec.mask;
            self.window = shift_right(self.window, bit_width);
            self.index = Ghost(i + 1);
            return res;
        }
        proof {
            // The value begins in the current word, if anything is left of
            // it, and ends in the next.
            if self.fill > 0 {
                assert(pos / 64 == self.word_index);
                assert(pos % 64 == 64 - self.fill);
            } else {
                assert(pos / 64 == self.word_index + 1);
                assert(pos % 64 == 0);
            }
        }
        let res = self.window;
        self.word_index += 1;
        self.window = self.vec.data[self.word_index];
        proof {
            lemma_window_refill(w0, self.window, self.fill as u64, bit_width as u64);
            if self.fill > 0 {
                lemma_straddle_read(w0, self.window, (64 - self.fill) as u64, bit_width as u64);
                assert(field_at(words, bw, i) == bits_of(
                    w0,
                    (64 - self.fill) as u64,
                    self.fill as u64,
                ) | (bits_of(self.window, 0, (bit_width - self.fill) as u64) << (self.fill as u64)));
            } else {
                assert(field_at(words, bw, i) == bits_of(self.window, 0, bit_width as u64));
            }
        }
        let res = (res | (self.window << self.fill)) & self.vec.mask;
        let used = bit_width - self.fill;
        self.window = shift_right(self.window, used);
        self.fill = 64 - used;
        self.index = Ghost(i + 1);
        res
    }
}

/// A backward scan over the values of a [`BitFieldVec`] that does not check
/// for the start: it keeps the unread bits of the current word at the top of
/// a window.
pub struct BitFieldVectorReverseUncheckedIterator<'a> {
    vec: &'a BitFieldVec,
    word_index: usize,
    window: u64,
    fill: usize,
    index: Ghost<nat>,
}

impl<'a> BitFieldVectorReverseUncheckedIterator<'a> {
    /// The vector that is scanned.
    pub closed spec fn vec(&self) -> BitFieldVec {
        *self.vec
    }

    /// The number of values that are left: the next call yields the value
    /// just before this index.
    pub closed spec fn position(&self) -> nat {
        self.index@
    }

    /// The top of the window holds the unread bits of the current word, and
    /// the bits left to read are those of the values before `position`.
    pub closed spec fn wf(&self) -> bool {
        &&& self.vec.wf()
        &&& self.index@ <= self.vec.len
        &&& (self.index@ > 0 && self.vec.bit_width > 0) ==> {
            &&& self.fill <= 64
            &&& self.word_index < self.vec.data@.len()
            &&& 64 * self.word_index + self.fill == self.index@ * self.vec.bit_width
            &&& holds_low_bits(
                self.window,
                self.vec.data@[self.word_index as int],
                self.fill as u64,
            )
        }
    }

    /// Starts a backward scan just before the value `index`.
    pub fn new(vec: &'a BitFieldVec, index: usize) -> (r: Self)
        requires
            vec.wf(),
            index <= vec.spec_len(),
        ensures
            r.wf(),
            r.vec() == *vec,
            r.position() == index,
    {
        if index == 0 {
            Self { vec, word_index: 0, window: 0, fill: 0, index: Ghost(index as nat) }
        } else {
            proof {
                lemma_locate(
                    vec.len as nat,
                    vec.bit_width as nat,
                    (index - 1) as nat,
                    vec.data@.len(),
                );
                lemma_field_ranges(vec.bit_width as nat, (index - 1) as nat, index as nat);
            }
            // A width of zero leaves no last bit to start from: the first bit stands in.
            let bit_offset = (index * vec.bit_width).saturating_sub(1);
            let bit_index = bit_offset % 64;
            let word_index = bit_offset / 64;
            let fill = bit_index + 1;
            let window = vec.data[word_index] << (64 - fill);
            proof {
                lemma_rev_window_init(vec.data@[word_index as int], fill as u64);
            }
            Self { vec, word_index, window, fill, index: Ghost(index as nat) }
        }
    }

    /// Yields the value before the current position and moves back by one.
    #[verifier::rlimit(50)]
    pub fn next_unchecked(&mut self) -> (r: u64)
        requires
            old(self).wf(),
            old(self).position() > 0,
        ensures
            final(self).wf(),
            final(self).vec() == old(self).vec(),
            final(self).position() == old(self).position() - 1,
            r == old(self).vec()@[old(self).position() - 1],
    {
        let bit_width = self.vec.bit_width;
        let ghost i = (self.index@ - 1) as nat;
        let ghost w1 = self.vec.data@[self.word_index as int];
        let ghost window = self.window;
        proof {
            lemma_locate(self.vec.len as nat, bit_width as nat, i, self.vec.data@.len());
            lemma_field_ranges(bit_width as nat, i, i + 1);
        }
        let ghost words = self.vec.data@;
        let ghost bw = bit_width as nat;
        let ghost pos = i * bw;
        if self.fill >= bit_width {
            proof {
                if bit_width > 0 {
                    // The value lies inside the current word, just below the unread bits.
                    assert(pos == 64 * self.word_index + self.fill - bit_width);
                    assert(pos / 64 == self.word_index);
                    assert(pos % 64 == self.fill - bit_width);
                    lemma_rev_window_take(window, w1, self.fill as u64, bit_width as u64);
                    lemma_rev_window_rest(window, w1, self.fill as u64, bit_width as u64);
                    assert(field_at(words, bw, i) == bits_of(
                        w1,
                        (self.fill - bit_width) as u64,
                        bit_width as u64,
                    ));
                } else {
                    assert(pos == 0);
                    lemma_bits_of_empty(words[0], 0);
                    lemma_and_basics(rotl(window, 0), 0);
                    assert(field_at(words, bw, i) == 0);
                }
            }
            self.fill -= bit_width;
            self.window = rotate_left(self.window, bit_width);
            self.index = Ghost(i);
            return self.window & self.vec.mask;
        }
        proof {
            // The value ends in the current word and begins in the word before.
            assert(pos + bit_width == 64 * self.word_index + self.fill);
            assert(self.word_index >= 1);
            assert(pos / 64 == self.word_index - 1);
            assert(pos % 64 == 64 - (bit_width - self.fill));
        }
        let res = rotate_left(self.window, self.fill);
        self.word_index -= 1;
        self.window = self.vec.data[self.word_index];
        let used = bit_width - self.fill;
        proof {
            let w0 = self.window;
            if self.fill > 0 {
                lemma_rev_window_refill(window, w0, w1, self.fill as u64, bit_width as u64);
                assert(field_at(words, bw, i) == bits_of(w0, (64 - used) as u64, used as u64) | (
                bits_of(w1, 0, (bit_width - used) as u64) << (used as u64)));
            } else {
                lemma_rev_window_next_word(window, w0, bit_width as u64);
                assert(field_at(words, bw, i) == bits_of(
                    w0,
                    (64 - bit_width) as u64,
                    bit_width as u64,
                ));
            }
            lemma_rev_window_reload(w0, used as u64);
        }
        let res = (shift_left(res, used) | (self.window >> (64 - used))) & self.vec.mask;
        self.window = shift_left(self.window, used);
        self.fill = 64 - used;
        self.index = Ghost(i);
        res
    }
}

/// A scan over a range of the values of a [`BitFieldVec`] that can be taken
/// from both ends.
pub struct BitFieldVecIterator<'a> {
    directed: BitFieldVectorUncheckedIterator<'a>,
    reversed: BitFieldVectorReverseUncheckedIterator<'a>,
    start: usize,
    end: usize,
}

impl<'a> BitFieldVecIterator<'a> {
    /// The vector that is scanned.
    pub closed spec fn vec(&self) -> BitFieldVec {
        self.directed.vec()
    }

    /// The index of the value that `next` yields.
    pub closed spec fn start(&self) -> usize {
        self.start
    }

    /// The index just after the value that `next_back` yields.
    pub closed spec fn end(&self) -> usize {
        self.end
    }

    /// The values that are left, front to back.
    pub open spec fn remaining(&self) -> Seq<u64> {
        if self.start() < self.end() {
            self.vec()@.subrange(self.start() as int, self.end() as int)
        } else {
            Seq::empty()
        }
    }

    /// Both scans are over the same vector and stand at the two ends of
    /// what is left.
    pub closed spec fn wf(&self) -> bool {
        &&& self.directed.wf()
        &&& self.reversed.wf()
        &&& self.directed.vec() == self.reversed.vec()
        &&& self.directed.position() == self.start
        &&& self.reversed.position() == self.end
        &&& self.start <= self.directed.vec().spec_len()
        &&& self.end <= self.directed.vec().spec_len()
    }

    /// What the invariant says of the bounds.
    pub proof fn lemma_wf(&self)
        requires
            self.wf(),
        ensures
            self.vec().wf(),
            self.start() <= self.vec()@.len(),
            self.end() <= self.vec()@.len(),
    {
    }

    /// Creates a scan over the values from `start` up to, not including, `end`.
    pub fn from_range(vec: &'a BitFieldVec, start: usize, end: usize) -> (r: Self)
        requires
            vec.wf(),
            start <= vec.spec_len(),
            end <= vec.spec_len(),
        ensures
            r.wf(),
            r.vec() == *vec,
            r.start() == start,
            r.end() == end,
    {
        Self {
            directed: BitFieldVectorUncheckedIterator::new(vec, start),
            reversed: BitFieldVectorReverseUncheckedIterator::new(vec, end),
            start,
            end,
        }
    }

    /// Creates a scan over the values from `start` to the end of the vector.
    pub fn from_start(vec: &'a BitFieldVec, start: usize) -> (r: Self)
        requires
            vec.wf(),
            start <= vec.spec_len(),
        ensures
            r.wf(),
            r.vec() == *vec,
            r.start() == start,
            r.end() == vec.spec_len(),
    {
        Self::from_range(vec, start, vec.len())
    }

    /// Creates a scan over the values from the first up to, not including, `end`.
    pub fn from_end(vec: &'a BitFieldVec, end: usize) -> (r: Self)
        requires
            vec.wf(),
            end <= vec.spec_len(),
        ensures
            r.wf(),
            r.vec() == *vec,
            r.start() == 0,
            r.end() == end,
    {
        Self::from_range(vec, 0, end)
    }

    /// Creates a scan over all the values of the vector.
    pub fn from(vec: &'a BitFieldVec) -> (r: Self)
        requires
            vec.wf(),
        ensures
            r.wf(),
            r.vec() == *vec,
            r.start() == 0,
            r.end() == vec.spec_len(),
    {
        Self::from_range(vec, 0, vec.len())
    }

    /// Yields the first of the values that are left, if there is one.
    pub fn next(&mut self) -> (r: Option<u64>)
        requires
            old(self).wf(),
        ensures
            final(self).wf(),
            final(self).vec() == old(self).vec(),
            final(self).end() == old(self).end(),
            old(self).start() >= old(self).end() ==> r.is_none() && final(self).start() == old(
                self,
            ).start(),
            old(self).start() < old(self).end() ==> r == Some(
                old(self).vec()@[old(self).start() as int],
            ) && final(self).start() == old(self).start() + 1,
    {
        if self.start >= self.end {
            return None;
        }
        let res = self.directed.next_unchecked();
        self.start += 1;
        Some(res)
    }

    /// Yields the last of the values that are left, if there is one.
    pub fn next_back(&mut self) -> (r: Option<u64>)
        requires
            old(self).wf(),
        ensures
            final(self).wf(),
            final(self).vec() == old(self).vec(),
            final(self).start() == old(self).start(),
            old(self).start() >= old(self).end() ==> r.is_none() && final(self).end() == old(
                self,
            ).end(),
            old(self).start() < old(self).end() ==> r == Some(
                old(self).vec()@[old(self).end() - 1],
            ) && final(self).end() == old(self).end() - 1,
    {
        if self.start >= self.end {
            return None;
        }
        let res = self.reversed.next_unchecked();
        self.end -= 1;
        Some(res)
    }

    /// Returns the number of values that are left.
    pub fn len(&self) -> (r: usize)
        requires
            self.wf(),
        ensures
            r == self.remaining().len(),
    {
        // A start beyond the end leaves nothing, and is no error.
        self.end.saturating_sub(self.start)
    }

    /// Takes all the values that are left, front to back.
    pub fn collect(self) -> (r: Vec<u64>)
        requires
            self.wf(),
        ensures
            r@ == self.remaining(),
            self.start() == 0 && self.end() == self.vec()@.len() ==> r@ == self.vec()@,
    {
        let mut it = self;
        let mut out: Vec<u64> = Vec::new();
        loop
            invariant
                it.wf(),
                it.vec() == self.vec(),
                it.end() == self.end(),
                self.start() <= it.start(),
                it.start() <= it.end() || it.start() == self.start(),
                self.start() < self.end() ==> out@ == self.vec()@.subrange(
                    self.start() as int,
                    it.start() as int,
                ),
                self.start() >= self.end() ==> out@ == Seq::<u64>::empty(),
            ensures
                out@ == self.remaining(),
                self.start() == 0 && self.end() == self.vec()@.len() ==> out@ == self.vec()@,
            decreases it.remaining().len(),
        {
            let ghost before = out@;
            let ghost at = it.start();
            match it.next() {
                Some(v) => {
                    out.push(v);
                    assert(out@ =~= self.vec()@.subrange(self.start() as int, at + 1));
                },
                None => {
                    proof {
                        if self.start() == 0 && self.end() == self.vec()@.len() {
                            assert(self.remaining() =~= self.vec()@);
                        }
                    }
                    break ;
                },
            }
        }
        out
    }

    /// Takes all the values that are left, back to front.
    pub fn collect_rev(self) -> (r: Vec<u64>)
        requires
            self.wf(),
        ensures
            r@ == self.remaining().reverse(),
            self.start() == 0 && self.end() == self.vec()@.len() ==> r@ == self.vec()@.reverse(),
    {
        let mut it = self;
        let mut out: Vec<u64> = Vec::new();
        loop
            invariant
                it.wf(),
                it.vec() == self.vec(),
                it.start() == self.start(),
                it.end() <= self.end(),
                self.end() <= self.vec()@.len(),
                it.start() <= it.end() || it.end() == self.end(),
                self.start() < self.end() ==> out@ == self.vec()@.subrange(
                    it.end() as int,
                    self.end() as int,
                ).reverse(),
                self.start() >= self.end() ==> out@ == Seq::<u64>::empty(),
            ensures
                out@ == self.remaining().reverse(),
                self.start() == 0 && self.end() == self.vec()@.len() ==> out@
                    == self.vec()@.reverse(),
            decreases it.remaining().len(),
        {
            let ghost at = it.end();
            match it.next_back() {
                Some(v) => {
                    out.push(v);
                    proof {
                        let wanted = self.vec()@.subrange(at - 1, self.end() as int).reverse();
                        let had = self.vec()@.subrange(at as int, self.end() as int).reverse();
                        assert(out@.len() == wanted.len());
                        assert forall|i: int| 0 <= i < wanted.len() implies out@[i]
                            == wanted[i] by {
                            if i < had.len() {
                                assert(out@[i] == had[i]);
                            }
                        }
                        assert(out@ =~= wanted);
                    }
                },
                None => {
                    proof {
                        assert(self.remaining().reverse() =~= out@);
                        if self.start() == 0 && self.end() == self.vec()@.len() {
                            assert(self.remaining() =~= self.vec()@);
                        }
                    }
                    break ;
                },
            }
        }
        out
    }
}

impl BitFieldVec {
    /// Creates a scan over all the values of the vector.
    pub fn iter(&self) -> (r: BitFieldVecIterator<'_>)
        requires
            self.wf(),
        ensures
            r.wf(),
            r.vec() == *self,
            r.start() == 0,
            r.end() == self.spec_len(),
    {
        BitFieldVecIterator::from(self)
    }

    /// Creates a scan over the values from `start` up to, not including, `end`.
    pub fn iter_range(&self, start: usize, end: usize) -> (r: BitFieldVecIterator<'_>)
        requires
            self.wf(),
            start <= self.spec_len(),
            end <= self.spec_len(),
        ensures
            r.wf(),
            r.vec() == *self,
            r.start() == start,
            r.end() == end,
    {
        BitFieldVecIterator::from_range(self, start, end)
    }

    /// Creates a scan over the values from the first up to, not including, `end`.
    pub fn iter_to(&self, end: usize) -> (r: BitFieldVecIterator<'_>)
        requires
            self.wf(),
            end <= self.spec_len(),
        ensures
            r.wf(),
            r.vec() == *self,
            r.start() == 0,
            r.end() == end,
    {
        BitFieldVecIterator::from_end(self, end)
    }

    /// Creates a scan over the values from `start` to the end of the vector.
    pub fn iter_from(&self, start: usize) -> (r: BitFieldVecIterator<'_>)
        requires
            self.wf(),
            start <= self.spec_len(),
        ensures
            r.wf(),
            r.vec() == *self,
            r.start() == start,
            r.end() == self.spec_len(),
    {
        BitFieldVecIterator::from_start(self, start)
    }

    /// Starts a forward scan without bound checks at the value `from`.
    pub fn into_unchecked_iter_from(&self, from: usize) -> (r: BitFieldVectorUncheckedIterator<'_>)
        requires
            self.wf(),
            from <= self.spec_len(),
        ensures
            r.wf(),
            r.vec() == *self,
            r.position() == from,
    {
        BitFieldVectorUncheckedIterator::new(self, from)
    }

    /// Starts a backward scan without bound checks from the end of the vector.
    pub fn into_rev_unchecked_iter(&self) -> (r: BitFieldVectorReverseUncheckedIterator<'_>)
        requires
            self.wf(),
        ensures
            r.wf(),
            r.vec() == *self,
            r.position() == self.spec_len(),
    {
        BitFieldVectorReverseUncheckedIterator::new(self, self.len())
    }

    /// Starts a backward scan without bound checks just before the value `from`.
    pub fn into_rev_unchecked_iter_from(&self, from: usize) -> (r:
        BitFieldVectorReverseUncheckedIterator<'_>)
        requires
            self.wf(),
            from <= self.spec_len(),
        ensures
            r.wf(),
            r.vec() == *self,
            r.position() == from,
    {
        BitFieldVectorReverseUncheckedIterator::new(self, from)
    }
}

} // verus!
