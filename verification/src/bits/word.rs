//! Bit ranges inside a single 64-bit storage word.
//!
//! Every structure of this crate that packs values into words states its
//! layout through [`bits_of`]: the value found in a range of bits of a word.

use vstd::arithmetic::div_mod::{lemma_basic_div, lemma_div_denominator};
use vstd::arithmetic::power2::{lemma2_to64, lemma_pow2_adds, lemma_pow2_pos, pow2};
use vstd::bits::lemma_u64_shr_is_div;
use vstd::prelude::*;

verus! {

/// A word whose lowest `n` bits are one and whose other bits are zero.
pub open spec fn low_mask(n: u64) -> u64 {
    if n == 0 {
        0u64
    } else if n >= 64 {
        u64::MAX
    } else {
        u64::MAX >> ((64 - n) as u64)
    }
}

/// The `n` bits of `w` that start at bit `lo`, moved down to bit zero.
pub open spec fn bits_of(w: u64, lo: u64, n: u64) -> u64 {
    (w >> lo) & low_mask(n)
}

/// `w` and `w2` agree on every bit outside the range `[lo, lo + n)`.
pub open spec fn same_outside(w: u64, w2: u64, lo: u64, n: u64) -> bool {
    w & !(low_mask(n) << lo) == w2 & !(low_mask(n) << lo)
}

/// Computes the mask that keeps the lowest `bit_width` bits of a word.
pub fn mask(bit_width: usize) -> (m: u64)
    requires
        bit_width <= 64,
    ensures
        m == low_mask(bit_width as u64),
{
    if bit_width == 0 {
        0
    } else {
        let m = u64::MAX >> (64 - bit_width);
        assert(u64::MAX >> 0u64 == u64::MAX) by (bit_vector);
        m
    }
}

/// A value read from a range of bits fits in as many bits.
pub proof fn lemma_bits_of_bound(w: u64, lo: u64, n: u64)
    by (bit_vector)
    requires
        lo < 64,
        n <= 64,
    ensures
        bits_of(w, lo, n) <= low_mask(n),
        bits_of(w, lo, n) & low_mask(n) == bits_of(w, lo, n),
{
}

/// Bits outside a rewritten range read as they did before.
pub proof fn lemma_disjoint_read(w: u64, w2: u64, lo: u64, n: u64, lo2: u64, n2: u64)
    by (bit_vector)
    requires
        lo < 64,
        lo2 < 64,
        n <= 64,
        n2 <= 64,
        lo + n <= 64,
        lo2 + n2 <= 64,
        lo2 + n2 <= lo || lo + n <= lo2 || n == 0,
        same_outside(w, w2, lo, n),
    ensures
        bits_of(w2, lo2, n2) == bits_of(w, lo2, n2),
{
}

/// For a bit position strictly inside a word, `2^b - 1` is the mask of the `b` lowest bits.
pub proof fn lemma_pow2_minus_one(b: u64)
    by (bit_vector)
    requires
        0 < b < 64,
    ensures
        (1u64 << b) >= 1,
        ((1u64 << b) - 1) as u64 == low_mask(b),
{
}

/// A range of no bits holds zero, whatever the word.
pub proof fn lemma_bits_of_empty(w: u64, lo: u64)
    by (bit_vector)
    requires
        lo < 64,
    ensures
        bits_of(w, lo, 0) == 0,
{
}

/// Reading a value that lies across two words: the upper bits of the first
/// word joined with the lower bits of the second.
pub proof fn lemma_straddle_read(w0: u64, w1: u64, b: u64, n: u64)
    by (bit_vector)
    requires
        0 < b < 64,
        n <= 64,
        b + n > 64,
    ensures
        ((w0 >> b) | (w1 << ((64 - b) as u64))) & low_mask(n) == bits_of(w0, b, (64 - b) as u64) | (
        bits_of(w1, 0, (b + n - 64) as u64) << ((64 - b) as u64)),
{
}

/// Writing a value into a range that lies inside one word.
pub proof fn lemma_write_within(w: u64, v: u64, b: u64, n: u64)
    by (bit_vector)
    requires
        b < 64,
        n <= 64,
        b + n <= 64,
        v <= low_mask(n),
    ensures
        same_outside(w, (w & !(low_mask(n) << b)) | (v << b), b, n),
        bits_of((w & !(low_mask(n) << b)) | (v << b), b, n) == v,
{
}

/// Writing the lower part of a value into the top of a word.
pub proof fn lemma_write_straddle_low(w: u64, v: u64, b: u64, n: u64)
    by (bit_vector)
    requires
        0 < b < 64,
        n <= 64,
        b + n > 64,
    ensures
        same_outside(w, (w & low_mask(b)) | (v << b), b, (64 - b) as u64),
        bits_of((w & low_mask(b)) | (v << b), b, (64 - b) as u64) == bits_of(
            v,
            0,
            (64 - b) as u64,
        ),
{
}

/// Writing the upper part of a value into the bottom of the next word.
pub proof fn lemma_write_straddle_high(w: u64, v: u64, b: u64, n: u64)
    by (bit_vector)
    requires
        0 < b < 64,
        n <= 64,
        b + n > 64,
        v <= low_mask(n),
    ensures
        same_outside(
            w,
            (w & !(low_mask(n) >> ((64 - b) as u64))) | (v >> ((64 - b) as u64)),
            0,
            (b + n - 64) as u64,
        ),
        bits_of(
            (w & !(low_mask(n) >> ((64 - b) as u64))) | (v >> ((64 - b) as u64)),
            0,
            (b + n - 64) as u64,
        ) == v >> ((64 - b) as u64),
{
}

/// The two parts of a value written across two words make up the value.
pub proof fn lemma_straddle_parts(v: u64, b: u64, n: u64)
    by (bit_vector)
    requires
        0 < b < 64,
        n <= 64,
        b + n > 64,
        v <= low_mask(n),
    ensures
        bits_of(v, 0, (64 - b) as u64) | ((v >> ((64 - b) as u64)) << ((64 - b) as u64)) == v,
{
}

/// `w` with its bits moved `n` places up, the bits that leave at the top
/// entering at the bottom.
pub open spec fn rotl(w: u64, n: u64) -> u64 {
    let k = n % 64;
    if k == 0 {
        w
    } else {
        (w << k) | (w >> ((64 - k) as u64))
    }
}

/// `w` moved `n` places down; zero when nothing is left.
pub open spec fn shr_or_zero(w: u64, n: u64) -> u64 {
    if n >= 64 {
        0
    } else {
        w >> n
    }
}

/// `w` moved `n` places up; zero when nothing is left.
pub open spec fn shl_or_zero(w: u64, n: u64) -> u64 {
    if n >= 64 {
        0
    } else {
        w << n
    }
}

/// Rotates the bits of `w` to the left by `n` places.
pub fn rotate_left(w: u64, n: usize) -> (r: u64)
    ensures
        r == rotl(w, n as u64),
{
    let k = n % 64;
    if k == 0 {
        w
    } else {
        (w << k) | (w >> (64 - k))
    }
}

/// Shifts `w` down by `n` places, giving zero for a shift of a whole word or more.
pub fn shift_right(w: u64, n: usize) -> (r: u64)
    ensures
        r == shr_or_zero(w, n as u64),
{
    if n >= 64 {
        0
    } else {
        w >> n
    }
}

/// Shifts `w` up by `n` places, giving zero for a shift of a whole word or more.
pub fn shift_left(w: u64, n: usize) -> (r: u64)
    ensures
        r == shl_or_zero(w, n as u64),
{
    if n >= 64 {
        0
    } else {
        w << n
    }
}

/// Shifting down twice is shifting down once by the sum.
pub proof fn lemma_shr_twice(w: u64, a: u64, n: u64)
    requires
        a < 64,
        n <= 64,
        a + n <= 64,
    ensures
        shr_or_zero(w >> a, n) == shr_or_zero(w, (a + n) as u64),
{
    if n < 64 {
        let x = w >> a;
        lemma_u64_shr_is_div(w, a);
        lemma_u64_shr_is_div(x, n);
        lemma_pow2_pos(a as nat);
        lemma_pow2_pos(n as nat);
        lemma_pow2_adds(a as nat, n as nat);
        lemma_div_denominator(w as int, pow2(a as nat) as int, pow2(n as nat) as int);
        if a + n < 64 {
            lemma_u64_shr_is_div(w, (a + n) as u64);
        } else {
            lemma2_to64();
            lemma_basic_div(w as int, pow2(64) as int);
        }
    }
}

/// Joining what is left in a window with the bottom of the next word.
pub proof fn lemma_window_refill(w0: u64, w1: u64, f: u64, n: u64)
    by (bit_vector)
    requires
        f < n <= 64,
    ensures
        f > 0 ==> ((w0 >> ((64 - f) as u64)) | (w1 << f)) & low_mask(n) == bits_of(
            w0,
            (64 - f) as u64,
            f,
        ) | (bits_of(w1, 0, (n - f) as u64) << f),
        f == 0 ==> (0 | (w1 << f)) & low_mask(n) == bits_of(w1, 0, n),
{
}

/// The top `f` bits of `window` are the bits `[0, f)` of `w`.
pub open spec fn holds_low_bits(window: u64, w: u64, f: u64) -> bool {
    f == 0 || window >> ((64 - f) as u64) == w & low_mask(f)
}

/// A word moved to the top of a window leaves its low bits there.
pub proof fn lemma_rev_window_init(w: u64, f: u64)
    by (bit_vector)
    requires
        0 < f <= 64,
    ensures
        holds_low_bits(w << ((64 - f) as u64), w, f),
{
}

/// Taking `n` bits from the top of a window that holds the low `f` bits of a word.
#[verifier::rlimit(100)]
pub proof fn lemma_rev_window_take(window: u64, w: u64, f: u64, n: u64)
    by (bit_vector)
    requires
        n <= f <= 64,
        holds_low_bits(window, w, f),
    ensures
        rotl(window, n) & low_mask(n) == bits_of(w, (f - n) as u64, n),
{
}

/// What is left at the top of a window after `n` bits were taken from it.
#[verifier::rlimit(100)]
pub proof fn lemma_rev_window_rest(window: u64, w: u64, f: u64, n: u64)
    by (bit_vector)
    requires
        n <= f <= 64,
        holds_low_bits(window, w, f),
    ensures
        holds_low_bits(rotl(window, n), w, (f - n) as u64),
{
}

/// Joining what is left at the top of a window with the top of the word before.
#[verifier::rlimit(100)]
pub proof fn lemma_rev_window_refill(window: u64, w0: u64, w1: u64, f: u64, n: u64)
    by (bit_vector)
    requires
        0 < f < n <= 64,
        holds_low_bits(window, w1, f),
    ensures
        (shl_or_zero(rotl(window, f), (n - f) as u64) | (w0 >> ((64 - (n - f)) as u64)))
            & low_mask(n) == bits_of(w0, (64 - (n - f)) as u64, (n - f) as u64) | (bits_of(
            w1,
            0,
            f,
        ) << ((n - f) as u64)),
{
}

/// Taking a whole element from the top of the word before, when the window is empty.
pub proof fn lemma_rev_window_next_word(window: u64, w0: u64, n: u64)
    by (bit_vector)
    requires
        0 < n <= 64,
    ensures
        (shl_or_zero(window, n) | (w0 >> ((64 - n) as u64))) & low_mask(n) == bits_of(
            w0,
            (64 - n) as u64,
            n,
        ),
{
}

/// A word moved up by `used` places leaves its other bits at the top of the window.
pub proof fn lemma_rev_window_reload(w0: u64, used: u64)
    by (bit_vector)
    requires
        0 < used <= 64,
    ensures
        holds_low_bits(shl_or_zero(w0, used), w0, (64 - used) as u64),
{
}

/// The widths that divide a word: the powers of two up to 64.
pub open spec fn divides_word(n: nat) -> bool {
    n == 1 || n == 2 || n == 4 || n == 8 || n == 16 || n == 32 || n == 64
}

/// Tells whether a width of at most 64 is a power of two.
pub fn is_power_of_two(n: usize) -> (r: bool)
    requires
        n <= 64,
    ensures
        r == divides_word(n as nat),
{
    let x = n as u64;
    assert(x <= 64 ==> ((x != 0 && x & ((x - 1) as u64) == 0) <==> (x == 1 || x == 2 || x == 4 || x
        == 8 || x == 16 || x == 32 || x == 64))) by (bit_vector);
    x != 0 && x & (x - 1) == 0
}

/// What a mask lets through is at most the mask.
pub proof fn lemma_masked(x: u64, m: u64)
    by (bit_vector)
    ensures
        x & m <= m,
        (1u64 << 0u64) >= 1,
        low_mask(1) == 1,
{
}

/// A shift by no places changes nothing.
pub proof fn lemma_shift_by_zero(a: u64)
    by (bit_vector)
    ensures
        a >> 0u64 == a,
        a << 0u64 == a,
{
}

/// The order of the operands of `&` does not matter, all ones keep a word and
/// no ones clear it.
pub proof fn lemma_and_basics(a: u64, b: u64)
    by (bit_vector)
    ensures
        a & b == b & a,
        a & low_mask(64) == a,
        a & low_mask(0) == 0,
        a & 0 == 0,
        (a & u64::MAX) | 0 == a,
{
}

/// A buffer that holds the bits below `o` of a word, joined with a value at
/// `o`, holds the bits below `o + n` of the word with the value written at `o`.
pub proof fn lemma_buffer_within(buffer: u64, m: u64, v: u64, o: u64, n: u64)
    by (bit_vector)
    requires
        o < 64,
        n <= 64,
        o + n <= 64,
        v <= low_mask(n),
        buffer == m & low_mask(o),
    ensures
        buffer | (v << o) == ((m & !(low_mask(n) << o)) | (v << o)) & low_mask((o + n) as u64),
{
}

/// The upper part of a value written across two words is all that the
/// second word holds below the end of the value.
pub proof fn lemma_buffer_carry(m: u64, v: u64, o: u64, n: u64)
    by (bit_vector)
    requires
        0 < o < 64,
        n <= 64,
        o + n > 64,
        v <= low_mask(n),
    ensures
        v >> ((64 - o) as u64) == ((m & !(low_mask(n) >> ((64 - o) as u64))) | (v >> ((64
            - o) as u64))) & low_mask((o + n - 64) as u64),
{
}

/// A word cut down to its bits below `t` agrees with itself outside `[t, 64)`.
pub proof fn lemma_cut_keeps_low(m: u64, t: u64)
    by (bit_vector)
    requires
        0 < t <= 64,
    ensures
        same_outside(m, m & low_mask(t), if t == 64 { 0 } else { t }, (64 - t) as u64),
{
}

/// What a range of bits holds in a word of zeros and in a word of ones, inside
/// one word or across two.
pub proof fn lemma_uniform_words(b: u64, n: u64)
    by (bit_vector)
    requires
        b < 64,
        n <= 64,
    ensures
        b + n <= 64 ==> bits_of(0, b, n) == 0,
        b + n <= 64 ==> bits_of(u64::MAX, b, n) == low_mask(n),
        b + n > 64 ==> bits_of(0, b, (64 - b) as u64) | (bits_of(0, 0, (b + n - 64) as u64) << ((64
            - b) as u64)) == 0,
        b + n > 64 ==> bits_of(u64::MAX, b, (64 - b) as u64) | (bits_of(
            u64::MAX,
            0,
            (b + n - 64) as u64,
        ) << ((64 - b) as u64)) == low_mask(n),
{
}

/// The number of bits that it takes to write `x`: zero for zero.
pub open spec fn bit_len(x: u64) -> nat
    decreases x,
{
    if x == 0 {
        0
    } else {
        1 + bit_len(x / 2)
    }
}

/// A value fits in `n` bits exactly when it takes at most `n` bits to write it.
pub proof fn lemma_bit_len(x: u64, n: u64)
    requires
        n <= 64,
    ensures
        bit_len(x) <= 64,
        x <= low_mask(n) <==> bit_len(x) <= n,
    decreases x,
{
    if x != 0 {
        let h = x / 2;
        lemma_bit_len(h, 63);
        assert(h <= low_mask(63)) by (bit_vector)
            requires
                h == x / 2,
        ;
        if n > 0 {
            let m = (n - 1) as u64;
            lemma_bit_len(h, m);
            assert(0 < n <= 64 && m == n - 1 && h == x / 2 ==> (x <= low_mask(n) <==> h
                <= low_mask(m))) by (bit_vector);
        }
    }
}

/// Computes the number of bits that it takes to write `x`.
pub fn bit_length(x: u64) -> (r: usize)
    ensures
        r == bit_len(x),
        r <= 64,
{
    let mut n: usize = 0;
    let mut rest = x;
    proof {
        lemma_bit_len(x, 64);
    }
    while rest != 0
        invariant
            n + bit_len(rest) == bit_len(x),
            bit_len(x) <= 64,
        decreases rest,
    {
        rest = rest / 2;
        n += 1;
    }
    n
}

} // verus!
