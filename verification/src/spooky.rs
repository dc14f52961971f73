//! A fast 128-bit mixing hash for short keys, in the style of SpookyHash:
//! not cryptographic, but a fixed function of the bytes and the seed.

use crate::bits::word::{rotate_left, rotl};
use vstd::prelude::*;

verus! {

/// The constant that fills the part of the state that the seed does not.
pub const SC_CONST: u64 = 0xdead_beef_dead_beef;

/// The state of the mixer: four words.
pub type State = (u64, u64, u64, u64);

/// One step of the mixing rounds: rotate `a`, add `b` to it, fold it into `c`.
pub open spec fn mix_step(a: u64, b: u64, c: u64, k: u64) -> (u64, u64) {
    let a = rotl(a, k).wrapping_add(b);
    (a, c ^ a)
}

/// One step of the final rounds: fold `b` into `a`, rotate `b`, add it to `a`.
pub open spec fn end_step(a: u64, b: u64, k: u64) -> (u64, u64) {
    let a = a ^ b;
    let b = rotl(b, k);
    (a.wrapping_add(b), b)
}

/// The twelve mixing steps that follow each block of sixteen bytes.
pub open spec fn short_mix(h: State) -> State {
    let (h0, h1, h2, h3) = h;
    let (h2, h0) = mix_step(h2, h3, h0, 50);
    let (h3, h1) = mix_step(h3, h0, h1, 52);
    let (h0, h2) = mix_step(h0, h1, h2, 30);
    let (h1, h3) = mix_step(h1, h2, h3, 41);
    let (h2, h0) = mix_step(h2, h3, h0, 54);
    let (h3, h1) = mix_step(h3, h0, h1, 48);
    let (h0, h2) = mix_step(h0, h1, h2, 38);
    let (h1, h3) = mix_step(h1, h2, h3, 37);
    let (h2, h0) = mix_step(h2, h3, h0, 62);
    let (h3, h1) = mix_step(h3, h0, h1, 34);
    let (h0, h2) = mix_step(h0, h1, h2, 5);
    let (h1, h3) = mix_step(h1, h2, h3, 36);
    (h0, h1, h2, h3)
}

/// The eleven steps that end the hash.
pub open spec fn short_end(h: State) -> State {
    let (h0, h1, h2, h3) = h;
    let (h3, h2) = end_step(h3, h2, 15);
    let (h0, h3) = end_step(h0, h3, 52);
    let (h1, h0) = end_step(h1, h0, 26);
    let (h2, h1) = end_step(h2, h1, 51);
    let (h3, h2) = end_step(h3, h2, 28);
    let (h0, h3) = end_step(h0, h3, 9);
    let (h1, h0) = end_step(h1, h0, 47);
    let (h2, h1) = end_step(h2, h1, 54);
    let (h3, h2) = end_step(h3, h2, 32);
    let (h0, h3) = end_step(h0, h3, 25);
    let (h1, h0) = end_step(h1, h0, 63);
    (h0, h1, h2, h3)
}

/// The number that the `count` bytes from `start` on spell, lowest byte first.
pub open spec fn le_value(bytes: Seq<u8>, start: int, count: nat) -> u64
    decreases count,
{
    if count == 0 {
        0
    } else {
        le_value(bytes, start, (count - 1) as nat) | ((bytes[start + count - 1] as u64) << ((8 * (
        count - 1)) as u64))
    }
}

/// The state after the first `blocks` blocks of sixteen bytes were taken in;
/// each pair of blocks also feeds the first two words.
pub open spec fn absorb(bytes: Seq<u8>, seed: u64, blocks: nat) -> State
    decreases blocks,
{
    if blocks == 0 {
        (seed, seed, SC_CONST, SC_CONST)
    } else {
        let (h0, h1, h2, h3) = absorb(bytes, seed, (blocks - 1) as nat);
        let at = 16 * (blocks - 1);
        if blocks % 2 == 1 {
            short_mix(
                (
                    h0,
                    h1,
                    h2.wrapping_add(le_value(bytes, at, 8)),
                    h3.wrapping_add(le_value(bytes, at + 8, 8)),
                ),
            )
        } else {
            (
                h0.wrapping_add(le_value(bytes, at, 8)),
                h1.wrapping_add(le_value(bytes, at + 8, 8)),
                h2,
                h3,
            )
        }
    }
}

/// The four words that the hash of `bytes` under `seed` consists of.
pub open spec fn spooky_short_spec(bytes: Seq<u8>, seed: u64) -> State {
    let len = bytes.len();
    let blocks = tail_start(len) / 16;
    let (h0, h1, h2, h3) = absorb(bytes, seed, blocks);
    let at = tail_start(len) as int;
    let rest = (len - at) as nat;
    let h3 = h3.wrapping_add((len as u64) << 56);
    if rest == 0 {
        short_end((h0, h1, h2.wrapping_add(SC_CONST), h3.wrapping_add(SC_CONST)))
    } else if rest <= 8 {
        short_end((h0, h1, h2.wrapping_add(le_value(bytes, at, rest)), h3))
    } else {
        short_end(
            (
                h0,
                h1,
                h2.wrapping_add(le_value(bytes, at, 8)),
                h3.wrapping_add(le_value(bytes, at + 8, (rest - 8) as nat)),
            ),
        )
    }
}

/// Where the tail begins: after the blocks of thirty-two bytes and, where
/// sixteen bytes or more are left, one block more.
pub open spec fn tail_start(len: nat) -> nat {
    if len > 15 {
        let pairs = 32 * (len / 32);
        if len - pairs >= 16 {
            pairs + 16
        } else {
            pairs
        }
    } else {
        0
    }
}

/// Applies one mixing step.
fn mix(a: u64, b: u64, c: u64, k: usize) -> (r: (u64, u64))
    ensures
        r == mix_step(a, b, c, k as u64),
{
    let a = rotate_left(a, k).wrapping_add(b);
    (a, c ^ a)
}

/// Applies one final step.
fn end(a: u64, b: u64, k: usize) -> (r: (u64, u64))
    ensures
        r == end_step(a, b, k as u64),
{
    let a = a ^ b;
    let b = rotate_left(b, k);
    (a.wrapping_add(b), b)
}

/// Mixes the four words of the state.
pub fn spooky_short_mix(h: [u64; 4]) -> (r: [u64; 4])
    ensures
        (r[0], r[1], r[2], r[3]) == short_mix((h[0], h[1], h[2], h[3])),
{
    let (h0, h1, h2, h3) = (h[0], h[1], h[2], h[3]);
    let (h2, h0) = mix(h2, h3, h0, 50);
    let (h3, h1) = mix(h3, h0, h1, 52);
    let (h0, h2) = mix(h0, h1, h2, 30);
    let (h1, h3) = mix(h1, h2, h3, 41);
    let (h2, h0) = mix(h2, h3, h0, 54);
    let (h3, h1) = mix(h3, h0, h1, 48);
    let (h0, h2) = mix(h0, h1, h2, 38);
    let (h1, h3) = mix(h1, h2, h3, 37);
    let (h2, h0) = mix(h2, h3, h0, 62);
    let (h3, h1) = mix(h3, h0, h1, 34);
    let (h0, h2) = mix(h0, h1, h2, 5);
    let (h1, h3) = mix(h1, h2, h3, 36);
    [h0, h1, h2, h3]
}

/// Ends the hash: mixes the four words so that each depends on all.
pub fn spooky_short_end(h: [u64; 4]) -> (r: [u64; 4])
    ensures
        (r[0], r[1], r[2], r[3]) == short_end((h[0], h[1], h[2], h[3])),
{
    let (h0, h1, h2, h3) = (h[0], h[1], h[2], h[3]);
    let (h3, h2) = end(h3, h2, 15);
    let (h0, h3) = end(h0, h3, 52);
    let (h1, h0) = end(h1, h0, 26);
    let (h2, h1) = end(h2, h1, 51);
    let (h3, h2) = end(h3, h2, 28);
    let (h0, h3) = end(h0, h3, 9);
    let (h1, h0) = end(h1, h0, 47);
    let (h2, h1) = end(h2, h1, 54);
    let (h3, h2) = end(h3, h2, 32);
    let (h0, h3) = end(h0, h3, 25);
    let (h1, h0) = end(h1, h0, 63);
    [h0, h1, h2, h3]
}

/// Reads `count` bytes from `start` on as a number, lowest byte first.
fn read_le(data: &[u8], start: usize, count: usize) -> (r: u64)
    requires
        count <= 8,
        start + count <= data@.len(),
    ensures
        r == le_value(data@, start as int, count as nat),
{
    let n = data.len();
    let mut r: u64 = 0;
    let mut i: usize = 0;
    while i < count
        invariant
            i <= count <= 8,
            start + count <= n,
            n == data@.len(),
            r == le_value(data@, start as int, i as nat),
        decreases count - i,
    {
        r = r | ((data[start + i] as u64) << (8 * i));
        i += 1;
    }
    r
}

/// Hashes `data` under `seed` into four words.
#[verifier::rlimit(50)]
pub fn spooky_short(data: &[u8], seed: u64) -> (r: [u64; 4])
    ensures
        (r[0], r[1], r[2], r[3]) == spooky_short_spec(data@, seed),
{
    let len = data.len();
    let mut h0 = seed;
    let mut h1 = seed;
    let mut h2 = SC_CONST;
    let mut h3 = SC_CONST;
    let mut at: usize = 0;
    if len > 15 {
        let pairs = len / 32;
        let mut pair: usize = 0;
        // All the complete blocks of thirty-two bytes.
        while pair < pairs
            invariant
                pair <= pairs,
                pairs == len / 32,
                at == 32 * pair,
                len == data@.len(),
                (h0, h1, h2, h3) == absorb(data@, seed, (2 * pair) as nat),
            decreases pairs - pair,
        {
            h2 = h2.wrapping_add(read_le(data, at, 8));
            h3 = h3.wrapping_add(read_le(data, at + 8, 8));
            let mixed = spooky_short_mix([h0, h1, h2, h3]);
            h0 = mixed[0].wrapping_add(read_le(data, at + 16, 8));
            h1 = mixed[1].wrapping_add(read_le(data, at + 24, 8));
            h2 = mixed[2];
            h3 = mixed[3];
            proof {
                let b = (2 * pair) as nat;
                assert(absorb(data@, seed, b + 2) == (h0, h1, h2, h3)) by {
                    reveal_with_fuel(absorb, 3);
                }
            }
            at += 32;
            pair += 1;
        }
        // Sixteen bytes or more that are left.
        if len - at >= 16 {
            h2 = h2.wrapping_add(read_le(data, at, 8));
            h3 = h3.wrapping_add(read_le(data, at + 8, 8));
            let mixed = spooky_short_mix([h0, h1, h2, h3]);
            h0 = mixed[0];
            h1 = mixed[1];
            h2 = mixed[2];
            h3 = mixed[3];
            at += 16;
        }
    }
    // The last bytes, fewer than sixteen, and the length.
    let rest = len - at;
    h3 = h3.wrapping_add((len as u64) << 56);
    if rest == 0 {
        h2 = h2.wrapping_add(SC_CONST);
        h3 = h3.wrapping_add(SC_CONST);
    } else if rest <= 8 {
        h2 = h2.wrapping_add(read_le(data, at, rest));
    } else {
        h2 = h2.wrapping_add(read_le(data, at, 8));
        h3 = h3.wrapping_add(read_le(data, at + 8, rest - 8));
    }
    spooky_short_end([h0, h1, h2, h3])
}

/// Hashes a signature again under another seed.
pub fn spooky_short_rehash(signature: &[u64; 2], seed: u64) -> (r: [u64; 4])
    ensures
        (r[0], r[1], r[2], r[3]) == short_mix(
            (
                seed,
                SC_CONST.wrapping_add(signature[0]),
                SC_CONST.wrapping_add(signature[1]),
                SC_CONST,
            ),
        ),
{
    spooky_short_mix(
        [seed, SC_CONST.wrapping_add(signature[0]), SC_CONST.wrapping_add(signature[1]), SC_CONST],
    )
}

} // verus!
