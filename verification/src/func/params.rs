//! The parameters of the construction: how many chunks the keys are split
//! into, how long the segments of a chunk are, and how much room a chunk gets.

use vstd::prelude::*;

verus! {

/// The number of entries of the table.
pub const NUM_PARAMS: usize = 15;

/// The table, by descending threshold: for chunks of at least `2^threshold`
/// keys, `2^log2_l` is the number of segments that a key's first vertex can
/// fall into, and `c100` hundredths the number of vertices that a chunk gets
/// for each of its keys.
pub open spec fn param_table() -> Seq<(nat, nat, nat)> {
    seq![
        (26, 9, 110),
        (25, 8, 111),
        (24, 9, 111),
        (23, 8, 111),
        (22, 9, 112),
        (21, 8, 112),
        (20, 7, 113),
        (19, 7, 114),
        (18, 6, 115),
        (17, 6, 116),
        (16, 6, 118),
        (15, 5, 120),
        (14, 5, 121),
        (13, 5, 122),
        (0, 0, 123),
    ]
}

/// Returns the entry `i` of the table: threshold, `log2_l`, `c100`.
pub fn param_entry(i: usize) -> (r: (u32, u32, u64))
    requires
        i < NUM_PARAMS,
    ensures
        (r.0 as nat, r.1 as nat, r.2 as nat) == param_table()[i as int],
        r.0 <= 26,
        r.1 <= 9,
        110 <= r.2 <= 123,
{
    if i == 0 {
        (26, 9, 110)
    } else if i == 1 {
        (25, 8, 111)
    } else if i == 2 {
        (24, 9, 111)
    } else if i == 3 {
        (23, 8, 111)
    } else if i == 4 {
        (22, 9, 112)
    } else if i == 5 {
        (21, 8, 112)
    } else if i == 6 {
        (20, 7, 113)
    } else if i == 7 {
        (19, 7, 114)
    } else if i == 8 {
        (18, 6, 115)
    } else if i == 9 {
        (17, 6, 116)
    } else if i == 10 {
        (16, 6, 118)
    } else if i == 11 {
        (15, 5, 120)
    } else if i == 12 {
        (14, 5, 121)
    } else if i == 13 {
        (13, 5, 122)
    } else {
        (0, 0, 123)
    }
}

/// Two to the power `e`.
pub open spec fn pow2(e: nat) -> nat {
    vstd::arithmetic::power2::pow2(e)
}

/// The number of keys that a chunk holds on average: `num_keys / 2^high_bits`.
pub open spec fn keys_per_chunk(num_keys: nat, high_bits: nat) -> nat {
    num_keys / pow2(high_bits)
}

/// The index of the first entry, from `from` on, whose threshold the chunks
/// reach; the last entry where none does.
pub open spec fn first_fit(per_chunk: nat, from: nat) -> nat
    decreases NUM_PARAMS - from,
{
    if from + 1 >= NUM_PARAMS {
        (NUM_PARAMS - 1) as nat
    } else if pow2(param_table()[from as int].0) <= per_chunk {
        from
    } else {
        first_fit(per_chunk, from + 1)
    }
}

/// The number of chunk bits that the construction settles on: as many as
/// asked for, less one for as long as the chunks are too small for the
/// table to give them at most 1.11 vertices a key.
pub open spec fn settled_high_bits(num_keys: nat, high_bits: nat) -> nat
    decreases high_bits,
{
    let entry = param_table()[first_fit(keys_per_chunk(num_keys, high_bits), 0) as int];
    if high_bits == 0 || entry.2 <= 111 {
        high_bits
    } else {
        settled_high_bits(num_keys, (high_bits - 1) as nat)
    }
}

/// The entry of the table that goes with the settled number of chunk bits.
pub open spec fn settled_entry(num_keys: nat, high_bits: nat) -> (nat, nat, nat) {
    param_table()[first_fit(
        keys_per_chunk(num_keys, settled_high_bits(num_keys, high_bits)),
        0,
    ) as int]
}

/// Walks the table for chunks of `per_chunk` keys.
pub fn pick_entry(per_chunk: u64) -> (r: (u32, u64))
    ensures
        (r.0 as nat, r.1 as nat) == (
            param_table()[first_fit(per_chunk as nat, 0) as int].1,
            param_table()[first_fit(per_chunk as nat, 0) as int].2,
        ),
        r.0 <= 9,
        110 <= r.1 <= 123,
{
    let mut i: usize = 0;
    while i + 1 < NUM_PARAMS
        invariant
            i < NUM_PARAMS,
            first_fit(per_chunk as nat, 0) == first_fit(per_chunk as nat, i as nat),
        decreases NUM_PARAMS - i,
    {
        let (threshold, log2_l, c100) = param_entry(i);
        proof {
            lemma_pow2_is_shift(threshold as u64);
        }
        if (1u64 << threshold) <= per_chunk {
            return (log2_l, c100);
        }
        i += 1;
    }
    let (_threshold, log2_l, c100) = param_entry(i);
    (log2_l, c100)
}

/// A shift of one is a power of two.
pub proof fn lemma_pow2_is_shift(e: u64)
    requires
        e < 64,
    ensures
        (1u64 << e) == pow2(e as nat),
{
    vstd::bits::lemma_u64_pow2_no_overflow(e as nat);
    vstd::bits::lemma_u64_shl_is_mul(1, e);
}

/// Shifting down is dividing by a power of two.
pub proof fn lemma_shr_is_div(x: u64, e: u64)
    requires
        e < 64,
    ensures
        (x >> e) == x as nat / pow2(e as nat),
{
    vstd::bits::lemma_u64_shr_is_div(x, e);
}

/// Settles the number of chunk bits and picks the entry that goes with it.
pub fn choose_params(num_keys: usize, high_bits: u32) -> (r: (u32, u32, u64))
    requires
        high_bits <= 32,
    ensures
        r.0 == settled_high_bits(num_keys as nat, high_bits as nat),
        (r.1 as nat, r.2 as nat) == (
            settled_entry(num_keys as nat, high_bits as nat).1,
            settled_entry(num_keys as nat, high_bits as nat).2,
        ),
        r.0 <= high_bits,
        r.1 <= 9,
        110 <= r.2 <= 123,
{
    let mut bits = high_bits;
    loop
        invariant
            bits <= high_bits <= 32,
            settled_high_bits(num_keys as nat, bits as nat) == settled_high_bits(
                num_keys as nat,
                high_bits as nat,
            ),
        decreases bits,
    {
        proof {
            lemma_shr_is_div(num_keys as u64, bits as u64);
        }
        let per_chunk = (num_keys as u64) >> bits;
        let (log2_l, c100) = pick_entry(per_chunk);
        if bits == 0 || c100 <= 111 {
            return (bits, log2_l, c100);
        }
        bits -= 1;
    }
}

} // verus!
