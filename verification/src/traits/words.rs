//! Writing and reading arrays of words.

use crate::traits::serdes::{
    lemma_fits, lemma_uint_round_trip, read_uint, uint_at, uint_bytes, write_uint, ByteOrder,
};
use vstd::prelude::*;

verus! {

/// The bytes of the words, one word after the other.
pub open spec fn words_image(words: Seq<u64>, order: ByteOrder) -> Seq<u8> {
    Seq::new(8 * words.len(), |j: int| uint_bytes(words[j / 8], 8, order)[j % 8])
}

/// The `count` words that the bytes from `at` on spell.
pub open spec fn words_at(bytes: Seq<u8>, at: int, count: nat, order: ByteOrder) -> Seq<u64> {
    Seq::new(count, |k: int| uint_at(bytes, at + 8 * k, 8, order))
}

/// The bytes of words, found again at their place in a longer string of
/// bytes, spell the words.
pub proof fn lemma_words_round_trip(
    before: Seq<u8>,
    words: Seq<u64>,
    after: Seq<u8>,
    order: ByteOrder,
)
    ensures
        words_image(words, order).len() == 8 * words.len(),
        words_at(
            before + words_image(words, order) + after,
            before.len() as int,
            words.len(),
            order,
        ) == words,
{
    let bytes = before + words_image(words, order) + after;
    let read = words_at(bytes, before.len() as int, words.len(), order);
    assert forall|k: int| 0 <= k < words.len() implies read[k] == words[k] by {
        lemma_fits(words[k]);
        lemma_uint_round_trip(words[k], 8, order);
        assert(bytes.subrange(before.len() + 8 * k, before.len() + 8 * k + 8) =~= uint_bytes(
            words[k],
            8,
            order,
        ));
    }
    assert(read =~= words);
}

/// Writes the first `count` words of `words` at the end of `backend`.
pub fn write_words(backend: &mut Vec<u8>, words: &Vec<u64>, count: usize, order: ByteOrder)
    requires
        count <= words@.len(),
    ensures
        final(backend)@ == old(backend)@ + words_image(words@.subrange(0, count as int), order),
{
    let mut k: usize = 0;
    while k < count
        invariant
            k <= count <= words@.len(),
            backend@ == old(backend)@ + words_image(words@.subrange(0, k as int), order),
        decreases count - k,
    {
        let ghost written = backend@;
        write_uint(backend, words[k], 8, order);
        k += 1;
        proof {
            let now = words_image(words@.subrange(0, k as int), order);
            let then = words_image(words@.subrange(0, k - 1), order);
            assert(now =~= then + uint_bytes(words@[k - 1], 8, order));
            assert(backend@ =~= old(backend)@ + now);
        }
    }
}

/// Reads `count` words at the position `at`.
pub fn read_words(backend: &[u8], at: usize, count: usize, order: ByteOrder) -> (r: Vec<u64>)
    requires
        at + 8 * count <= backend@.len(),
    ensures
        r@ == words_at(backend@, at as int, count as nat, order),
{
    let n = backend.len();
    let mut words: Vec<u64> = Vec::with_capacity(count);
    let mut k: usize = 0;
    while k < count
        invariant
            k <= count,
            n == backend@.len(),
            at + 8 * count <= n,
            words@.len() == k,
            forall|j: int| 0 <= j < k ==> #[trigger] words@[j] == uint_at(
                backend@,
                at + 8 * j,
                8,
                order,
            ),
        decreases count - k,
    {
        words.push(read_uint(backend, at + 8 * k, 8, order));
        k += 1;
    }
    assert(words@ =~= words_at(backend@, at as int, count as nat, order));
    words
}

} // verus!
