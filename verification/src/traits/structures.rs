//! How the structures of this crate are written to bytes and read back.

use crate::bits::bit_field_vec::{field_at, lemma_locate, BitFieldVec};
use crate::bits::bitmap::{as_bits, rank, Bitmap, CountingBitmap};
use crate::dict::elias_fano::{value_at, EliasFano};
use crate::func::function::{
    lemma_small_pow2, vertices_per_chunk, Function, MAX_HIGH_BITS, MAX_LOG2_L, MAX_SEGMENT_SIZE,
};
use crate::func::params::pow2;
use crate::func::remap::Remap;
use crate::bits::word::{lemma_bits_of_empty, low_mask};
use crate::traits::serdes::{
    lemma_fits, lemma_uint_at, padding, read_uint, read_uint_at, uint_at,
    uint_bytes, write_padding,
    write_uint, zeros, ByteOrder, Deserialize, DeserializeError, Serialize,
};
use crate::traits::words::{lemma_words_round_trip, read_words, words_at, words_image, write_words};
use vstd::prelude::*;

verus! {

/// The number of words that are written for `len` values of `bit_width` bits.
pub open spec fn stored_words(len: nat, bit_width: nat) -> nat {
    (len * bit_width + 63) / 64
}

/// Where the words of a packed vector begin that is written at `at`:
/// after the two numbers, at the next multiple of eight.
pub open spec fn words_start(at: nat) -> nat {
    at + 16 + padding(at + 16, 8)
}

/// The bit width of the packed vector that the bytes hold at `at`.
pub open spec fn bit_width_at(bytes: Seq<u8>, at: nat, order: ByteOrder) -> u64 {
    uint_at(bytes, at as int, 8, order)
}

/// The length of the packed vector that the bytes hold at `at`.
pub open spec fn len_at(bytes: Seq<u8>, at: nat, order: ByteOrder) -> u64 {
    uint_at(bytes, (at + 8) as int, 8, order)
}

/// The number of words of the packed vector that the bytes hold at `at`.
pub open spec fn stored_words_at(bytes: Seq<u8>, at: nat, order: ByteOrder) -> nat {
    stored_words(len_at(bytes, at, order) as nat, bit_width_at(bytes, at, order) as nat)
}

/// The position after the packed vector that the bytes hold at `at`.
pub open spec fn vec_end(bytes: Seq<u8>, at: nat, order: ByteOrder) -> nat {
    words_start(at) + 8 * stored_words_at(bytes, at, order)
}

/// The values of the packed vector that the bytes hold at `at`.
pub open spec fn values_at(bytes: Seq<u8>, at: nat, order: ByteOrder) -> Seq<u64> {
    Seq::new(
        len_at(bytes, at, order) as nat,
        |i: int|
            field_at(
                words_at(
                    bytes,
                    words_start(at) as int,
                    stored_words_at(bytes, at, order),
                    order,
                ),
                bit_width_at(bytes, at, order) as nat,
                i as nat,
            ),
    )
}

impl Serialize for BitFieldVec {
    open spec fn writable(&self) -> bool {
        self.wf()
    }

    /// The bit width and the length, eight bytes each; zeros up to the
    /// next multiple of eight; the words that hold values.
    open spec fn image(&self, at: nat, order: ByteOrder) -> Seq<u8> {
        uint_bytes(self.spec_bit_width() as u64, 8, order) + uint_bytes(
            self.spec_len() as u64,
            8,
            order,
        ) + zeros(padding(at + 16, 8)) + words_image(
            self.words().subrange(
                0,
                stored_words(self.spec_len() as nat, self.spec_bit_width() as nat) as int,
            ),
            order,
        )
    }

    fn serialize(&self, backend: &mut Vec<u8>, order: ByteOrder) -> (r: usize) {
        let start = backend.len();
        proof {
            self.lemma_wf();
        }
        write_uint(backend, self.bit_width() as u64, 8, order);
        write_uint(backend, self.len() as u64, 8, order);
        write_padding(backend);
        let count = (self.len() * self.bit_width() + 63) / 64;
        write_words(backend, self.as_words(), count, order);
        assert(backend@ =~= old(backend)@ + self.image(old(backend)@.len(), order));
        backend.len() - start
    }
}

impl Deserialize for BitFieldVec {
    /// The two numbers are there, the width is at most 64, the values fit
    /// this machine, and the words are there.
    open spec fn readable(bytes: Seq<u8>, at: nat, order: ByteOrder) -> bool {
        &&& at + 16 <= bytes.len()
        &&& bit_width_at(bytes, at, order) <= 64
        &&& len_at(bytes, at, order) * bit_width_at(bytes, at, order) + 64 <= usize::MAX
        &&& len_at(bytes, at, order) <= usize::MAX
        &&& vec_end(bytes, at, order) <= bytes.len()
    }

    /// The vector has the width, the length and the values that the bytes hold.
    open spec fn reads(bytes: Seq<u8>, at: nat, order: ByteOrder, value: &Self, next: nat) -> bool {
        &&& value.wf()
        &&& value.spec_bit_width() == bit_width_at(bytes, at, order)
        &&& value.spec_len() == len_at(bytes, at, order)
        &&& value@ == values_at(bytes, at, order)
        &&& next == vec_end(bytes, at, order)
    }

    fn deserialize(backend: &[u8], at: usize, order: ByteOrder) -> (r: Result<
        (Self, usize),
        DeserializeError,
    >) {
        let (bit_width, at_len) = match read_uint_at(backend, at, 8, order) {
            Some(found) => found,
            None => {
                return Err(DeserializeError::UnexpectedEnd);
            },
        };
        let (len, after_len) = match read_uint_at(backend, at_len, 8, order) {
            Some(found) => found,
            None => {
                return Err(DeserializeError::UnexpectedEnd);
            },
        };
        if bit_width > 64 || len > usize::MAX as u64 {
            return Err(DeserializeError::Invalid);
        }
        let bits = match (len as usize).checked_mul(bit_width as usize) {
            Some(bits) => bits,
            None => {
                return Err(DeserializeError::Invalid);
            },
        };
        if bits > usize::MAX - 64 {
            return Err(DeserializeError::Invalid);
        }
        let count = (bits + 63) / 64;
        let pad = (8 - after_len % 8) % 8;
        if backend.len() - after_len < pad {
            return Err(DeserializeError::UnexpectedEnd);
        }
        let start = after_len + pad;
        if (backend.len() - start) / 8 < count {
            return Err(DeserializeError::UnexpectedEnd);
        }
        let mut words = read_words(backend, start, count, order);
        let ghost read = words@;
        if count == 0 {
            // At least one word, to handle the case of bit width zero.
            words.push(0);
        }
        let value = BitFieldVec::from_raw_parts(words, bit_width as usize, len as usize);
        proof {
            assert forall|i: int| 0 <= i < len implies #[trigger] value@[i] == values_at(
                backend@,
                at as nat,
                order,
            )[i] by {
                if count == 0 {
                    assert(len * bit_width == 0);
                    if bit_width == 0 {
                        let b = ((i as nat * 0nat) % 64) as u64;
                        lemma_bits_of_empty(value.words()[0], 0);
                        lemma_bits_of_empty(read[0], 0);
                        assert(i as nat * 0nat == 0) by (nonlinear_arith);
                    } else {
                        assert(len == 0) by (nonlinear_arith)
                            requires
                                len * bit_width == 0,
                                bit_width > 0,
                        ;
                    }
                }
            }
            assert(value@ =~= values_at(backend@, at as nat, order));
        }
        Ok((value, start + 8 * count))
    }
}

/// The parts of the image of a packed vector: the width, the length, the
/// zeros and the words.
pub open spec fn image_parts(x: BitFieldVec, at: nat, order: ByteOrder) -> (
    Seq<u8>,
    Seq<u8>,
    Seq<u8>,
    Seq<u8>,
) {
    (
        uint_bytes(x.spec_bit_width() as u64, 8, order),
        uint_bytes(x.spec_len() as u64, 8, order),
        zeros(padding(at + 16, 8)),
        words_image(
            x.words().subrange(
                0,
                stored_words(x.spec_len() as nat, x.spec_bit_width() as nat) as int,
            ),
            order,
        ),
    )
}

/// The bytes around a written packed vector, split at each of its parts.
#[verifier::rlimit(50)]
proof fn lemma_image_splits(x: BitFieldVec, before: Seq<u8>, after: Seq<u8>, order: ByteOrder)
    ensures
        ({
            let (f1, f2, pad, w) = image_parts(x, before.len(), order);
            let bytes = before + x.image(before.len(), order) + after;
            &&& f1.len() == 8
            &&& f2.len() == 8
            &&& bytes == before + f1 + (f2 + pad + w + after)
            &&& bytes == (before + f1) + f2 + (pad + w + after)
            &&& bytes == (before + f1 + f2 + pad) + w + after
            &&& x.image(before.len(), order).len() == 16 + pad.len() + w.len()
        }),
{
    let (f1, f2, pad, w) = image_parts(x, before.len(), order);
    let bytes = before + x.image(before.len(), order) + after;
    assert(bytes =~= before + f1 + (f2 + pad + w + after));
    assert(bytes =~= (before + f1) + f2 + (pad + w + after));
    assert(bytes =~= (before + f1 + f2 + pad) + w + after);
}

/// The width and the length of a written packed vector are read back.
proof fn lemma_header_round_trip(x: BitFieldVec, before: Seq<u8>, after: Seq<u8>, order: ByteOrder)
    ensures
        bit_width_at(before + x.image(before.len(), order) + after, before.len(), order)
            == x.spec_bit_width(),
        len_at(before + x.image(before.len(), order) + after, before.len(), order) == x.spec_len(),
{
    let (f1, f2, pad, w) = image_parts(x, before.len(), order);
    lemma_image_splits(x, before, after, order);
    lemma_fits(x.spec_bit_width() as u64);
    lemma_fits(x.spec_len() as u64);
    lemma_uint_at(before, x.spec_bit_width() as u64, 8, f2 + pad + w + after, order);
    lemma_uint_at(before + f1, x.spec_len() as u64, 8, pad + w + after, order);
}

/// The words of a written packed vector are read back.
proof fn lemma_body_round_trip(x: BitFieldVec, before: Seq<u8>, after: Seq<u8>, order: ByteOrder)
    ensures
        words_at(
            before + x.image(before.len(), order) + after,
            words_start(before.len()) as int,
            stored_words(x.spec_len() as nat, x.spec_bit_width() as nat),
            order,
        ) == x.words().subrange(
            0,
            stored_words(x.spec_len() as nat, x.spec_bit_width() as nat) as int,
        ) || stored_words(x.spec_len() as nat, x.spec_bit_width() as nat) > x.words().len(),
        x.image(before.len(), order).len() == 16 + padding(before.len() + 16, 8) + 8 * stored_words(
            x.spec_len() as nat,
            x.spec_bit_width() as nat,
        ) || stored_words(x.spec_len() as nat, x.spec_bit_width() as nat) > x.words().len(),
{
    let (f1, f2, pad, w) = image_parts(x, before.len(), order);
    let count = stored_words(x.spec_len() as nat, x.spec_bit_width() as nat);
    if count <= x.words().len() {
        let kept = x.words().subrange(0, count as int);
        lemma_image_splits(x, before, after, order);
        lemma_words_round_trip(before + f1 + f2 + pad, kept, after, order);
    }
}

/// The width, the length and the values of a written packed vector are
/// read back.
pub proof fn lemma_bit_field_vec_image(
    x: BitFieldVec,
    before: Seq<u8>,
    after: Seq<u8>,
    order: ByteOrder,
)
    requires
        x.wf(),
    ensures
        BitFieldVec::readable(
            before + x.image(before.len(), order) + after,
            before.len(),
            order,
        ),
        bit_width_at(before + x.image(before.len(), order) + after, before.len(), order)
            == x.spec_bit_width(),
        len_at(before + x.image(before.len(), order) + after, before.len(), order) == x.spec_len(),
        values_at(before + x.image(before.len(), order) + after, before.len(), order) == x@,
        vec_end(before + x.image(before.len(), order) + after, before.len(), order) == before.len()
            + x.image(before.len(), order).len(),
{
    let at = before.len();
    let bw = x.spec_bit_width();
    let len = x.spec_len();
    let count = stored_words(len as nat, bw as nat);
    let bytes = before + x.image(at, order) + after;
    x.lemma_wf();
    lemma_header_round_trip(x, before, after, order);
    lemma_body_round_trip(x, before, after, order);
    let read = words_at(bytes, words_start(at) as int, count, order);
    assert forall|i: int| 0 <= i < len implies #[trigger] values_at(bytes, at, order)[i]
        == x@[i] by {
        if count == 0 {
            assert(len * bw == 0);
            if bw == 0 {
                assert(i as nat * 0nat == 0) by (nonlinear_arith);
                lemma_bits_of_empty(read[0], 0);
                lemma_bits_of_empty(x.words()[0], 0);
            } else {
                assert(len == 0) by (nonlinear_arith)
                    requires
                        len * bw == 0,
                        bw > 0,
                ;
            }
        } else {
            lemma_locate(len as nat, bw as nat, i as nat, count);
        }
    }
    assert(values_at(bytes, at, order) =~= x@);
}

/// The number of bytes of a function that come before its values: the
/// seed, `log2_l`, the chunk bits, their mask, the number of keys and the
/// length of a segment.
pub const FUNCTION_HEADER: usize = 36;

/// The numbers at the head of the function that the bytes hold at `at`:
/// the seed, `log2_l`, the chunk bits, their mask, the number of keys and
/// the length of a segment.
pub open spec fn function_header(bytes: Seq<u8>, at: nat, order: ByteOrder) -> (
    u64,
    u64,
    u64,
    u64,
    u64,
    u64,
) {
    (
        uint_at(bytes, at as int, 8, order),
        uint_at(bytes, (at + 8) as int, 4, order),
        uint_at(bytes, (at + 12) as int, 4, order),
        uint_at(bytes, (at + 16) as int, 4, order),
        uint_at(bytes, (at + 20) as int, 8, order),
        uint_at(bytes, (at + 28) as int, 8, order),
    )
}

/// The bytes of the numbers at the head of a function.
pub open spec fn header_image(
    seed: u64,
    log2_l: u32,
    high_bits: u32,
    chunk_mask: u32,
    num_keys: usize,
    segment_size: usize,
    order: ByteOrder,
) -> Seq<u8> {
    uint_bytes(seed, 8, order) + uint_bytes(log2_l as u64, 4, order) + uint_bytes(
        high_bits as u64,
        4,
        order,
    ) + uint_bytes(chunk_mask as u64, 4, order) + uint_bytes(num_keys as u64, 8, order)
        + uint_bytes(segment_size as u64, 8, order)
}

impl<T: Remap> Serialize for Function<T> {
    open spec fn writable(&self) -> bool {
        self.wf()
    }

    /// The seed, `log2_l`, the chunk bits, their mask, the number of keys
    /// and the length of a segment, and then the values: their width and
    /// their number, zeros up to the next multiple of eight, and the words.
    open spec fn image(&self, at: nat, order: ByteOrder) -> Seq<u8> {
        header_image(
            self.seed(),
            self.log2_l(),
            self.high_bits(),
            self.chunk_mask(),
            self.spec_len(),
            self.segment_size(),
            order,
        ) + self.values().image(at + 36, order)
    }

    fn serialize(&self, backend: &mut Vec<u8>, order: ByteOrder) -> (r: usize) {
        let start = backend.len();
        let (seed, log2_l, high_bits, chunk_mask, num_keys, segment_size, values) =
            self.as_parts();
        write_uint(backend, seed, 8, order);
        write_uint(backend, log2_l as u64, 4, order);
        write_uint(backend, high_bits as u64, 4, order);
        write_uint(backend, chunk_mask as u64, 4, order);
        write_uint(backend, num_keys as u64, 8, order);
        write_uint(backend, segment_size as u64, 8, order);
        let ghost head = backend@;
        assert(head =~= old(backend)@ + header_image(
            seed,
            log2_l,
            high_bits,
            chunk_mask,
            num_keys,
            segment_size,
            order,
        ));
        values.serialize(backend, order);
        assert(backend@ =~= old(backend)@ + self.image(old(backend)@.len(), order));
        backend.len() - start
    }
}

impl<T: Remap> Deserialize for Function<T> {
    /// The numbers are there and are those of a function, and the values
    /// are there, as many as the chunks have vertices.
    open spec fn readable(bytes: Seq<u8>, at: nat, order: ByteOrder) -> bool {
        let (seed, log2_l, high_bits, chunk_mask, num_keys, segment_size) = function_header(
            bytes,
            at,
            order,
        );
        &&& at + 36 <= bytes.len()
        &&& log2_l <= MAX_LOG2_L
        &&& high_bits <= MAX_HIGH_BITS
        &&& chunk_mask == low_mask(high_bits)
        &&& num_keys <= usize::MAX
        &&& 1 <= segment_size <= MAX_SEGMENT_SIZE
        &&& segment_size <= usize::MAX
        &&& BitFieldVec::readable(bytes, at + 36, order)
        &&& len_at(bytes, at + 36, order) == pow2(high_bits as nat) * vertices_per_chunk(
            log2_l as nat,
            segment_size as nat,
        )
    }

    /// The function has the numbers and the values that the bytes hold.
    open spec fn reads(bytes: Seq<u8>, at: nat, order: ByteOrder, value: &Self, next: nat) -> bool {
        let (seed, log2_l, high_bits, chunk_mask, num_keys, segment_size) = function_header(
            bytes,
            at,
            order,
        );
        &&& value.wf()
        &&& value.seed() == seed
        &&& value.log2_l() == log2_l
        &&& value.high_bits() == high_bits
        &&& value.spec_len() == num_keys
        &&& value.segment_size() == segment_size
        &&& value.values().spec_bit_width() == bit_width_at(bytes, at + 36, order)
        &&& value.values()@ == values_at(bytes, at + 36, order)
        &&& next == vec_end(bytes, at + 36, order)
    }

    fn deserialize(backend: &[u8], at: usize, order: ByteOrder) -> (r: Result<
        (Self, usize),
        DeserializeError,
    >) {
        if backend.len() < 36 || at > backend.len() - 36 {
            return Err(DeserializeError::UnexpectedEnd);
        }
        let seed = read_uint(backend, at, 8, order);
        let log2_l = read_uint(backend, at + 8, 4, order);
        let high_bits = read_uint(backend, at + 12, 4, order);
        let chunk_mask = read_uint(backend, at + 16, 4, order);
        let num_keys = read_uint(backend, at + 20, 8, order);
        let segment_size = read_uint(backend, at + 28, 8, order);
        if log2_l > MAX_LOG2_L as u64 || high_bits > MAX_HIGH_BITS as u64 {
            return Err(DeserializeError::Invalid);
        }
        proof {
            lemma_small_pow2(high_bits as nat);
            lemma_small_pow2(log2_l as nat);
            if high_bits > 0 {
                crate::bits::word::lemma_pow2_minus_one(high_bits);
            }
        }
        if chunk_mask != (1u64 << high_bits) - 1 || num_keys > usize::MAX as u64 || segment_size < 1
            || segment_size > MAX_SEGMENT_SIZE || segment_size > usize::MAX as u64 {
            return Err(DeserializeError::Invalid);
        }
        let (values, next) = match BitFieldVec::deserialize(backend, at + 36, order) {
            Ok(found) => found,
            Err(e) => {
                return Err(e);
            },
        };
        let l = 1u64 << log2_l;
        let chunks = 1u64 << high_bits;
        assert(segment_size * (l + 2) <= 0x1_0000_0000 * 0x1_0002) by (nonlinear_arith)
            requires
                segment_size <= 0x1_0000_0000,
                l <= 0x1_0000,
        ;
        let per_chunk = segment_size * (l + 2);
        assert(chunks * per_chunk <= 0x1_0000_0000 * (0x1_0000_0000 * 0x1_0002))
            by (nonlinear_arith)
            requires
                chunks <= 0x1_0000_0000,
                per_chunk <= 0x1_0000_0000 * 0x1_0002,
        ;
        let vertices = (chunks as u128) * (per_chunk as u128);
        if values.len() as u128 != vertices {
            return Err(DeserializeError::Invalid);
        }
        let f = Function::from_parts(
            seed,
            log2_l as u32,
            high_bits as u32,
            num_keys as usize,
            segment_size as usize,
            values,
        );
        Ok((f, next))
    }
}

/// A function that is written and read back returns the same values.
pub proof fn lemma_function_round_trip<T: Remap>(
    f: Function<T>,
    before: Seq<u8>,
    after: Seq<u8>,
    order: ByteOrder,
    read: Function<T>,
    next: nat,
)
    requires
        f.wf(),
        Function::<T>::reads(
            before + f.image(before.len(), order) + after,
            before.len(),
            order,
            &read,
            next,
        ),
    ensures
        Function::<T>::readable(
            before + f.image(before.len(), order) + after,
            before.len(),
            order,
        ),
        read.seed() == f.seed(),
        read.log2_l() == f.log2_l(),
        read.high_bits() == f.high_bits(),
        read.spec_len() == f.spec_len(),
        read.segment_size() == f.segment_size(),
        read.values()@ == f.values()@,
        forall|key: T| read.value_of(&key) == f.value_of(&key),
        next == before.len() + f.image(before.len(), order).len(),
{
    lemma_function_image(f, before, after, order);
}

/// The parts of the image of a function: its six numbers and its values.
pub open spec fn function_parts<T: Remap>(f: Function<T>, at: nat, order: ByteOrder) -> (
    Seq<u8>,
    Seq<u8>,
    Seq<u8>,
    Seq<u8>,
    Seq<u8>,
    Seq<u8>,
    Seq<u8>,
) {
    (
        uint_bytes(f.seed(), 8, order),
        uint_bytes(f.log2_l() as u64, 4, order),
        uint_bytes(f.high_bits() as u64, 4, order),
        uint_bytes(f.chunk_mask() as u64, 4, order),
        uint_bytes(f.spec_len() as u64, 8, order),
        uint_bytes(f.segment_size() as u64, 8, order),
        f.values().image(at + 36, order),
    )
}

/// The bytes around a written function, split at its first three numbers.
#[verifier::rlimit(50)]
proof fn lemma_function_splits_low<T: Remap>(
    f: Function<T>,
    before: Seq<u8>,
    after: Seq<u8>,
    order: ByteOrder,
)
    ensures
        ({
            let (s, a, b, c, d, e, v) = function_parts(f, before.len(), order);
            let bytes = before + f.image(before.len(), order) + after;
            &&& bytes == before + s + (a + b + c + d + e + v + after)
            &&& bytes == (before + s) + a + (b + c + d + e + v + after)
            &&& bytes == (before + s + a) + b + (c + d + e + v + after)
        }),
{
    let (s, a, b, c, d, e, v) = function_parts(f, before.len(), order);
    let bytes = before + f.image(before.len(), order) + after;
    assert(bytes =~= before + s + (a + b + c + d + e + v + after));
    assert(bytes =~= (before + s) + a + (b + c + d + e + v + after));
    assert(bytes =~= (before + s + a) + b + (c + d + e + v + after));
}

/// The bytes around a written function, split at its other numbers and
/// at its values.
#[verifier::rlimit(50)]
proof fn lemma_function_splits_high<T: Remap>(
    f: Function<T>,
    before: Seq<u8>,
    after: Seq<u8>,
    order: ByteOrder,
)
    ensures
        ({
            let (s, a, b, c, d, e, v) = function_parts(f, before.len(), order);
            let bytes = before + f.image(before.len(), order) + after;
            &&& bytes == (before + s + a + b) + c + (d + e + v + after)
            &&& bytes == (before + s + a + b + c) + d + (e + v + after)
            &&& bytes == (before + s + a + b + c + d) + e + (v + after)
            &&& bytes == (before + s + a + b + c + d + e) + v + after
            &&& (before + s + a + b + c + d + e).len() == before.len() + 36
            &&& f.image(before.len(), order).len() == 36 + v.len()
        }),
{
    let (s, a, b, c, d, e, v) = function_parts(f, before.len(), order);
    let bytes = before + f.image(before.len(), order) + after;
    assert(bytes =~= (before + s + a + b) + c + (d + e + v + after));
    assert(bytes =~= (before + s + a + b + c) + d + (e + v + after));
    assert(bytes =~= (before + s + a + b + c + d) + e + (v + after));
    assert(bytes =~= (before + s + a + b + c + d + e) + v + after);
}

/// The numbers of a written function are read back.
#[verifier::rlimit(50)]
proof fn lemma_function_header<T: Remap>(
    f: Function<T>,
    before: Seq<u8>,
    after: Seq<u8>,
    order: ByteOrder,
)
    ensures
        function_header(before + f.image(before.len(), order) + after, before.len(), order) == (
            f.seed(),
            f.log2_l() as u64,
            f.high_bits() as u64,
            f.chunk_mask() as u64,
            f.spec_len() as u64,
            f.segment_size() as u64,
        ),
{
    let (s, a, b, c, d, e, v) = function_parts(f, before.len(), order);
    lemma_function_splits_low(f, before, after, order);
    lemma_function_splits_high(f, before, after, order);
    lemma_fits(f.seed());
    lemma_uint_at(before, f.seed(), 8, a + b + c + d + e + v + after, order);
    lemma_uint_at(before + s, f.log2_l() as u64, 4, b + c + d + e + v + after, order);
    lemma_uint_at(before + s + a, f.high_bits() as u64, 4, c + d + e + v + after, order);
    lemma_uint_at(before + s + a + b, f.chunk_mask() as u64, 4, d + e + v + after, order);
    lemma_uint_at(before + s + a + b + c, f.spec_len() as u64, 8, e + v + after, order);
    lemma_uint_at(before + s + a + b + c + d, f.segment_size() as u64, 8, v + after, order);
}

/// The numbers and the values of a written function are read back.
#[verifier::rlimit(50)]
proof fn lemma_function_image<T: Remap>(
    f: Function<T>,
    before: Seq<u8>,
    after: Seq<u8>,
    order: ByteOrder,
)
    requires
        f.wf(),
    ensures
        ({
            let bytes = before + f.image(before.len(), order) + after;
            let at = before.len();
            &&& Function::<T>::readable(bytes, at, order)
            &&& function_header(bytes, at, order) == (
                f.seed(),
                f.log2_l() as u64,
                f.high_bits() as u64,
                f.chunk_mask() as u64,
                f.spec_len() as u64,
                f.segment_size() as u64,
            )
            &&& bit_width_at(bytes, at + 36, order) == f.values().spec_bit_width()
            &&& values_at(bytes, at + 36, order) == f.values()@
            &&& vec_end(bytes, at + 36, order) == at + f.image(at, order).len()
        }),
{
    let (s, a, b, c, d, e, v) = function_parts(f, before.len(), order);
    lemma_function_header(f, before, after, order);
    lemma_function_splits_high(f, before, after, order);
    lemma_bit_field_vec_image(f.values(), before + s + a + b + c + d + e, after, order);
}

/// A packed vector that is written and read back has the same width, the
/// same length and the same values.
pub proof fn lemma_bit_field_vec_round_trip(
    x: BitFieldVec,
    before: Seq<u8>,
    after: Seq<u8>,
    order: ByteOrder,
    read: BitFieldVec,
    next: nat,
)
    requires
        x.wf(),
        BitFieldVec::reads(
            before + x.image(before.len(), order) + after,
            before.len(),
            order,
            &read,
            next,
        ),
    ensures
        BitFieldVec::readable(
            before + x.image(before.len(), order) + after,
            before.len(),
            order,
        ),
        read.spec_bit_width() == x.spec_bit_width(),
        read.spec_len() == x.spec_len(),
        read@ == x@,
        next == before.len() + x.image(before.len(), order).len(),
{
    lemma_bit_field_vec_image(x, before, after, order);
}

impl Serialize for Bitmap {
    open spec fn writable(&self) -> bool {
        self.wf()
    }

    /// The packed vector of single bits.
    open spec fn image(&self, at: nat, order: ByteOrder) -> Seq<u8> {
        self.values().image(at, order)
    }

    fn serialize(&self, backend: &mut Vec<u8>, order: ByteOrder) -> (r: usize) {
        self.as_values().serialize(backend, order)
    }
}

impl Deserialize for Bitmap {
    /// The bytes hold a packed vector of width one.
    open spec fn readable(bytes: Seq<u8>, at: nat, order: ByteOrder) -> bool {
        BitFieldVec::readable(bytes, at, order) && bit_width_at(bytes, at, order) == 1
    }

    /// The bitmap has the bits that the bytes hold.
    open spec fn reads(bytes: Seq<u8>, at: nat, order: ByteOrder, value: &Self, next: nat) -> bool {
        &&& value.wf()
        &&& value@ == as_bits(values_at(bytes, at, order))
        &&& next == vec_end(bytes, at, order)
    }

    fn deserialize(backend: &[u8], at: usize, order: ByteOrder) -> (r: Result<
        (Self, usize),
        DeserializeError,
    >) {
        let (bits, next) = match BitFieldVec::deserialize(backend, at, order) {
            Ok(found) => found,
            Err(e) => {
                return Err(e);
            },
        };
        if bits.bit_width() != 1 {
            return Err(DeserializeError::Invalid);
        }
        Ok((Bitmap::from_raw_parts(bits), next))
    }
}

/// A bitmap that is written and read back has the same bits.
pub proof fn lemma_bitmap_round_trip(
    x: Bitmap,
    before: Seq<u8>,
    after: Seq<u8>,
    order: ByteOrder,
    read: Bitmap,
    next: nat,
)
    requires
        x.wf(),
        Bitmap::reads(before + x.image(before.len(), order) + after, before.len(), order, &read, next),
    ensures
        Bitmap::readable(before + x.image(before.len(), order) + after, before.len(), order),
        read@ == x@,
        next == before.len() + x.image(before.len(), order).len(),
{
    lemma_bit_field_vec_image(x.values(), before, after, order);
}

impl Serialize for CountingBitmap {
    open spec fn writable(&self) -> bool {
        self.wf()
    }

    /// The number of set bits, and the packed vector of single bits.
    open spec fn image(&self, at: nat, order: ByteOrder) -> Seq<u8> {
        uint_bytes(self.spec_count() as u64, 8, order) + self.values().image(at + 8, order)
    }

    fn serialize(&self, backend: &mut Vec<u8>, order: ByteOrder) -> (r: usize) {
        let start = backend.len();
        write_uint(backend, self.count() as u64, 8, order);
        self.as_values().serialize(backend, order);
        assert(backend@ =~= old(backend)@ + self.image(old(backend)@.len(), order));
        backend.len() - start
    }
}

impl Deserialize for CountingBitmap {
    /// The bytes hold a number and a packed vector of width one, and the
    /// number is the number of its set bits.
    open spec fn readable(bytes: Seq<u8>, at: nat, order: ByteOrder) -> bool {
        &&& at + 8 <= bytes.len()
        &&& BitFieldVec::readable(bytes, at + 8, order)
        &&& bit_width_at(bytes, at + 8, order) == 1
        &&& uint_at(bytes, at as int, 8, order) == rank(
            as_bits(values_at(bytes, at + 8, order)),
            len_at(bytes, at + 8, order) as nat,
        )
    }

    /// The bitmap has the bits and the number that the bytes hold.
    open spec fn reads(bytes: Seq<u8>, at: nat, order: ByteOrder, value: &Self, next: nat) -> bool {
        &&& value.wf()
        &&& value@ == as_bits(values_at(bytes, at + 8, order))
        &&& value.spec_count() == uint_at(bytes, at as int, 8, order)
        &&& next == vec_end(bytes, at + 8, order)
    }

    fn deserialize(backend: &[u8], at: usize, order: ByteOrder) -> (r: Result<
        (Self, usize),
        DeserializeError,
    >) {
        let (count, after_count) = match read_uint_at(backend, at, 8, order) {
            Some(found) => found,
            None => {
                return Err(DeserializeError::UnexpectedEnd);
            },
        };
        let (bits, next) = match BitFieldVec::deserialize(backend, after_count, order) {
            Ok(found) => found,
            Err(e) => {
                return Err(e);
            },
        };
        if bits.bit_width() != 1 {
            return Err(DeserializeError::Invalid);
        }
        let bitmap = Bitmap::from_raw_parts(bits);
        let ones = bitmap.count_ones();
        if ones as u64 != count {
            return Err(DeserializeError::Invalid);
        }
        Ok((bitmap.with_count(ones), next))
    }
}

/// A counting bitmap that is written and read back has the same bits and
/// the same number of set bits.
pub proof fn lemma_counting_bitmap_round_trip(
    x: CountingBitmap,
    before: Seq<u8>,
    after: Seq<u8>,
    order: ByteOrder,
    read: CountingBitmap,
    next: nat,
)
    requires
        x.wf(),
        CountingBitmap::reads(
            before + x.image(before.len(), order) + after,
            before.len(),
            order,
            &read,
            next,
        ),
    ensures
        CountingBitmap::readable(
            before + x.image(before.len(), order) + after,
            before.len(),
            order,
        ),
        read@ == x@,
        read.spec_count() == x.spec_count(),
        next == before.len() + x.image(before.len(), order).len(),
{
    lemma_counting_bitmap_image(x, before, after, order);
}

/// The number and the bits of a written counting bitmap are read back.
proof fn lemma_counting_bitmap_image(
    x: CountingBitmap,
    before: Seq<u8>,
    after: Seq<u8>,
    order: ByteOrder,
)
    requires
        x.wf(),
    ensures
        ({
            let bytes = before + x.image(before.len(), order) + after;
            let at = before.len();
            &&& CountingBitmap::readable(bytes, at, order)
            &&& uint_at(bytes, at as int, 8, order) == x.spec_count()
            &&& values_at(bytes, at + 8, order) == x.values()@
            &&& vec_end(bytes, at + 8, order) == at + x.image(at, order).len()
        }),
{
    let at = before.len();
    let bytes = before + x.image(at, order) + after;
    let c = uint_bytes(x.spec_count() as u64, 8, order);
    let v = x.values().image(at + 8, order);
    lemma_fits(x.spec_count() as u64);
    assert(bytes =~= before + c + (v + after));
    assert(bytes =~= (before + c) + v + after);
    lemma_uint_at(before, x.spec_count() as u64, 8, v + after, order);
    lemma_bit_field_vec_image(x.values(), before + c, after, order);
}

impl Serialize for EliasFano {
    open spec fn writable(&self) -> bool {
        self.wf()
    }

    /// The upper bound, the number of values and the number of low bits,
    /// eight bytes each; the low bits; the bitmap of the high parts.
    open spec fn image(&self, at: nat, order: ByteOrder) -> Seq<u8> {
        uint_bytes(self.upper_bound() as u64, 8, order) + uint_bytes(
            self.spec_len() as u64,
            8,
            order,
        ) + uint_bytes(self.low_width() as u64, 8, order) + self.low_bits().image(at + 24, order)
            + self.high_bits().image(at + 24 + self.low_bits().image(at + 24, order).len(), order)
    }

    fn serialize(&self, backend: &mut Vec<u8>, order: ByteOrder) -> (r: usize) {
        let start = backend.len();
        let (u, n, l, low_bits, high_bits) = self.as_raw_parts();
        write_uint(backend, u as u64, 8, order);
        write_uint(backend, n as u64, 8, order);
        write_uint(backend, l as u64, 8, order);
        low_bits.serialize(backend, order);
        high_bits.serialize(backend, order);
        assert(backend@ =~= old(backend)@ + self.image(old(backend)@.len(), order));
        backend.len() - start
    }
}

/// The three numbers at the head of the sequence that the bytes hold at
/// `at`: the upper bound, the number of values and the number of low bits.
pub open spec fn sequence_header(bytes: Seq<u8>, at: nat, order: ByteOrder) -> (u64, u64, u64) {
    (
        uint_at(bytes, at as int, 8, order),
        uint_at(bytes, (at + 8) as int, 8, order),
        uint_at(bytes, (at + 16) as int, 8, order),
    )
}

/// The bits of the high parts of the sequence that the bytes hold at `at`.
pub open spec fn high_bits_at(bytes: Seq<u8>, at: nat, order: ByteOrder) -> Seq<bool> {
    as_bits(values_at(bytes, vec_end(bytes, at + 24, order) + 8, order))
}

impl Deserialize for EliasFano {
    /// The bytes hold three numbers that fit this machine, the low bits
    /// and the bitmap, and these fit together.
    open spec fn readable(bytes: Seq<u8>, at: nat, order: ByteOrder) -> bool {
        let (u, n, l) = sequence_header(bytes, at, order);
        &&& at + 24 <= bytes.len()
        &&& u <= usize::MAX
        &&& n <= usize::MAX
        &&& l < 64
        &&& BitFieldVec::readable(bytes, at + 24, order)
        &&& CountingBitmap::readable(bytes, vec_end(bytes, at + 24, order), order)
        &&& bit_width_at(bytes, at + 24, order) == l
        &&& len_at(bytes, at + 24, order) == n
        &&& uint_at(bytes, vec_end(bytes, at + 24, order) as int, 8, order) == n
        &&& forall|i: int|
            0 <= i < n ==> #[trigger] value_at(
                high_bits_at(bytes, at, order),
                values_at(bytes, at + 24, order),
                l as usize,
                i,
            ) <= usize::MAX
    }

    /// The sequence has the numbers and the parts that the bytes hold.
    open spec fn reads(bytes: Seq<u8>, at: nat, order: ByteOrder, value: &Self, next: nat) -> bool {
        let (u, n, l) = sequence_header(bytes, at, order);
        &&& value.wf()
        &&& value.upper_bound() == u
        &&& value.spec_len() == n
        &&& value.low_width() == l
        &&& value.low_bits()@ == values_at(bytes, at + 24, order)
        &&& value.high_bits()@ == high_bits_at(bytes, at, order)
        &&& next == vec_end(bytes, vec_end(bytes, at + 24, order) + 8, order)
    }

    fn deserialize(backend: &[u8], at: usize, order: ByteOrder) -> (r: Result<
        (Self, usize),
        DeserializeError,
    >) {
        if backend.len() < 24 || at > backend.len() - 24 {
            return Err(DeserializeError::UnexpectedEnd);
        }
        let u = read_uint(backend, at, 8, order);
        let n = read_uint(backend, at + 8, 8, order);
        let l = read_uint(backend, at + 16, 8, order);
        if u > usize::MAX as u64 || n > usize::MAX as u64 || l >= 64 {
            return Err(DeserializeError::Invalid);
        }
        let (low_bits, after_low) = match BitFieldVec::deserialize(backend, at + 24, order) {
            Ok(found) => found,
            Err(e) => {
                return Err(e);
            },
        };
        let (high_bits, next) = match CountingBitmap::deserialize(backend, after_low, order) {
            Ok(found) => found,
            Err(e) => {
                return Err(e);
            },
        };
        let value = EliasFano::from_raw_parts(u as usize, n as usize, l as usize, low_bits, high_bits);
        proof {
            assert(value.low_bits()@ == values_at(backend@, (at + 24) as nat, order));
            assert(value.high_bits()@ == high_bits_at(backend@, at as nat, order));
            assert(value.low_width() == l as usize);
            if EliasFano::readable(backend@, at as nat, order) {
                assert forall|i: int| 0 <= i < value.spec_len() implies #[trigger] value_at(
                    value.high_bits()@,
                    value.low_bits()@,
                    value.low_width(),
                    i,
                ) <= usize::MAX by {
                    assert(value_at(
                        high_bits_at(backend@, at as nat, order),
                        values_at(backend@, (at + 24) as nat, order),
                        l as usize,
                        i,
                    ) <= usize::MAX);
                }
            }
        }
        if !value.validate() {
            return Err(DeserializeError::Invalid);
        }
        Ok((value, next))
    }
}

/// A sequence that is written and read back has the same upper bound and
/// the same values.
pub proof fn lemma_elias_fano_round_trip(
    x: EliasFano,
    before: Seq<u8>,
    after: Seq<u8>,
    order: ByteOrder,
    read: EliasFano,
    next: nat,
)
    requires
        x.wf(),
        EliasFano::reads(
            before + x.image(before.len(), order) + after,
            before.len(),
            order,
            &read,
            next,
        ),
    ensures
        EliasFano::readable(before + x.image(before.len(), order) + after, before.len(), order),
        read.upper_bound() == x.upper_bound(),
        read.spec_len() == x.spec_len(),
        read@ == x@,
        next == before.len() + x.image(before.len(), order).len(),
{
    lemma_elias_fano_image(x, before, after, order);
    assert(read@ =~= x@);
}

/// The parts of the image of a sequence: its three numbers, its low bits
/// and its bitmap.
pub open spec fn sequence_parts(x: EliasFano, at: nat, order: ByteOrder) -> (
    Seq<u8>,
    Seq<u8>,
    Seq<u8>,
    Seq<u8>,
    Seq<u8>,
) {
    (
        uint_bytes(x.upper_bound() as u64, 8, order),
        uint_bytes(x.spec_len() as u64, 8, order),
        uint_bytes(x.low_width() as u64, 8, order),
        x.low_bits().image(at + 24, order),
        x.high_bits().image(at + 24 + x.low_bits().image(at + 24, order).len(), order),
    )
}

/// The bytes around a written sequence, split at each of its parts.
#[verifier::rlimit(50)]
proof fn lemma_sequence_splits(x: EliasFano, before: Seq<u8>, after: Seq<u8>, order: ByteOrder)
    ensures
        ({
            let (a, b, c, low, high) = sequence_parts(x, before.len(), order);
            let bytes = before + x.image(before.len(), order) + after;
            &&& bytes == before + a + (b + c + low + high + after)
            &&& bytes == (before + a) + b + (c + low + high + after)
            &&& bytes == (before + a + b) + c + (low + high + after)
            &&& bytes == (before + a + b + c) + low + (high + after)
            &&& bytes == (before + a + b + c + low) + high + after
            &&& (before + a + b + c).len() == before.len() + 24
            &&& (before + a + b + c + low).len() == before.len() + 24 + low.len()
            &&& x.image(before.len(), order).len() == 24 + low.len() + high.len()
        }),
{
    let (a, b, c, low, high) = sequence_parts(x, before.len(), order);
    let bytes = before + x.image(before.len(), order) + after;
    assert(bytes =~= before + a + (b + c + low + high + after));
    assert(bytes =~= (before + a) + b + (c + low + high + after));
    assert(bytes =~= (before + a + b) + c + (low + high + after));
    assert(bytes =~= (before + a + b + c) + low + (high + after));
    assert(bytes =~= (before + a + b + c + low) + high + after);
}

/// The numbers and the parts of a written sequence are read back.
#[verifier::rlimit(50)]
proof fn lemma_elias_fano_image(x: EliasFano, before: Seq<u8>, after: Seq<u8>, order: ByteOrder)
    requires
        x.wf(),
    ensures
        ({
            let bytes = before + x.image(before.len(), order) + after;
            let at = before.len();
            &&& EliasFano::readable(bytes, at, order)
            &&& sequence_header(bytes, at, order) == (
                x.upper_bound() as u64,
                x.spec_len() as u64,
                x.low_width() as u64,
            )
            &&& values_at(bytes, at + 24, order) == x.low_bits()@
            &&& high_bits_at(bytes, at, order) == x.high_bits()@
            &&& vec_end(bytes, vec_end(bytes, at + 24, order) + 8, order) == at + x.image(
                at,
                order,
            ).len()
        }),
{
    let at = before.len();
    let (a, b, c, low, high) = sequence_parts(x, at, order);
    lemma_sequence_splits(x, before, after, order);
    lemma_fits(x.upper_bound() as u64);
    lemma_uint_at(before, x.upper_bound() as u64, 8, b + c + low + high + after, order);
    lemma_uint_at(before + a, x.spec_len() as u64, 8, c + low + high + after, order);
    lemma_uint_at(before + a + b, x.low_width() as u64, 8, low + high + after, order);
    lemma_bit_field_vec_image(x.low_bits(), before + a + b + c, high + after, order);
    lemma_counting_bitmap_image(x.high_bits(), before + a + b + c + low, after, order);
}

} // verus!
