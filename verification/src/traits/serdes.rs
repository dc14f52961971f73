//! Writing structures to bytes and reading them back.
//!
//! Numbers are written in the byte order that the caller names, which for a
//! file that stays on one machine is the order of the machine; arrays of
//! words start at a position that is a multiple of the size of a word.

use crate::bits::word::low_mask;
use vstd::prelude::*;

verus! {

/// The order in which the bytes of a number are written.
#[derive(Debug, Clone, Copy, PartialEq, Eq)]
pub enum ByteOrder {
    /// The lowest byte first.
    Little,
    /// The highest byte first.
    Big,
}

/// Why reading a structure failed.
#[derive(Debug, Clone, Copy, PartialEq, Eq)]
pub enum DeserializeError {
    /// The bytes end before the structure does.
    UnexpectedEnd,
    /// The bytes do not hold a structure of the kind asked for.
    Invalid,
}

/// The `size` lowest bytes of `x`, in the order `order`.
pub open spec fn uint_bytes(x: u64, size: nat, order: ByteOrder) -> Seq<u8> {
    Seq::new(
        size,
        |i: int|
            if order is Little {
                (x >> ((8 * i) as u64)) as u8
            } else {
                (x >> ((8 * (size - 1 - i)) as u64)) as u8
            },
    )
}

/// The number that the first `count` bytes spell, lowest byte first.
pub open spec fn le_number(bytes: Seq<u8>, count: nat) -> u64
    decreases count,
{
    if count == 0 {
        0
    } else {
        le_number(bytes, (count - 1) as nat) | ((bytes[count - 1] as u64) << ((8 * (count
            - 1)) as u64))
    }
}

/// The number that `bytes`, at most eight of them, spell in the order `order`.
pub open spec fn uint_value(bytes: Seq<u8>, order: ByteOrder) -> u64 {
    if order is Little {
        le_number(bytes, bytes.len())
    } else {
        le_number(bytes.reverse(), bytes.len())
    }
}

/// The number of bytes to skip at `at` to reach a multiple of `align`.
pub open spec fn padding(at: nat, align: nat) -> nat {
    ((align - at % align) % (align as int)) as nat
}

/// Zero bytes: what is written to skip to an aligned position.
pub open spec fn zeros(count: nat) -> Seq<u8> {
    Seq::new(count, |i: int| 0u8)
}

/// A byte of a number and the bytes below it make up the bytes up to it.
proof fn lemma_byte_joins(x: u64, s: u64)
    by (bit_vector)
    requires
        s < 64,
        s % 8 == 0,
    ensures
        (x & low_mask(s)) | ((((x >> s) as u8) as u64) << s) == x & low_mask((s + 8) as u64),
        x <= low_mask(s) ==> x & low_mask(s) == x,
        x & low_mask(64) == x,
        x & low_mask(0) == 0,
{
}

/// The lowest bytes of a number, lowest first, spell its lowest bits.
proof fn lemma_le_number(x: u64, size: nat, count: nat)
    requires
        count <= size <= 8,
    ensures
        le_number(uint_bytes(x, size, ByteOrder::Little), count) == x & low_mask((8 * count) as u64),
    decreases count,
{
    if count == 0 {
        lemma_byte_joins(x, 0);
    } else {
        lemma_le_number(x, size, (count - 1) as nat);
        lemma_byte_joins(x, (8 * (count - 1)) as u64);
    }
}

/// The bytes of a number spell the number: what is written is what is read.
pub proof fn lemma_uint_round_trip(x: u64, size: nat, order: ByteOrder)
    requires
        size <= 8,
        x <= low_mask((8 * size) as u64),
    ensures
        uint_bytes(x, size, order).len() == size,
        uint_value(uint_bytes(x, size, order), order) == x,
{
    lemma_le_number(x, size, size);
    if size < 8 {
        lemma_byte_joins(x, (8 * size) as u64);
    } else {
        lemma_byte_joins(x, 0);
    }
    if order is Big {
        assert(uint_bytes(x, size, ByteOrder::Big).reverse() =~= uint_bytes(
            x,
            size,
            ByteOrder::Little,
        ));
    }
}

/// Returns the two bytes of the number one in the order of the machine.
///
/// Calls `u16::to_ne_bytes`, which gives the bytes of a number in the order
/// in which the machine keeps them: for the number one, the byte one first
/// or last.
#[verifier::external_body]
fn one_in_native_order() -> (r: [u8; 2])
    ensures
        r@ == seq![1u8, 0u8] || r@ == seq![0u8, 1u8],
{
    1u16.to_ne_bytes()
}

impl ByteOrder {
    /// The order in which the two bytes `one` spell the number one: with
    /// the lowest byte first where the byte one comes first.
    pub fn of_one(one: [u8; 2]) -> (r: ByteOrder)
        ensures
            r == (if one@[0] == 1 {
                ByteOrder::Little
            } else {
                ByteOrder::Big
            }),
    {
        if one[0] == 1 {
            ByteOrder::Little
        } else {
            ByteOrder::Big
        }
    }

    /// Returns the order in which the machine keeps the bytes of a number:
    /// that in which it keeps those of the number one. Which order that
    /// is depends on the machine.
    pub fn native() -> ByteOrder {
        Self::of_one(one_in_native_order())
    }
}

/// Writes the `size` lowest bytes of `x` at the end of `backend`.
pub fn write_uint(backend: &mut Vec<u8>, x: u64, size: usize, order: ByteOrder)
    requires
        1 <= size <= 8,
    ensures
        final(backend)@ == old(backend)@ + uint_bytes(x, size as nat, order),
{
    let mut i: usize = 0;
    while i < size
        invariant
            i <= size <= 8,
            backend@ == old(backend)@ + uint_bytes(x, size as nat, order).subrange(0, i as int),
        decreases size - i,
    {
        let shift = match order {
            ByteOrder::Little => 8 * i,
            ByteOrder::Big => 8 * (size - 1 - i),
        };
        backend.push(#[verifier::truncate] ((x >> shift) as u8));
        i += 1;
        assert(backend@ =~= old(backend)@ + uint_bytes(x, size as nat, order).subrange(0, i as int));
    }
    assert(uint_bytes(x, size as nat, order).subrange(0, size as int) =~= uint_bytes(
        x,
        size as nat,
        order,
    ));
}

/// Reads the number that the `size` bytes at `at` spell.
pub fn read_uint(backend: &[u8], at: usize, size: usize, order: ByteOrder) -> (r: u64)
    requires
        1 <= size <= 8,
        at + size <= backend@.len(),
    ensures
        r == uint_value(backend@.subrange(at as int, at + size), order),
{
    let ghost bytes = backend@.subrange(at as int, at + size);
    let ghost digits = if order is Little {
        bytes
    } else {
        bytes.reverse()
    };
    let n = backend.len();
    let mut r: u64 = 0;
    let mut i: usize = 0;
    while i < size
        invariant
            i <= size <= 8,
            at + size <= n,
            n == backend@.len(),
            bytes == backend@.subrange(at as int, at + size),
            digits == (if order is Little {
                bytes
            } else {
                bytes.reverse()
            }),
            r == le_number(digits, i as nat),
        decreases size - i,
    {
        let byte = match order {
            ByteOrder::Little => backend[at + i],
            ByteOrder::Big => backend[at + (size - 1 - i)],
        };
        assert(byte == digits[i as int]);
        r = r | ((byte as u64) << (8 * i));
        i += 1;
    }
    r
}

/// Writes zero bytes up to the next multiple of eight.
pub fn write_padding(backend: &mut Vec<u8>)
    ensures
        final(backend)@ == old(backend)@ + zeros(padding(old(backend)@.len(), 8)),
        final(backend)@.len() % 8 == 0,
{
    let ghost start = backend@.len();
    while backend.len() % 8 != 0
        invariant
            start <= backend@.len() <= start + padding(start, 8),
            backend@ == old(backend)@ + zeros((backend@.len() - start) as nat),
        decreases start + padding(start, 8) - backend@.len(),
    {
        backend.push(0);
        assert(backend@ =~= old(backend)@ + zeros((backend@.len() - start) as nat));
    }
    assert(backend@ =~= old(backend)@ + zeros(padding(start, 8)));
}

/// Something that can be written to bytes.
pub trait Serialize {
    /// The value is one that can be written: it is well formed.
    spec fn writable(&self) -> bool;

    /// The bytes that stand for the value when they are written at the
    /// position `at` in the order `order`.
    spec fn image(&self, at: nat, order: ByteOrder) -> Seq<u8>;

    /// Writes the value at the end of `backend` and returns the number of
    /// bytes written.
    fn serialize(&self, backend: &mut Vec<u8>, order: ByteOrder) -> (r: usize)
        requires
            self.writable(),
        ensures
            final(backend)@ == old(backend)@ + self.image(old(backend)@.len(), order),
            r == self.image(old(backend)@.len(), order).len(),
    ;
}

/// Something that can be read from bytes.
pub trait Deserialize: Sized {
    /// The bytes hold a value of this kind at the position `at`.
    spec fn readable(bytes: Seq<u8>, at: nat, order: ByteOrder) -> bool;

    /// `value` is what the bytes hold at the position `at`, and `next` is
    /// the position after it.
    spec fn reads(bytes: Seq<u8>, at: nat, order: ByteOrder, value: &Self, next: nat) -> bool;

    /// Reads a value at the position `at` and returns it with the position
    /// after it.
    fn deserialize(backend: &[u8], at: usize, order: ByteOrder) -> (r: Result<
        (Self, usize),
        DeserializeError,
    >)
        ensures
            r is Ok <==> Self::readable(backend@, at as nat, order),
            r matches Ok((value, next)) ==> Self::reads(
                backend@,
                at as nat,
                order,
                &value,
                next as nat,
            ),
    ;
}

/// The number that the `size` bytes at `at` spell.
pub open spec fn uint_at(bytes: Seq<u8>, at: int, size: nat, order: ByteOrder) -> u64 {
    uint_value(bytes.subrange(at, at + size), order)
}

/// The bytes of a number, found again at their place in a longer string of
/// bytes, spell the number.
pub proof fn lemma_uint_at(
    before: Seq<u8>,
    x: u64,
    size: nat,
    after: Seq<u8>,
    order: ByteOrder,
)
    requires
        size <= 8,
        x <= low_mask((8 * size) as u64),
    ensures
        uint_at(before + uint_bytes(x, size, order) + after, before.len() as int, size, order) == x,
{
    lemma_uint_round_trip(x, size, order);
    let bytes = before + uint_bytes(x, size, order) + after;
    assert(bytes.subrange(before.len() as int, (before.len() + size) as int) =~= uint_bytes(
        x,
        size,
        order,
    ));
}

/// Every number of 64 bits fits in eight bytes, and the lengths and widths
/// of this machine are such numbers.
pub proof fn lemma_fits(x: u64)
    ensures
        x <= low_mask(64),
        low_mask(32) == 0xFFFF_FFFF,
        low_mask(16) == 0xFFFF,
        low_mask(8) == 0xFF,
{
    lemma_byte_joins(x, 0);
    lemma_mask_values();
}

/// The masks of one, two and four bytes.
proof fn lemma_mask_values()
    by (bit_vector)
    ensures
        low_mask(32) == 0xFFFF_FFFF,
        low_mask(16) == 0xFFFF,
        low_mask(8) == 0xFF,
        low_mask(64) == 0xFFFF_FFFF_FFFF_FFFF,
{
}

/// Reads a number of `size` bytes at `at`, if the bytes reach that far.
pub fn read_uint_at(backend: &[u8], at: usize, size: usize, order: ByteOrder) -> (r: Option<
    (u64, usize),
>)
    requires
        1 <= size <= 8,
    ensures
        r is Some <==> at + size <= backend@.len(),
        r matches Some((x, next)) ==> x == uint_at(backend@, at as int, size as nat, order)
            && next == at + size,
{
    if backend.len() < size || at > backend.len() - size {
        return None;
    }
    Some((read_uint(backend, at, size, order), at + size))
}

impl Serialize for u8 {
    open spec fn writable(&self) -> bool {
        true
    }

    open spec fn image(&self, at: nat, order: ByteOrder) -> Seq<u8> {
        uint_bytes(*self as u64, 1, order)
    }

    fn serialize(&self, backend: &mut Vec<u8>, order: ByteOrder) -> (r: usize) {
        write_uint(backend, *self as u64, 1, order);
        1
    }
}

impl Serialize for u16 {
    open spec fn writable(&self) -> bool {
        true
    }

    open spec fn image(&self, at: nat, order: ByteOrder) -> Seq<u8> {
        uint_bytes(*self as u64, 2, order)
    }

    fn serialize(&self, backend: &mut Vec<u8>, order: ByteOrder) -> (r: usize) {
        write_uint(backend, *self as u64, 2, order);
        2
    }
}

impl Serialize for u32 {
    open spec fn writable(&self) -> bool {
        true
    }

    open spec fn image(&self, at: nat, order: ByteOrder) -> Seq<u8> {
        uint_bytes(*self as u64, 4, order)
    }

    fn serialize(&self, backend: &mut Vec<u8>, order: ByteOrder) -> (r: usize) {
        write_uint(backend, *self as u64, 4, order);
        4
    }
}

impl Serialize for u64 {
    open spec fn writable(&self) -> bool {
        true
    }

    open spec fn image(&self, at: nat, order: ByteOrder) -> Seq<u8> {
        uint_bytes(*self, 8, order)
    }

    fn serialize(&self, backend: &mut Vec<u8>, order: ByteOrder) -> (r: usize) {
        write_uint(backend, *self, 8, order);
        8
    }
}

impl Serialize for usize {
    open spec fn writable(&self) -> bool {
        true
    }

    /// A length takes eight bytes, whatever the machine.
    open spec fn image(&self, at: nat, order: ByteOrder) -> Seq<u8> {
        uint_bytes(*self as u64, 8, order)
    }

    fn serialize(&self, backend: &mut Vec<u8>, order: ByteOrder) -> (r: usize) {
        write_uint(backend, *self as u64, 8, order);
        8
    }
}

impl Deserialize for u8 {
    open spec fn readable(bytes: Seq<u8>, at: nat, order: ByteOrder) -> bool {
        at + 1 <= bytes.len()
    }

    open spec fn reads(bytes: Seq<u8>, at: nat, order: ByteOrder, value: &Self, next: nat) -> bool {
        next == at + 1 && *value == uint_at(bytes, at as int, 1, order)
    }

    fn deserialize(backend: &[u8], at: usize, order: ByteOrder) -> (r: Result<
        (Self, usize),
        DeserializeError,
    >) {
        match read_uint_at(backend, at, 1, order) {
            Some((x, next)) => {
                proof {
                    lemma_value_bound(backend@.subrange(at as int, at + 1), order);
                    lemma_fits(x);
                }
                Ok((x as u8, next))
            },
            None => Err(DeserializeError::UnexpectedEnd),
        }
    }
}

impl Deserialize for u16 {
    open spec fn readable(bytes: Seq<u8>, at: nat, order: ByteOrder) -> bool {
        at + 2 <= bytes.len()
    }

    open spec fn reads(bytes: Seq<u8>, at: nat, order: ByteOrder, value: &Self, next: nat) -> bool {
        next == at + 2 && *value == uint_at(bytes, at as int, 2, order)
    }

    fn deserialize(backend: &[u8], at: usize, order: ByteOrder) -> (r: Result<
        (Self, usize),
        DeserializeError,
    >) {
        match read_uint_at(backend, at, 2, order) {
            Some((x, next)) => {
                proof {
                    lemma_value_bound(backend@.subrange(at as int, at + 2), order);
                    lemma_fits(x);
                }
                Ok((x as u16, next))
            },
            None => Err(DeserializeError::UnexpectedEnd),
        }
    }
}

impl Deserialize for u32 {
    open spec fn readable(bytes: Seq<u8>, at: nat, order: ByteOrder) -> bool {
        at + 4 <= bytes.len()
    }

    open spec fn reads(bytes: Seq<u8>, at: nat, order: ByteOrder, value: &Self, next: nat) -> bool {
        next == at + 4 && *value == uint_at(bytes, at as int, 4, order)
    }

    fn deserialize(backend: &[u8], at: usize, order: ByteOrder) -> (r: Result<
        (Self, usize),
        DeserializeError,
    >) {
        match read_uint_at(backend, at, 4, order) {
            Some((x, next)) => {
                proof {
                    lemma_value_bound(backend@.subrange(at as int, at + 4), order);
                    lemma_fits(x);
                }
                Ok((x as u32, next))
            },
            None => Err(DeserializeError::UnexpectedEnd),
        }
    }
}

impl Deserialize for u64 {
    open spec fn readable(bytes: Seq<u8>, at: nat, order: ByteOrder) -> bool {
        at + 8 <= bytes.len()
    }

    open spec fn reads(bytes: Seq<u8>, at: nat, order: ByteOrder, value: &Self, next: nat) -> bool {
        next == at + 8 && *value == uint_at(bytes, at as int, 8, order)
    }

    fn deserialize(backend: &[u8], at: usize, order: ByteOrder) -> (r: Result<
        (Self, usize),
        DeserializeError,
    >) {
        match read_uint_at(backend, at, 8, order) {
            Some((x, next)) => Ok((x, next)),
            None => Err(DeserializeError::UnexpectedEnd),
        }
    }
}

impl Deserialize for usize {
    /// A length is read from eight bytes and has to fit this machine.
    open spec fn readable(bytes: Seq<u8>, at: nat, order: ByteOrder) -> bool {
        at + 8 <= bytes.len() && uint_at(bytes, at as int, 8, order) <= usize::MAX
    }

    open spec fn reads(bytes: Seq<u8>, at: nat, order: ByteOrder, value: &Self, next: nat) -> bool {
        next == at + 8 && *value == uint_at(bytes, at as int, 8, order)
    }

    fn deserialize(backend: &[u8], at: usize, order: ByteOrder) -> (r: Result<
        (Self, usize),
        DeserializeError,
    >) {
        match read_uint_at(backend, at, 8, order) {
            Some((x, next)) => {
                if x > usize::MAX as u64 {
                    Err(DeserializeError::Invalid)
                } else {
                    Ok((x as usize, next))
                }
            },
            None => Err(DeserializeError::UnexpectedEnd),
        }
    }
}

/// The number that bytes spell fits in as many bytes.
pub proof fn lemma_value_bound(bytes: Seq<u8>, order: ByteOrder)
    requires
        bytes.len() <= 8,
    ensures
        uint_value(bytes, order) <= low_mask((8 * bytes.len()) as u64),
{
    let digits = if order is Little {
        bytes
    } else {
        bytes.reverse()
    };
    lemma_le_bound(digits, bytes.len());
}

/// The number that the first `count` bytes spell fits in as many bytes.
proof fn lemma_le_bound(bytes: Seq<u8>, count: nat)
    requires
        count <= 8,
    ensures
        le_number(bytes, count) <= low_mask((8 * count) as u64),
    decreases count,
{
    if count > 0 {
        lemma_le_bound(bytes, (count - 1) as nat);
        lemma_byte_fits(le_number(bytes, (count - 1) as nat), bytes[count - 1], (8 * (count
            - 1)) as u64);
    }
}

/// A byte put above a number of `s` bits makes a number of `s + 8` bits.
proof fn lemma_byte_fits(x: u64, b: u8, s: u64)
    by (bit_vector)
    requires
        s <= 56,
        s % 8 == 0,
        x <= low_mask(s),
    ensures
        x | ((b as u64) << s) <= low_mask((s + 8) as u64),
{
}

/// What reading a number and the law of the round trip say together, for
/// each kind of number: what was written is what is read.
pub proof fn lemma_number_round_trip(
    before: Seq<u8>,
    x: u64,
    size: nat,
    after: Seq<u8>,
    order: ByteOrder,
)
    requires
        size == 1 || size == 2 || size == 4 || size == 8,
        x <= low_mask((8 * size) as u64),
    ensures
        (before + uint_bytes(x, size, order) + after).len() >= before.len() + size,
        uint_at(before + uint_bytes(x, size, order) + after, before.len() as int, size, order) == x,
{
    lemma_uint_at(before, x, size, after, order);
}

/// A memory mapping of the crate `mmap_rs`, which a [`Backend`] keeps alive.
#[verifier::external_type_specification]
#[verifier::external_body]
pub struct ExMmap(mmap_rs::Mmap);

/// What a structure in a [`MemCase`] was read from.
pub enum Backend {
    /// Nothing: the structure was made in memory.
    Nothing,
    /// The words of a file that was read into memory.
    Memory(Vec<u64>),
    /// A file that is mapped into memory.
    Mmap(mmap_rs::Mmap),
}

/// A structure together with the memory that it was read from, which has
/// to live as long as the structure does.
pub struct MemCase<S>(S, Backend);

impl<S> MemCase<S> {
    /// The structure in the case.
    pub closed spec fn content(&self) -> S {
        self.0
    }

    /// What the structure was read from.
    pub closed spec fn backend(&self) -> Backend {
        self.1
    }

    /// Puts a structure in a case together with what it was read from.
    pub fn new(s: S, backend: Backend) -> (r: Self)
        ensures
            r.content() == s,
            r.backend() == backend,
    {
        MemCase(s, backend)
    }

    /// Returns the structure in the case.
    pub fn as_ref(&self) -> (r: &S)
        ensures
            *r == self.content(),
    {
        &self.0
    }

    /// Returns the structure in the case, to be changed.
    pub fn as_mut(&mut self) -> (r: &mut S)
        ensures
            *r == old(self).content(),
            final(self).content() == *final(r),
            final(self).backend() == old(self).backend(),
    {
        &mut self.0
    }

    /// Returns the structure in the case.
    pub fn deref(&self) -> (r: &S)
        ensures
            *r == self.content(),
    {
        &self.0
    }

    /// Returns the structure in the case, to be changed.
    pub fn deref_mut(&mut self) -> (r: &mut S)
        ensures
            *r == old(self).content(),
            final(self).content() == *final(r),
            final(self).backend() == old(self).backend(),
    {
        &mut self.0
    }

    /// Puts a structure that was made in memory in a case.
    pub fn from(s: S) -> (r: Self)
        ensures
            r.content() == s,
            r.backend() is Nothing,
    {
        encase(s)
    }

    /// Takes the structure out of the case and lets go of the memory.
    pub fn into_inner(self) -> (r: S)
        ensures
            r == self.content(),
    {
        self.0
    }
}

/// Encases a structure that was made in memory: there is nothing that it
/// was read from.
pub fn encase<S>(s: S) -> (r: MemCase<S>)
    ensures
        r.content() == s,
        r.backend() is Nothing,
{
    MemCase(s, Backend::Nothing)
}

/// The number of words that the bytes of a file take: a last word that is
/// not full counts.
pub fn words_for_bytes(file_len: usize) -> (r: usize)
    ensures
        r == (file_len + 7) / 8,
{
    file_len / 8 + if file_len % 8 == 0 {
        0
    } else {
        1
    }
}

impl Serialize for Vec<u64> {
    open spec fn writable(&self) -> bool {
        true
    }

    /// The number of words, zeros up to the next multiple of eight, and
    /// the words.
    open spec fn image(&self, at: nat, order: ByteOrder) -> Seq<u8> {
        uint_bytes(self.len() as u64, 8, order) + zeros(padding(at + 8, 8))
            + crate::traits::words::words_image(self@, order)
    }

    fn serialize(&self, backend: &mut Vec<u8>, order: ByteOrder) -> (r: usize) {
        let start = backend.len();
        let len = self.len();
        write_uint(backend, len as u64, 8, order);
        // The words start at a multiple of their size.
        write_padding(backend);
        crate::traits::words::write_words(backend, self, len, order);
        proof {
            assert(self@.subrange(0, len as int) =~= self@);
            assert(backend@ =~= old(backend)@ + self.image(old(backend)@.len(), order));
        }
        backend.len() - start
    }
}

impl Deserialize for Vec<u64> {
    /// The number of words is there, and so are the words.
    open spec fn readable(bytes: Seq<u8>, at: nat, order: ByteOrder) -> bool {
        &&& at + 8 <= bytes.len()
        &&& at + 8 + padding(at + 8, 8) + 8 * uint_at(bytes, at as int, 8, order) <= bytes.len()
    }

    /// The vector holds the words that the bytes hold.
    open spec fn reads(bytes: Seq<u8>, at: nat, order: ByteOrder, value: &Self, next: nat) -> bool {
        &&& value@ == crate::traits::words::words_at(
            bytes,
            (at + 8 + padding(at + 8, 8)) as int,
            uint_at(bytes, at as int, 8, order) as nat,
            order,
        )
        &&& next == at + 8 + padding(at + 8, 8) + 8 * uint_at(bytes, at as int, 8, order)
    }

    fn deserialize(backend: &[u8], at: usize, order: ByteOrder) -> (r: Result<
        (Self, usize),
        DeserializeError,
    >) {
        let (len, after_len) = match read_uint_at(backend, at, 8, order) {
            Some(found) => found,
            None => {
                return Err(DeserializeError::UnexpectedEnd);
            },
        };
        let pad = (8 - after_len % 8) % 8;
        if backend.len() - after_len < pad {
            return Err(DeserializeError::UnexpectedEnd);
        }
        let start = after_len + pad;
        let room = ((backend.len() - start) / 8) as u64;
        if room < len {
            return Err(DeserializeError::UnexpectedEnd);
        }
        let words = crate::traits::words::read_words(backend, start, len as usize, order);
        Ok((words, start + 8 * (len as usize)))
    }
}

/// Words that are written and read back are the same words.
pub proof fn lemma_words_vec_round_trip(
    x: Vec<u64>,
    before: Seq<u8>,
    after: Seq<u8>,
    order: ByteOrder,
    read: Vec<u64>,
    next: nat,
)
    requires
        Vec::<u64>::reads(before + x.image(before.len(), order) + after, before.len(), order, &read, next),
    ensures
        Vec::<u64>::readable(before + x.image(before.len(), order) + after, before.len(), order),
        read@ == x@,
        next == before.len() + x.image(before.len(), order).len(),
{
    let at = before.len();
    let bytes = before + x.image(at, order) + after;
    let n = uint_bytes(x.len() as u64, 8, order);
    let pad = zeros(padding(at + 8, 8));
    let w = crate::traits::words::words_image(x@, order);
    lemma_fits(x.len() as u64);
    assert(bytes =~= before + n + (pad + w + after));
    assert(bytes =~= (before + n + pad) + w + after);
    lemma_uint_at(before, x.len() as u64, 8, pad + w + after, order);
    crate::traits::words::lemma_words_round_trip(before + n + pad, x@, after, order);
}

} // verus!
