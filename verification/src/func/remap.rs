//! Signatures: the two words that stand for a key once it has been read.

use crate::spooky::{spooky_short, spooky_short_spec};
use vstd::prelude::*;

verus! {

/// A kind of key: something that a seed turns into a signature of two words.
///
/// The signature has to be a function of the key and the seed alone, which
/// is what `signature` stands for.
pub trait Remap {
    /// The signature of `key` under `seed`.
    spec fn signature(key: &Self, seed: u64) -> (u64, u64);

    /// Computes the signature of `key` under `seed`.
    fn remap(key: &Self, seed: u64) -> (r: [u64; 2])
        ensures
            (r[0], r[1]) == Self::signature(key, seed),
    ;
}

/// The first two words of the hash of `bytes` under `seed`.
pub open spec fn bytes_signature(bytes: Seq<u8>, seed: u64) -> (u64, u64) {
    let h = spooky_short_spec(bytes, seed);
    (h.0, h.1)
}

/// The eight bytes of `x`, lowest first.
pub open spec fn le_bytes(x: u64) -> Seq<u8> {
    seq![
        x as u8,
        (x >> 8) as u8,
        (x >> 16) as u8,
        (x >> 24) as u8,
        (x >> 32) as u8,
        (x >> 40) as u8,
        (x >> 48) as u8,
        (x >> 56) as u8,
    ]
}

/// Computes the signature of a string of bytes.
pub fn remap_bytes(bytes: &[u8], seed: u64) -> (r: [u64; 2])
    ensures
        (r[0], r[1]) == bytes_signature(bytes@, seed),
{
    let spooky = spooky_short(bytes, seed);
    [spooky[0], spooky[1]]
}

impl Remap for String {
    open spec fn signature(key: &Self, seed: u64) -> (u64, u64) {
        bytes_signature(vstd::utf8::encode_utf8(key@), seed)
    }

    fn remap(key: &Self, seed: u64) -> (r: [u64; 2]) {
        remap_bytes(key.as_str().as_bytes(), seed)
    }
}

impl Remap for str {
    open spec fn signature(key: &Self, seed: u64) -> (u64, u64) {
        bytes_signature(vstd::utf8::encode_utf8(key@), seed)
    }

    fn remap(key: &Self, seed: u64) -> (r: [u64; 2]) {
        remap_bytes(key.as_bytes(), seed)
    }
}

impl Remap for [u8] {
    open spec fn signature(key: &Self, seed: u64) -> (u64, u64) {
        bytes_signature(key@, seed)
    }

    fn remap(key: &Self, seed: u64) -> (r: [u64; 2]) {
        remap_bytes(key, seed)
    }
}

impl Remap for Vec<u8> {
    open spec fn signature(key: &Self, seed: u64) -> (u64, u64) {
        bytes_signature(key@, seed)
    }

    fn remap(key: &Self, seed: u64) -> (r: [u64; 2]) {
        remap_bytes(key.as_slice(), seed)
    }
}

impl Remap for u64 {
    open spec fn signature(key: &Self, seed: u64) -> (u64, u64) {
        bytes_signature(le_bytes(*key), seed)
    }

    fn remap(key: &Self, seed: u64) -> (r: [u64; 2]) {
        let x = *key;
        let bytes: [u8; 8] = [
            #[verifier::truncate]
            (x as u8),
            #[verifier::truncate]
            ((x >> 8) as u8),
            #[verifier::truncate]
            ((x >> 16) as u8),
            #[verifier::truncate]
            ((x >> 24) as u8),
            #[verifier::truncate]
            ((x >> 32) as u8),
            #[verifier::truncate]
            ((x >> 40) as u8),
            #[verifier::truncate]
            ((x >> 48) as u8),
            #[verifier::truncate]
            ((x >> 56) as u8),
        ];
        assert(bytes@ =~= le_bytes(x));
        remap_bytes(bytes.as_slice(), seed)
    }
}

} // verus!
