//! Bit-level storage: words, packed vectors and bitmaps.

pub mod atomic_bit_field_vec;
pub mod bit_field_vec;
pub mod bitmap;
pub mod word;
