//! Succinct data structures: packed fixed-width integer vectors, bitmaps with
//! selection, Elias–Fano monotone sequences and static retrieval functions.

pub mod bits;
pub mod dict;
pub mod func;
pub mod spooky;
pub mod traits;
