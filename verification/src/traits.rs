//! What the structures of this crate have in common.

pub mod serdes;
pub mod structures;
pub mod words;
