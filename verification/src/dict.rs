//! Dictionaries: sequences that are stored in little space and read by index.

pub mod elias_fano;
