//! Static retrieval functions: a structure that maps each key of a known set
//! to the value that was given with it, in constant time and within a small
//! factor of the space that the values take.

pub mod builder;
pub mod edge_list;
pub mod function;
pub mod graph;
pub mod params;
pub mod peel;
pub mod remap;
