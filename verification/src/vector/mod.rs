//! Vector collections: nearest-neighbour search beside the tables.
//!
//! Components of vectors are held as the bits of their floating-point values,
//! and distances as integers that are ordered like the distances.

pub mod catalog;
pub mod collection;
pub mod graph_laws;
pub mod hnsw;
pub mod laws;
pub mod log_laws;
pub mod types;
pub mod vecfile;
pub mod wal;
