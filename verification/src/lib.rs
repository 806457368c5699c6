//! A union operator for a streaming, incrementally maintained dataflow engine.
//!
//! The operator merges record streams from several upstream nodes into one
//! logical output stream: either a column-projecting union of distinct named
//! ancestors, or a recombination of the parallel shards of a single logical
//! ancestor.  Ordinary incremental updates pass straight through; per-key
//! partial-replay pieces arriving independently from each ancestor are
//! buffered until every ancestor has contributed, then merged and released.

pub mod assoc;
pub mod data;
pub mod render;
pub mod union_op;
