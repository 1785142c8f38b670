//! Core of an incremental computation engine over Z-sets: collections of
//! `(key, weight)` tuples with weights in an abelian group.
//!
//! The crate provides ordered trie storage for immutable batches of updates,
//! algebraic merging with consolidation (zero-weight elimination), a fueled
//! spine trace that amortizes merge work across insertions, and stream
//! operators (integration and fixed-point iteration) on top of the batch
//! algebra.

pub mod algebra;
pub mod circuit;
pub mod consolidation;
pub mod operator;
pub mod trace;
