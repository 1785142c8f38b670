//! Trace storage: ordered trie layers, immutable batches, and the fueled
//! spine that merges batches incrementally.

pub mod indexed_zset_batch;
pub mod layers;
pub mod ordered;
pub mod ordered_leaf;
pub mod spine_fueled;
pub mod zset_batch;
