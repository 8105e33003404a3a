//! Core read/write path of a log-structured merge-tree storage engine:
//! sorted blocks, sorted-string tables built from them, an in-memory
//! ordered write sink, and the iterator stack that merges ordered sources
//! into one sorted key-value stream.

pub mod codec;
pub mod keys;
pub mod block;
pub mod block_builder;
pub mod block_iterator;
pub mod iterators;
pub mod mem_table;
pub mod merge_iterator;
pub mod lsm_iterator;
pub mod table;
pub mod table_builder;
pub mod table_iterator;
