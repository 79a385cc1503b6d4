//! The immutable storage layer of an LSM tree: blocks, sorted string tables,
//! a Bloom filter and a k-way merge of sorted streams.
pub mod codec;
pub mod key;
pub mod error;
pub mod block;
pub mod block_builder;
pub mod block_iterator;
pub mod bloom;
pub mod meta;
pub mod table;
pub mod iterators;
pub mod table_iterator;
pub mod merge_iterator;
pub mod table_builder;
