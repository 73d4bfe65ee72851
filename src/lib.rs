//! Storage core of a log-structured merge tree: the block format, sorted
//! string tables built from blocks, and cursors that merge sorted sources.

pub mod key;
pub mod block;
pub mod block_builder;
pub mod block_iterator;
pub mod iterators;
pub mod two_merge_iterator;
pub mod merge_iterator;
pub mod table;
pub mod table_iterator;
pub mod table_builder;
