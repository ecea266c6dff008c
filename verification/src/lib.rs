//! An append-optimized ordered key-value store for 64-bit integer keys and
//! values: an in-memory balanced tree absorbs writes, full tables are flushed
//! into immutable page-structured sorted indexes on a pluggable page store,
//! point reads are short-circuited by per-index bloom filters, and merges
//! keep last-writer-wins semantics across levels.
use vstd::prelude::*;

pub mod buffer;
pub mod pairs;
pub mod avl_tree;
pub mod cache_trait;
pub mod compaction;
pub mod bloom_filter;
pub mod b_tree;
pub mod database;
pub mod linked_list;

verus! {

/// Every page holds this many bytes.
pub const PAGE_SIZE: usize = 4096;

/// Every page holds this many 64-bit words.
pub const PAGE_SIZE_I64: usize = 4096 / 8;

/// Reserved value: marks padding in pages and end-of-data in streams.
/// It is rejected as a user key or value.
pub const TOMBSTONE: i64 = i64::MAX;

} // verus!
