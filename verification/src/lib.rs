//! A single-node columnar storage engine with lineage-based multi-version
//! records: inserts create immutable base records, updates append immutable
//! tail records chained by back-pointers, and deletions append tombstone
//! tail records. Point lookup, range summation, column-masked projection,
//! and point-in-time retrieval are implemented over fixed-capacity pages,
//! a bounded buffer pool with write-back eviction, a dense RID directory,
//! and per-column ordered indices.

pub mod error;
pub mod page;
pub mod codec;
pub mod page_range;
pub mod page_directory;
pub mod iterator;
pub mod index;
pub mod bufferpool;
pub mod table;
pub mod query;
pub mod laws;
