//! A verified LSM-tree storage engine core: block and table formats, a write-ahead log,
//! compaction, multi-version reads and transactions.

pub mod block;
pub mod codec;
pub mod compact;
pub mod error;
pub mod hash;
pub mod iterators;
pub mod key;
pub mod lsm_iterator;
pub mod lsm_storage;
pub mod mvcc;
pub mod skiplist;
pub mod snapshot;
pub mod table;
pub mod wal;
