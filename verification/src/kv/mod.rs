//! A local key-value store: a write-ahead log, an ordered table in memory, and
//! immutable tables on disk.

pub mod bloom;
pub mod engine;
pub mod engine_laws;
pub mod engine_runs;
pub mod memtable;
pub mod memtable_laws;
pub mod merge;
pub mod names;
pub mod sstable;
pub mod types;
pub mod upkeep_laws;
pub mod wal;
