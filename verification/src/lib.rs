//! A log-structured merge-tree storage engine.

pub mod apply_worker;
pub mod block_cache;
pub mod bloom;
pub mod bytes;
pub mod change_log;
pub mod checksum;
pub mod codec;
pub mod compaction;
pub mod compaction_worker;
pub mod engine;
pub mod entry;
pub mod errors;
pub mod failpoints;
pub mod flush_worker;
pub mod frame;
pub mod harness;
pub mod iter;
pub mod keys;
pub mod laws;
pub mod manifest;
pub mod memtable;
pub mod metrics;
pub mod owned_snapshot;
pub mod policy;
pub mod reader_cache;
pub mod records;
pub mod result_cache;
pub mod seq;
pub mod shipping;
pub mod snapshot;
pub mod soak_util;
pub mod sorted_map;
pub mod sstable;
pub mod stable_sort;
pub mod store;
pub mod table_file;
pub mod tenant_fair;
pub mod text;
pub mod wal;
