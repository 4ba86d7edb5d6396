//! The figures that a monitor shows of an engine.

use vstd::prelude::*;
use crate::block_cache::CacheStats;
use crate::compaction::{catalog_bytes, level_count, pending, plannable};
use crate::engine::read::last_seq;
use crate::engine::Engine;
use crate::memtable::total_footprint;
use crate::result_cache::result_bytes;

verus! {

/// The figures of an engine at one moment.
#[derive(Debug)]
pub struct Gauges {
    pub memtable_size_bytes: u64,
    pub immutable_memtable_count: u64,
    pub live_sstable_count: u64,
    pub last_durable_seq: u64,
    /// The number of tables of each level, from zero to the largest level.
    pub live_sstables_by_level: Vec<u64>,
    pub block_cache_resident_bytes: u64,
    pub block_cache_resident_entries: u64,
    pub disk_bytes_total: u64,
    /// The size and the evictions of the result cache, where there is one.
    pub result_cache: Option<(u64, u64)>,
    pub wal_segment_count: u64,
    /// What the log holds that no segment was shipped of, where segments are shipped.
    pub wal_unshipped_bytes: u64,
    pub pending_compaction_bytes: u64,
}

/// How far a counter lags behind a total, zero where it does not.
pub fn counter_step(total: u64, shown: u64) -> (n: u64)
    ensures
        n == (if total > shown {
            total - shown
        } else {
            0
        }),
{
    if total > shown {
        total - shown
    } else {
        0
    }
}

impl Engine {
    /// The figures of this moment, given those of the block cache and the number of log
    /// segments.
    pub fn update_gauges(&self, cache: &CacheStats, segments: u64) -> (g: Gauges)
        requires
            self.wf(),
            plannable(self.catalog(), self.cfg.compaction),
        ensures
            g.memtable_size_bytes == total_footprint(self.layers.active@),
            g.immutable_memtable_count == self.queued(),
            g.live_sstable_count == self.catalog().len(),
            g.last_durable_seq == last_seq(self.seq@),
            g.live_sstables_by_level@.len() == self.cfg.compaction.max_level + 1,
            forall|l: int|
                0 <= l <= self.cfg.compaction.max_level ==> #[trigger] g.live_sstables_by_level@[l]
                    == level_count(self.catalog(), l),
            g.block_cache_resident_bytes == cache.resident_bytes,
            g.block_cache_resident_entries == cache.resident_entries,
            g.disk_bytes_total == catalog_bytes(self.catalog()),
            match (g.result_cache, self.result_cache) {
                (Some((bytes, evicted)), Some(c)) => bytes == result_bytes(c@.slots) && evicted
                    == c@.evictions,
                (None, None) => true,
                _ => false,
            },
            g.wal_segment_count == segments,
            g.wal_unshipped_bytes == (if self.ship_dir is Some {
                self.active_wal_size as int
            } else {
                0
            }),
            g.pending_compaction_bytes == pending(self.catalog(), self.cfg.compaction),
    {
        let mut by_level: Vec<u64> = Vec::new();
        let levels: u8 = self.cfg.compaction.max_level + 1;
        let mut l: u8 = 0;
        while l < levels
            invariant
                l <= levels,
                by_level@.len() == l,
                forall|k: int|
                    0 <= k < l ==> #[trigger] by_level@[k] == level_count(self.catalog(), k),
            decreases levels - l,
        {
            by_level.push(self.tables_at(l) as u64);
            l = l + 1;
        }
        let result_cache: Option<(u64, u64)> = match &self.result_cache {
            Some(c) => Some((c.resident_bytes(), c.evictions())),
            None => None,
        };
        Gauges {
            memtable_size_bytes: self.layers.active.size_bytes() as u64,
            immutable_memtable_count: self.immutable_len() as u64,
            live_sstable_count: self.sstable_count() as u64,
            last_durable_seq: self.current_seq(),
            live_sstables_by_level: by_level,
            block_cache_resident_bytes: cache.resident_bytes,
            block_cache_resident_entries: cache.resident_entries,
            disk_bytes_total: self.estimate_disk_bytes(),
            result_cache,
            wal_segment_count: segments,
            wal_unshipped_bytes: if self.ship_dir.is_some() {
                self.active_wal_size as u64
            } else {
                0
            },
            pending_compaction_bytes: self.estimate_pending_compaction_bytes(),
        }
    }
}

} // verus!
