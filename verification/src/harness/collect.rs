//! Taking a sample of an engine under load.

use vstd::prelude::*;
use crate::apply_worker::{ApplyScheduler, ManifestSyncWindow};
use crate::block_cache::CacheStats;
use crate::compaction::{catalog_bytes, level_count, pending, plannable};
use crate::engine::gauges::Gauges;
use crate::engine::read::last_seq;
use crate::engine::Engine;
use crate::harness::load::{growths, measures_space, Totals, WindowCounters, WindowStats};
use crate::harness::sample::Sample;

verus! {

/// What the owner of the engine measured for a sample.
#[derive(Debug)]
pub struct Reading {
    /// The number of the sample, counting from one.
    pub sample_index: u64,
    pub now_ms: u64,
    pub elapsed_secs: u64,
    pub wall_unix_secs: u64,
    pub ops_done: u64,
    pub rss_bytes: u64,
    pub open_fds: u64,
    pub p50_us: u64,
    pub p99_us: u64,
    pub p999_us: u64,
    pub max_us: u64,
    pub wal_segments: u64,
    pub cache: CacheStats,
    pub totals: Totals,
    pub compaction_jobs_total: u64,
    pub compaction_repack_total: u64,
    pub compaction_rejected_no_progress: u64,
}

/// The sample carries what was measured outside the engine.
pub open spec fn carries(s: Sample, r: Reading) -> bool {
    &&& s.elapsed_secs == r.elapsed_secs
    &&& s.wall_unix_secs == r.wall_unix_secs
    &&& s.ops_done == r.ops_done
    &&& s.rss_bytes == r.rss_bytes
    &&& s.open_fds == r.open_fds
    &&& s.p50_us == r.p50_us
    &&& s.p99_us == r.p99_us
    &&& s.p999_us == r.p999_us
    &&& s.max_us == r.max_us
    &&& s.wal_segment_count == r.wal_segments
    &&& s.block_cache_hits == r.totals.cache_hits
    &&& s.block_cache_misses == r.totals.cache_misses
    &&& s.block_cache_resident_bytes == r.cache.resident_bytes
    &&& s.compaction_jobs_total == r.compaction_jobs_total
    &&& s.compaction_repack_total == r.compaction_repack_total
    &&& s.compaction_rejected_no_progress == r.compaction_rejected_no_progress
}

/// The sample shows the state of the engine.
pub open spec fn shows(s: Sample, e: Engine) -> bool {
    &&& s.immutable_memtable_count == e.queued()
    &&& s.live_sstable_count == e.catalog().len()
    &&& s.wal_unshipped_bytes == (if e.ship_dir is Some {
        e.active_wal_size as int
    } else {
        0
    })
    &&& s.last_durable_seq == last_seq(e.seq@)
    &&& s.sstables_l0 == level_count(e.catalog(), 0)
    &&& s.sstables_l1 == level_count(e.catalog(), 1)
    &&& s.sstables_l2 == level_count(e.catalog(), 2)
    &&& s.pending_compaction_bytes == pending(e.catalog(), e.cfg.compaction)
    &&& e.shows_l2_sizes((s.l2_median_size_bytes, s.l2_max_size_bytes))
}

/// The sample shows what happened since the one before it.
pub open spec fn shows_window(s: Sample, w: WindowCounters, e: Engine, now: Totals) -> bool {
    let g = growths(now, w.before);
    &&& s.compaction_jobs_l0_window == g.jobs_l0
    &&& s.compaction_jobs_l1_window == g.jobs_l1
    &&& s.compaction_jobs_l2_window == g.jobs_l2
    &&& s.flushes_window == g.flushes
    &&& s.block_cache_hits_window == g.cache_hits
    &&& s.block_cache_misses_window == g.cache_misses
    &&& s.block_cache_compaction_reads_window == g.compaction_reads
    &&& s.tombstones_dropped_window == g.tombstones_dropped
    &&& s.versions_dropped_window == g.versions_dropped
    &&& s.result_cache_hits_window == g.result_hits
    &&& s.result_cache_misses_window == g.result_misses
    &&& s.poll_mean_us == (if w.ops_in_window > 0 {
        w.poll_sum_ns / w.ops_in_window / 1000
    } else {
        0
    })
    &&& s.poll_max_us == w.poll_max_ns / 1000
    &&& s.errors_window == w.errors_window
    &&& s.apply_count_window == e.apply_window.count
    &&& s.apply_mean_us == (if e.apply_window.count > 0 {
        e.apply_window.sum_ns / e.apply_window.count / 1000
    } else {
        0
    })
    &&& s.apply_max_us == e.apply_window.max_ns / 1000
    &&& s.manifest_sync_max_us == e.apply_scheduler.window.max_ns / 1000
}

/// Takes a sample: fills in what the engine, the measurements and the window since the
/// last sample say, and starts the next window. The space that the store takes is
/// measured at the first sample and at every tenth, and carried over in `last_space`
/// between. What has a fraction is left empty.
pub fn collect_sample(
    engine: &mut Engine,
    window: &mut WindowCounters,
    last_space: &mut (u64, u64),
    reading: Reading,
) -> (s: Sample)
    requires
        old(engine).wf(),
        plannable(old(engine).catalog(), old(engine).cfg.compaction),
    ensures
        carries(s, reading),
        shows(s, *old(engine)),
        shows_window(s, *old(window), *old(engine), reading.totals),
        *final(last_space) == (if reading.sample_index == 1 || reading.sample_index % 10 == 0 {
            (
                catalog_bytes(old(engine).catalog()) as u64,
                old(engine).logical_bytes(reading.now_ms) as u64,
            )
        } else {
            *old(last_space)
        }),
        (s.disk_bytes_total, s.logical_live_bytes) == *final(last_space),
        *final(window) == (WindowCounters {
            before: reading.totals,
            poll_sum_ns: 0,
            poll_max_ns: 0,
            ops_in_window: 0,
            errors_window: 0,
        }),
        final(engine).wf(),
        final(engine).store() == old(engine).store(),
        *final(engine) == (Engine {
            apply_window: ManifestSyncWindow { count: 0, sum_ns: 0, max_ns: 0 },
            apply_scheduler: ApplyScheduler {
                window: ManifestSyncWindow { count: 0, sum_ns: 0, max_ns: 0 },
                ..old(engine).apply_scheduler
            },
            ..*old(engine)
        }),
{
    let gauges: Gauges = engine.update_gauges(&reading.cache, reading.wal_segments);
    let (l2_min, l2_median, l2_max): (u64, u64, u64) = engine.l2_file_size_stats();
    if measures_space(reading.sample_index) {
        let disk: u64 = gauges.disk_bytes_total;
        let live: u64 = match engine.estimate_logical_live_bytes(reading.now_ms) {
            Ok(n) => n,
            Err(e) => 1,
        };
        *last_space = (disk, live);
    }
    let l0: u64 = engine.tables_at(0) as u64;
    let l1: u64 = engine.tables_at(1) as u64;
    let l2: u64 = engine.tables_at(2) as u64;
    let applies: (u64, u64, u64) = engine.drain_apply_window_stats();
    let syncs: (u64, u64, u64) = engine.drain_manifest_sync_window_stats();
    let cache_hits: u64 = reading.totals.cache_hits;
    let cache_misses: u64 = reading.totals.cache_misses;
    let w: WindowStats = window.roll(reading.totals);
    let mut s: Sample = Sample::empty();
    s.elapsed_secs = reading.elapsed_secs;
    s.wall_unix_secs = reading.wall_unix_secs;
    s.ops_done = reading.ops_done;
    s.rss_bytes = reading.rss_bytes;
    s.open_fds = reading.open_fds;
    s.immutable_memtable_count = gauges.immutable_memtable_count;
    s.live_sstable_count = gauges.live_sstable_count;
    s.wal_segment_count = gauges.wal_segment_count;
    s.wal_unshipped_bytes = gauges.wal_unshipped_bytes;
    s.last_durable_seq = gauges.last_durable_seq;
    s.p50_us = reading.p50_us;
    s.p99_us = reading.p99_us;
    s.p999_us = reading.p999_us;
    s.max_us = reading.max_us;
    s.sstables_l0 = l0;
    s.sstables_l1 = l1;
    s.sstables_l2 = l2;
    s.block_cache_hits = cache_hits;
    s.block_cache_misses = cache_misses;
    s.block_cache_resident_bytes = gauges.block_cache_resident_bytes;
    s.compaction_jobs_total = reading.compaction_jobs_total;
    s.l2_median_size_bytes = l2_median;
    s.l2_max_size_bytes = l2_max;
    s.pending_compaction_bytes = gauges.pending_compaction_bytes;
    s.compaction_repack_total = reading.compaction_repack_total;
    s.compaction_rejected_no_progress = reading.compaction_rejected_no_progress;
    s.disk_bytes_total = last_space.0;
    s.logical_live_bytes = last_space.1;
    s.set_window(w, applies);
    s.manifest_sync_max_us = syncs.2 / 1000;
    s
}

} // verus!
