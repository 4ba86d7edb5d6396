//! The samples of a soak run.

use vstd::prelude::*;
use crate::harness::load::{mean_us, WindowStats};
use crate::harness::report::{
    escaped, field_views, fields_text, json_object, number_field, text_field,
};
use crate::text::{decimal, text_of};

verus! {

/// A sample of a soak run. Numbers with a fraction are texts.
#[derive(Debug)]
pub struct Sample {
    pub elapsed_secs: u64,
    pub wall_unix_secs: u64,
    pub ops_done: u64,
    pub ops_per_sec_observed: String,
    pub rss_bytes: u64,
    pub open_fds: u64,
    pub immutable_memtable_count: u64,
    pub live_sstable_count: u64,
    pub wal_segment_count: u64,
    pub wal_unshipped_bytes: u64,
    pub last_durable_seq: u64,
    pub p50_us: u64,
    pub p99_us: u64,
    pub p999_us: u64,
    pub max_us: u64,
    pub sstables_l0: u64,
    pub sstables_l1: u64,
    pub sstables_l2: u64,
    pub block_cache_hits: u64,
    pub block_cache_misses: u64,
    pub block_cache_resident_bytes: u64,
    pub compaction_jobs_total: u64,
    pub l2_median_size_bytes: u64,
    pub l2_max_size_bytes: u64,
    pub pending_compaction_bytes: u64,
    pub compaction_write_amp: String,
    pub compaction_repack_total: u64,
    pub compaction_rejected_no_progress: u64,
    pub block_cache_hits_window: u64,
    pub block_cache_misses_window: u64,
    pub block_cache_hit_rate_window: String,
    pub block_cache_compaction_reads_window: u64,
    pub disk_bytes_total: u64,
    pub logical_live_bytes: u64,
    pub space_amplification: String,
    pub tombstones_dropped_window: u64,
    pub versions_dropped_window: u64,
    pub result_cache_hits_window: u64,
    pub result_cache_misses_window: u64,
    pub result_cache_hit_rate_window: String,
    pub poll_max_us: u64,
    pub poll_mean_us: u64,
    pub apply_count_window: u64,
    pub apply_max_us: u64,
    pub apply_mean_us: u64,
    pub compaction_jobs_l0_window: u64,
    pub compaction_jobs_l1_window: u64,
    pub compaction_jobs_l2_window: u64,
    pub flushes_window: u64,
    pub manifest_sync_max_us: u64,
    pub errors_window: u64,
}

/// A field whose value is JSON already.
fn raw_field(name: &str, value: &str) -> (f: (String, String))
    ensures
        f.0@ == name@,
        f.1@ == value@,
{
    (text_of(name), text_of(value))
}

impl Sample {
    /// A sample with nothing filled in.
    pub fn empty() -> (s: Sample)
        ensures
            s.elapsed_secs == 0,
            s.wall_unix_secs == 0,
            s.ops_done == 0,
            s.ops_per_sec_observed@ == Seq::<char>::empty(),
            s.rss_bytes == 0,
            s.open_fds == 0,
            s.immutable_memtable_count == 0,
            s.live_sstable_count == 0,
            s.wal_segment_count == 0,
            s.wal_unshipped_bytes == 0,
            s.last_durable_seq == 0,
            s.p50_us == 0,
            s.p99_us == 0,
            s.p999_us == 0,
            s.max_us == 0,
            s.sstables_l0 == 0,
            s.sstables_l1 == 0,
            s.sstables_l2 == 0,
            s.block_cache_hits == 0,
            s.block_cache_misses == 0,
            s.block_cache_resident_bytes == 0,
            s.compaction_jobs_total == 0,
            s.l2_median_size_bytes == 0,
            s.l2_max_size_bytes == 0,
            s.pending_compaction_bytes == 0,
            s.compaction_write_amp@ == Seq::<char>::empty(),
            s.compaction_repack_total == 0,
            s.compaction_rejected_no_progress == 0,
            s.block_cache_hits_window == 0,
            s.block_cache_misses_window == 0,
            s.block_cache_hit_rate_window@ == Seq::<char>::empty(),
            s.block_cache_compaction_reads_window == 0,
            s.disk_bytes_total == 0,
            s.logical_live_bytes == 0,
            s.space_amplification@ == Seq::<char>::empty(),
            s.tombstones_dropped_window == 0,
            s.versions_dropped_window == 0,
            s.result_cache_hits_window == 0,
            s.result_cache_misses_window == 0,
            s.result_cache_hit_rate_window@ == Seq::<char>::empty(),
            s.poll_max_us == 0,
            s.poll_mean_us == 0,
            s.apply_count_window == 0,
            s.apply_max_us == 0,
            s.apply_mean_us == 0,
            s.compaction_jobs_l0_window == 0,
            s.compaction_jobs_l1_window == 0,
            s.compaction_jobs_l2_window == 0,
            s.flushes_window == 0,
            s.manifest_sync_max_us == 0,
            s.errors_window == 0,
    {
        Sample {
            elapsed_secs: 0,
            wall_unix_secs: 0,
            ops_done: 0,
            ops_per_sec_observed: String::new(),
            rss_bytes: 0,
            open_fds: 0,
            immutable_memtable_count: 0,
            live_sstable_count: 0,
            wal_segment_count: 0,
            wal_unshipped_bytes: 0,
            last_durable_seq: 0,
            p50_us: 0,
            p99_us: 0,
            p999_us: 0,
            max_us: 0,
            sstables_l0: 0,
            sstables_l1: 0,
            sstables_l2: 0,
            block_cache_hits: 0,
            block_cache_misses: 0,
            block_cache_resident_bytes: 0,
            compaction_jobs_total: 0,
            l2_median_size_bytes: 0,
            l2_max_size_bytes: 0,
            pending_compaction_bytes: 0,
            compaction_write_amp: String::new(),
            compaction_repack_total: 0,
            compaction_rejected_no_progress: 0,
            block_cache_hits_window: 0,
            block_cache_misses_window: 0,
            block_cache_hit_rate_window: String::new(),
            block_cache_compaction_reads_window: 0,
            disk_bytes_total: 0,
            logical_live_bytes: 0,
            space_amplification: String::new(),
            tombstones_dropped_window: 0,
            versions_dropped_window: 0,
            result_cache_hits_window: 0,
            result_cache_misses_window: 0,
            result_cache_hit_rate_window: String::new(),
            poll_max_us: 0,
            poll_mean_us: 0,
            apply_count_window: 0,
            apply_max_us: 0,
            apply_mean_us: 0,
            compaction_jobs_l0_window: 0,
            compaction_jobs_l1_window: 0,
            compaction_jobs_l2_window: 0,
            flushes_window: 0,
            manifest_sync_max_us: 0,
            errors_window: 0,
        }
    }

    /// The names and values of a sample.
    pub open spec fn fields(&self) -> Seq<(Seq<char>, Seq<char>)> {
        seq![
            ("kind"@, "\""@ + escaped("sample"@) + "\""@),
            ("elapsed_secs"@, decimal(self.elapsed_secs as nat)),
            ("wall_unix_secs"@, decimal(self.wall_unix_secs as nat)),
            ("ops_done"@, decimal(self.ops_done as nat)),
            ("ops_per_sec_observed"@, self.ops_per_sec_observed@),
            ("rss_bytes"@, decimal(self.rss_bytes as nat)),
            ("open_fds"@, decimal(self.open_fds as nat)),
            ("immutable_memtable_count"@, decimal(self.immutable_memtable_count as nat)),
            ("live_sstable_count"@, decimal(self.live_sstable_count as nat)),
            ("wal_segment_count"@, decimal(self.wal_segment_count as nat)),
            ("wal_unshipped_bytes"@, decimal(self.wal_unshipped_bytes as nat)),
            ("last_durable_seq"@, decimal(self.last_durable_seq as nat)),
            ("p50_us"@, decimal(self.p50_us as nat)),
            ("p99_us"@, decimal(self.p99_us as nat)),
            ("p999_us"@, decimal(self.p999_us as nat)),
            ("max_us"@, decimal(self.max_us as nat)),
            ("sstables_l0"@, decimal(self.sstables_l0 as nat)),
            ("sstables_l1"@, decimal(self.sstables_l1 as nat)),
            ("sstables_l2"@, decimal(self.sstables_l2 as nat)),
            ("block_cache_hits"@, decimal(self.block_cache_hits as nat)),
            ("block_cache_misses"@, decimal(self.block_cache_misses as nat)),
            ("block_cache_resident_bytes"@, decimal(self.block_cache_resident_bytes as nat)),
            ("compaction_jobs_total"@, decimal(self.compaction_jobs_total as nat)),
            ("l2_median_size_bytes"@, decimal(self.l2_median_size_bytes as nat)),
            ("l2_max_size_bytes"@, decimal(self.l2_max_size_bytes as nat)),
            ("pending_compaction_bytes"@, decimal(self.pending_compaction_bytes as nat)),
            ("compaction_write_amp"@, self.compaction_write_amp@),
            ("compaction_repack_total"@, decimal(self.compaction_repack_total as nat)),
            ("compaction_rejected_no_progress"@, decimal(self.compaction_rejected_no_progress as nat)),
            ("block_cache_hits_window"@, decimal(self.block_cache_hits_window as nat)),
            ("block_cache_misses_window"@, decimal(self.block_cache_misses_window as nat)),
            ("block_cache_hit_rate_window"@, self.block_cache_hit_rate_window@),
            ("block_cache_compaction_reads_window"@, decimal(self.block_cache_compaction_reads_window as nat)),
            ("disk_bytes_total"@, decimal(self.disk_bytes_total as nat)),
            ("logical_live_bytes"@, decimal(self.logical_live_bytes as nat)),
            ("space_amplification"@, self.space_amplification@),
            ("tombstones_dropped_window"@, decimal(self.tombstones_dropped_window as nat)),
            ("versions_dropped_window"@, decimal(self.versions_dropped_window as nat)),
            ("result_cache_hits_window"@, decimal(self.result_cache_hits_window as nat)),
            ("result_cache_misses_window"@, decimal(self.result_cache_misses_window as nat)),
            ("result_cache_hit_rate_window"@, self.result_cache_hit_rate_window@),
            ("poll_max_us"@, decimal(self.poll_max_us as nat)),
            ("poll_mean_us"@, decimal(self.poll_mean_us as nat)),
            ("apply_count_window"@, decimal(self.apply_count_window as nat)),
            ("apply_max_us"@, decimal(self.apply_max_us as nat)),
            ("apply_mean_us"@, decimal(self.apply_mean_us as nat)),
            ("compaction_jobs_l0_window"@, decimal(self.compaction_jobs_l0_window as nat)),
            ("compaction_jobs_l1_window"@, decimal(self.compaction_jobs_l1_window as nat)),
            ("compaction_jobs_l2_window"@, decimal(self.compaction_jobs_l2_window as nat)),
            ("flushes_window"@, decimal(self.flushes_window as nat)),
            ("manifest_sync_max_us"@, decimal(self.manifest_sync_max_us as nat)),
            ("errors_window"@, decimal(self.errors_window as nat)),
        ]
    }

    /// The sample as a line of JSON.
    pub fn to_jsonl(&self) -> (r: String)
        ensures
            r@ == "{"@ + fields_text(self.fields(), 52) + "}"@,
    {
        let mut v: Vec<(String, String)> = Vec::new();
        v.push(text_field("kind", "sample"));
        v.push(number_field("elapsed_secs", self.elapsed_secs));
        v.push(number_field("wall_unix_secs", self.wall_unix_secs));
        v.push(number_field("ops_done", self.ops_done));
        v.push(raw_field("ops_per_sec_observed", self.ops_per_sec_observed.as_str()));
        v.push(number_field("rss_bytes", self.rss_bytes));
        v.push(number_field("open_fds", self.open_fds));
        v.push(number_field("immutable_memtable_count", self.immutable_memtable_count));
        v.push(number_field("live_sstable_count", self.live_sstable_count));
        v.push(number_field("wal_segment_count", self.wal_segment_count));
        v.push(number_field("wal_unshipped_bytes", self.wal_unshipped_bytes));
        v.push(number_field("last_durable_seq", self.last_durable_seq));
        v.push(number_field("p50_us", self.p50_us));
        v.push(number_field("p99_us", self.p99_us));
        v.push(number_field("p999_us", self.p999_us));
        v.push(number_field("max_us", self.max_us));
        v.push(number_field("sstables_l0", self.sstables_l0));
        v.push(number_field("sstables_l1", self.sstables_l1));
        v.push(number_field("sstables_l2", self.sstables_l2));
        v.push(number_field("block_cache_hits", self.block_cache_hits));
        v.push(number_field("block_cache_misses", self.block_cache_misses));
        v.push(number_field("block_cache_resident_bytes", self.block_cache_resident_bytes));
        v.push(number_field("compaction_jobs_total", self.compaction_jobs_total));
        v.push(number_field("l2_median_size_bytes", self.l2_median_size_bytes));
        v.push(number_field("l2_max_size_bytes", self.l2_max_size_bytes));
        v.push(number_field("pending_compaction_bytes", self.pending_compaction_bytes));
        v.push(raw_field("compaction_write_amp", self.compaction_write_amp.as_str()));
        v.push(number_field("compaction_repack_total", self.compaction_repack_total));
        v.push(number_field("compaction_rejected_no_progress", self.compaction_rejected_no_progress));
        v.push(number_field("block_cache_hits_window", self.block_cache_hits_window));
        v.push(number_field("block_cache_misses_window", self.block_cache_misses_window));
        v.push(raw_field("block_cache_hit_rate_window", self.block_cache_hit_rate_window.as_str()));
        v.push(number_field("block_cache_compaction_reads_window", self.block_cache_compaction_reads_window));
        v.push(number_field("disk_bytes_total", self.disk_bytes_total));
        v.push(number_field("logical_live_bytes", self.logical_live_bytes));
        v.push(raw_field("space_amplification", self.space_amplification.as_str()));
        v.push(number_field("tombstones_dropped_window", self.tombstones_dropped_window));
        v.push(number_field("versions_dropped_window", self.versions_dropped_window));
        v.push(number_field("result_cache_hits_window", self.result_cache_hits_window));
        v.push(number_field("result_cache_misses_window", self.result_cache_misses_window));
        v.push(raw_field("result_cache_hit_rate_window", self.result_cache_hit_rate_window.as_str()));
        v.push(number_field("poll_max_us", self.poll_max_us));
        v.push(number_field("poll_mean_us", self.poll_mean_us));
        v.push(number_field("apply_count_window", self.apply_count_window));
        v.push(number_field("apply_max_us", self.apply_max_us));
        v.push(number_field("apply_mean_us", self.apply_mean_us));
        v.push(number_field("compaction_jobs_l0_window", self.compaction_jobs_l0_window));
        v.push(number_field("compaction_jobs_l1_window", self.compaction_jobs_l1_window));
        v.push(number_field("compaction_jobs_l2_window", self.compaction_jobs_l2_window));
        v.push(number_field("flushes_window", self.flushes_window));
        v.push(number_field("manifest_sync_max_us", self.manifest_sync_max_us));
        v.push(number_field("errors_window", self.errors_window));
        assert(field_views(v@) =~= self.fields());
        json_object(&v)
    }

    /// Puts what was counted in a window into the sample, with the count, the sum and the
    /// longest of the catalog updates in nanoseconds.
    pub fn set_window(&mut self, w: WindowStats, applies: (u64, u64, u64))
        ensures
            *final(self) == (Sample {
                compaction_jobs_l0_window: w.grown.jobs_l0,
                compaction_jobs_l1_window: w.grown.jobs_l1,
                compaction_jobs_l2_window: w.grown.jobs_l2,
                flushes_window: w.grown.flushes,
                block_cache_hits_window: w.grown.cache_hits,
                block_cache_misses_window: w.grown.cache_misses,
                block_cache_compaction_reads_window: w.grown.compaction_reads,
                tombstones_dropped_window: w.grown.tombstones_dropped,
                versions_dropped_window: w.grown.versions_dropped,
                result_cache_hits_window: w.grown.result_hits,
                result_cache_misses_window: w.grown.result_misses,
                poll_max_us: w.poll_max_us,
                poll_mean_us: w.poll_mean_us,
                errors_window: w.errors,
                apply_count_window: applies.0,
                apply_mean_us: if applies.0 > 0 {
                    applies.1 / applies.0 / 1000
                } else {
                    0
                },
                apply_max_us: applies.2 / 1000,
                ..*old(self)
            }),
    {
        self.compaction_jobs_l0_window = w.grown.jobs_l0;
        self.compaction_jobs_l1_window = w.grown.jobs_l1;
        self.compaction_jobs_l2_window = w.grown.jobs_l2;
        self.flushes_window = w.grown.flushes;
        self.block_cache_hits_window = w.grown.cache_hits;
        self.block_cache_misses_window = w.grown.cache_misses;
        self.block_cache_compaction_reads_window = w.grown.compaction_reads;
        self.tombstones_dropped_window = w.grown.tombstones_dropped;
        self.versions_dropped_window = w.grown.versions_dropped;
        self.result_cache_hits_window = w.grown.result_hits;
        self.result_cache_misses_window = w.grown.result_misses;
        self.poll_max_us = w.poll_max_us;
        self.poll_mean_us = w.poll_mean_us;
        self.errors_window = w.errors;
        self.apply_count_window = applies.0;
        self.apply_mean_us = mean_us(applies.0, applies.1);
        self.apply_max_us = applies.2 / 1000;
    }
}

} // verus!
