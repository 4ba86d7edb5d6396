//! The metrics that an engine shows: their names, what they tell, and their kinds.

use vstd::prelude::*;

verus! {

/// What the names of all metrics begin with.
pub const METRIC_PREFIX: &'static str = "zydecodb_";

/// The kinds of metrics.
#[derive(Debug, Clone, Copy, PartialEq, Eq, Structural)]
pub enum MetricKind {
    /// A count that only grows.
    Counter,
    /// A whole number that goes up and down.
    Gauge,
    /// A number with a fraction that goes up and down.
    RealGauge,
    /// The spread of a duration.
    Histogram,
}

/// A metric. Its name is written after the common prefix. One that is kept for each
/// value of a label names the label; for another the label is empty.
#[derive(Debug, Clone, Copy)]
pub struct MetricSpec {
    pub name: &'static str,
    pub help: &'static str,
    pub kind: MetricKind,
    pub label: &'static str,
}

/// A metric as plain values.
pub type MetricRow = (Seq<char>, Seq<char>, MetricKind, Seq<char>);

pub open spec fn metric_row(m: MetricSpec) -> MetricRow {
    (m.name@, m.help@, m.kind, m.label@)
}

pub open spec fn metric_rows(v: Seq<MetricSpec>) -> Seq<MetricRow> {
    Seq::new(v.len(), |i: int| metric_row(v[i]))
}

fn list_metric(
    v: &mut Vec<MetricSpec>,
    name: &'static str,
    help: &'static str,
    kind: MetricKind,
    label: &'static str,
)
    ensures
        metric_rows(final(v)@) == metric_rows(old(v)@).push((name@, help@, kind, label@)),
{
    let ghost before = v@;
    v.push(MetricSpec { name, help, kind, label });
    assert(metric_rows(v@) =~= metric_rows(before).push((name@, help@, kind, label@)));
}

/// The metrics of the log.
pub open spec fn log_metrics() -> Seq<MetricRow> {
    seq![
        (
            "wal_bytes_written_total"@,
            "Total bytes written to the WAL"@,
            MetricKind::Counter,
            ""@,
        ),
        (
            "wal_group_commit_syncs_total"@,
            "Fsyncs issued by the group-commit coordinator (writes per fsync = coalescing)"@,
            MetricKind::Counter,
            ""@,
        ),
        (
            "wal_fsync_duration_seconds"@,
            "WAL fsync duration"@,
            MetricKind::Histogram,
            ""@,
        ),
        (
            "wal_segment_count"@,
            "WAL segment files on disk"@,
            MetricKind::Gauge,
            ""@,
        ),
        (
            "wal_unshipped_bytes"@,
            "Bytes in the active WAL segment not yet shipped off-box (RPO surface)"@,
            MetricKind::Gauge,
            ""@,
        ),
    ]
}

fn list_log_metrics(v: &mut Vec<MetricSpec>)
    ensures
        metric_rows(final(v)@) == metric_rows(old(v)@) + log_metrics(),
{
    let ghost before = metric_rows(v@);
    list_metric(
        v,
        "wal_bytes_written_total",
        "Total bytes written to the WAL",
        MetricKind::Counter,
        "",
    );
    list_metric(
        v,
        "wal_group_commit_syncs_total",
        "Fsyncs issued by the group-commit coordinator (writes per fsync = coalescing)",
        MetricKind::Counter,
        "",
    );
    list_metric(
        v,
        "wal_fsync_duration_seconds",
        "WAL fsync duration",
        MetricKind::Histogram,
        "",
    );
    list_metric(
        v,
        "wal_segment_count",
        "WAL segment files on disk",
        MetricKind::Gauge,
        "",
    );
    list_metric(
        v,
        "wal_unshipped_bytes",
        "Bytes in the active WAL segment not yet shipped off-box (RPO surface)",
        MetricKind::Gauge,
        "",
    );
    assert(metric_rows(v@) =~= before + log_metrics());
}

/// The metrics of memtables and tables.
pub open spec fn table_metrics() -> Seq<MetricRow> {
    seq![
        (
            "sstable_flushes_total"@,
            "Number of memtable->SSTable flushes"@,
            MetricKind::Counter,
            ""@,
        ),
        (
            "sstable_get_duration_seconds"@,
            "SSTable GET duration"@,
            MetricKind::Histogram,
            ""@,
        ),
        (
            "bloom_false_positives_total"@,
            "Bloom filter false positives"@,
            MetricKind::Counter,
            ""@,
        ),
        (
            "memtable_size_bytes"@,
            "Active memtable size in bytes"@,
            MetricKind::Gauge,
            ""@,
        ),
        (
            "immutable_memtable_count"@,
            "Immutable memtables awaiting flush"@,
            MetricKind::Gauge,
            ""@,
        ),
        (
            "live_sstable_count"@,
            "Live SSTable files"@,
            MetricKind::Gauge,
            ""@,
        ),
        (
            "live_sstables_by_level"@,
            "Live SSTable count per LSM level"@,
            MetricKind::Gauge,
            "level"@,
        ),
    ]
}

fn list_table_metrics(v: &mut Vec<MetricSpec>)
    ensures
        metric_rows(final(v)@) == metric_rows(old(v)@) + table_metrics(),
{
    let ghost before = metric_rows(v@);
    list_metric(
        v,
        "sstable_flushes_total",
        "Number of memtable->SSTable flushes",
        MetricKind::Counter,
        "",
    );
    list_metric(
        v,
        "sstable_get_duration_seconds",
        "SSTable GET duration",
        MetricKind::Histogram,
        "",
    );
    list_metric(
        v,
        "bloom_false_positives_total",
        "Bloom filter false positives",
        MetricKind::Counter,
        "",
    );
    list_metric(
        v,
        "memtable_size_bytes",
        "Active memtable size in bytes",
        MetricKind::Gauge,
        "",
    );
    list_metric(
        v,
        "immutable_memtable_count",
        "Immutable memtables awaiting flush",
        MetricKind::Gauge,
        "",
    );
    list_metric(
        v,
        "live_sstable_count",
        "Live SSTable files",
        MetricKind::Gauge,
        "",
    );
    list_metric(
        v,
        "live_sstables_by_level",
        "Live SSTable count per LSM level",
        MetricKind::Gauge,
        "level",
    );
    assert(metric_rows(v@) =~= before + table_metrics());
}

/// The metrics of compaction, the manifest and user writes.
pub open spec fn compaction_metrics() -> Seq<MetricRow> {
    seq![
        (
            "compaction_jobs_total"@,
            "Compaction jobs executed"@,
            MetricKind::Counter,
            ""@,
        ),
        (
            "compaction_bytes_read_total"@,
            "Total input bytes read by compaction (sum of input SSTable sizes)"@,
            MetricKind::Counter,
            ""@,
        ),
        (
            "compaction_bytes_written_total"@,
            "Total output bytes written by compaction (sum of output SSTable sizes)"@,
            MetricKind::Counter,
            ""@,
        ),
        (
            "compaction_duration_seconds"@,
            "Wall-clock duration of a single compaction job"@,
            MetricKind::Histogram,
            ""@,
        ),
        (
            "compaction_queue_depth"@,
            "Pending compaction work (worker busy + signaled need)"@,
            MetricKind::Gauge,
            ""@,
        ),
        (
            "compaction_worker_busy"@,
            "1 while the background compaction worker is executing a job"@,
            MetricKind::Gauge,
            ""@,
        ),
        (
            "compaction_versions_dropped_total"@,
            "Superseded versions dropped during compaction GC"@,
            MetricKind::Counter,
            ""@,
        ),
        (
            "compaction_tombstones_dropped_total"@,
            "Tombstones dropped during compaction GC"@,
            MetricKind::Counter,
            ""@,
        ),
        (
            "compaction_repack_total"@,
            "Deprecated; whole-level repack removed (always 0)"@,
            MetricKind::Counter,
            ""@,
        ),
        (
            "compaction_rejected_no_progress_total"@,
            "Same-level compaction jobs rejected because they cannot reduce file count"@,
            MetricKind::Counter,
            ""@,
        ),
        (
            "compaction_jobs_by_input_level_total"@,
            "Compaction jobs applied by primary input level"@,
            MetricKind::Counter,
            "input_level"@,
        ),
        (
            "compaction_apply_duration_seconds"@,
            "Wall-clock duration of compaction catalog/manifest apply on engine thread"@,
            MetricKind::Histogram,
            ""@,
        ),
        (
            "manifest_syncs_total"@,
            "Manifest fsyncs (group-committed; may cover multiple catalog appends)"@,
            MetricKind::Counter,
            ""@,
        ),
        (
            "manifest_sync_duration_seconds"@,
            "Manifest fsync duration"@,
            MetricKind::Histogram,
            ""@,
        ),
        (
            "pending_compaction_bytes"@,
            "Estimated bytes waiting to be compacted"@,
            MetricKind::Gauge,
            ""@,
        ),
        (
            "user_bytes_written_total"@,
            "User value bytes written via PUT"@,
            MetricKind::Counter,
            ""@,
        ),
    ]
}

fn list_compaction_metrics(v: &mut Vec<MetricSpec>)
    ensures
        metric_rows(final(v)@) == metric_rows(old(v)@) + compaction_metrics(),
{
    let ghost before = metric_rows(v@);
    list_metric(
        v,
        "compaction_jobs_total",
        "Compaction jobs executed",
        MetricKind::Counter,
        "",
    );
    list_metric(
        v,
        "compaction_bytes_read_total",
        "Total input bytes read by compaction (sum of input SSTable sizes)",
        MetricKind::Counter,
        "",
    );
    list_metric(
        v,
        "compaction_bytes_written_total",
        "Total output bytes written by compaction (sum of output SSTable sizes)",
        MetricKind::Counter,
        "",
    );
    list_metric(
        v,
        "compaction_duration_seconds",
        "Wall-clock duration of a single compaction job",
        MetricKind::Histogram,
        "",
    );
    list_metric(
        v,
        "compaction_queue_depth",
        "Pending compaction work (worker busy + signaled need)",
        MetricKind::Gauge,
        "",
    );
    list_metric(
        v,
        "compaction_worker_busy",
        "1 while the background compaction worker is executing a job",
        MetricKind::Gauge,
        "",
    );
    list_metric(
        v,
        "compaction_versions_dropped_total",
        "Superseded versions dropped during compaction GC",
        MetricKind::Counter,
        "",
    );
    list_metric(
        v,
        "compaction_tombstones_dropped_total",
        "Tombstones dropped during compaction GC",
        MetricKind::Counter,
        "",
    );
    list_metric(
        v,
        "compaction_repack_total",
        "Deprecated; whole-level repack removed (always 0)",
        MetricKind::Counter,
        "",
    );
    list_metric(
        v,
        "compaction_rejected_no_progress_total",
        "Same-level compaction jobs rejected because they cannot reduce file count",
        MetricKind::Counter,
        "",
    );
    list_metric(
        v,
        "compaction_jobs_by_input_level_total",
        "Compaction jobs applied by primary input level",
        MetricKind::Counter,
        "input_level",
    );
    list_metric(
        v,
        "compaction_apply_duration_seconds",
        "Wall-clock duration of compaction catalog/manifest apply on engine thread",
        MetricKind::Histogram,
        "",
    );
    list_metric(
        v,
        "manifest_syncs_total",
        "Manifest fsyncs (group-committed; may cover multiple catalog appends)",
        MetricKind::Counter,
        "",
    );
    list_metric(
        v,
        "manifest_sync_duration_seconds",
        "Manifest fsync duration",
        MetricKind::Histogram,
        "",
    );
    list_metric(
        v,
        "pending_compaction_bytes",
        "Estimated bytes waiting to be compacted",
        MetricKind::Gauge,
        "",
    );
    list_metric(
        v,
        "user_bytes_written_total",
        "User value bytes written via PUT",
        MetricKind::Counter,
        "",
    );
    assert(metric_rows(v@) =~= before + compaction_metrics());
}

/// The metrics of the caches.
pub open spec fn cache_metrics() -> Seq<MetricRow> {
    seq![
        (
            "block_cache_hits_total"@,
            "SSTable block-cache hits"@,
            MetricKind::Counter,
            ""@,
        ),
        (
            "block_cache_misses_total"@,
            "SSTable block-cache misses (forced a disk read)"@,
            MetricKind::Counter,
            ""@,
        ),
        (
            "block_cache_compaction_reads_total"@,
            "Compaction block reads that bypass the user cache"@,
            MetricKind::Counter,
            ""@,
        ),
        (
            "block_cache_evictions_total"@,
            "SSTable block-cache evictions due to capacity pressure"@,
            MetricKind::Counter,
            ""@,
        ),
        (
            "block_cache_resident_bytes"@,
            "Bytes currently resident in the SSTable block cache"@,
            MetricKind::Gauge,
            ""@,
        ),
        (
            "block_cache_resident_entries"@,
            "Block entries currently resident in the SSTable block cache"@,
            MetricKind::Gauge,
            ""@,
        ),
        (
            "result_cache_hits_total"@,
            "Point-lookup result cache hits"@,
            MetricKind::Counter,
            ""@,
        ),
        (
            "result_cache_misses_total"@,
            "Point-lookup result cache misses"@,
            MetricKind::Counter,
            ""@,
        ),
        (
            "result_cache_evictions_total"@,
            "Point-lookup result cache evictions"@,
            MetricKind::Counter,
            ""@,
        ),
        (
            "result_cache_resident_bytes"@,
            "Bytes resident in the point-lookup result cache"@,
            MetricKind::Gauge,
            ""@,
        ),
    ]
}

fn list_cache_metrics(v: &mut Vec<MetricSpec>)
    ensures
        metric_rows(final(v)@) == metric_rows(old(v)@) + cache_metrics(),
{
    let ghost before = metric_rows(v@);
    list_metric(
        v,
        "block_cache_hits_total",
        "SSTable block-cache hits",
        MetricKind::Counter,
        "",
    );
    list_metric(
        v,
        "block_cache_misses_total",
        "SSTable block-cache misses (forced a disk read)",
        MetricKind::Counter,
        "",
    );
    list_metric(
        v,
        "block_cache_compaction_reads_total",
        "Compaction block reads that bypass the user cache",
        MetricKind::Counter,
        "",
    );
    list_metric(
        v,
        "block_cache_evictions_total",
        "SSTable block-cache evictions due to capacity pressure",
        MetricKind::Counter,
        "",
    );
    list_metric(
        v,
        "block_cache_resident_bytes",
        "Bytes currently resident in the SSTable block cache",
        MetricKind::Gauge,
        "",
    );
    list_metric(
        v,
        "block_cache_resident_entries",
        "Block entries currently resident in the SSTable block cache",
        MetricKind::Gauge,
        "",
    );
    list_metric(
        v,
        "result_cache_hits_total",
        "Point-lookup result cache hits",
        MetricKind::Counter,
        "",
    );
    list_metric(
        v,
        "result_cache_misses_total",
        "Point-lookup result cache misses",
        MetricKind::Counter,
        "",
    );
    list_metric(
        v,
        "result_cache_evictions_total",
        "Point-lookup result cache evictions",
        MetricKind::Counter,
        "",
    );
    list_metric(
        v,
        "result_cache_resident_bytes",
        "Bytes resident in the point-lookup result cache",
        MetricKind::Gauge,
        "",
    );
    assert(metric_rows(v@) =~= before + cache_metrics());
}

/// The metrics of space and the state of the engine.
pub open spec fn state_metrics() -> Seq<MetricRow> {
    seq![
        (
            "disk_bytes_total"@,
            "Live SSTable bytes on disk"@,
            MetricKind::Gauge,
            ""@,
        ),
        (
            "logical_live_bytes"@,
            "Logical live user-key bytes"@,
            MetricKind::Gauge,
            ""@,
        ),
        (
            "space_amplification"@,
            "Physical disk bytes / logical live bytes"@,
            MetricKind::RealGauge,
            ""@,
        ),
        (
            "last_durable_seq"@,
            "Last durable sequence number"@,
            MetricKind::Gauge,
            ""@,
        ),
        (
            "last_shutdown_clean"@,
            "1 if last boot followed a clean shutdown (no WAL replay), else 0"@,
            MetricKind::Gauge,
            ""@,
        ),
        (
            "errors_total"@,
            "Errors by status code"@,
            MetricKind::Counter,
            "code"@,
        ),
    ]
}

fn list_state_metrics(v: &mut Vec<MetricSpec>)
    ensures
        metric_rows(final(v)@) == metric_rows(old(v)@) + state_metrics(),
{
    let ghost before = metric_rows(v@);
    list_metric(
        v,
        "disk_bytes_total",
        "Live SSTable bytes on disk",
        MetricKind::Gauge,
        "",
    );
    list_metric(
        v,
        "logical_live_bytes",
        "Logical live user-key bytes",
        MetricKind::Gauge,
        "",
    );
    list_metric(
        v,
        "space_amplification",
        "Physical disk bytes / logical live bytes",
        MetricKind::RealGauge,
        "",
    );
    list_metric(
        v,
        "last_durable_seq",
        "Last durable sequence number",
        MetricKind::Gauge,
        "",
    );
    list_metric(
        v,
        "last_shutdown_clean",
        "1 if last boot followed a clean shutdown (no WAL replay), else 0",
        MetricKind::Gauge,
        "",
    );
    list_metric(
        v,
        "errors_total",
        "Errors by status code",
        MetricKind::Counter,
        "code",
    );
    assert(metric_rows(v@) =~= before + state_metrics());
}

/// All metrics, in the order in which they are registered.
pub open spec fn all_metrics() -> Seq<MetricRow> {
    log_metrics() + table_metrics() + compaction_metrics() + cache_metrics() + state_metrics()
}

/// Lists all metrics, in the order in which they are registered.
pub fn metric_table() -> (v: Vec<MetricSpec>)
    ensures
        metric_rows(v@) == all_metrics(),
{
    let mut v: Vec<MetricSpec> = Vec::new();
    assert(metric_rows(v@) =~= Seq::<MetricRow>::empty());
    list_log_metrics(&mut v);
    list_table_metrics(&mut v);
    list_compaction_metrics(&mut v);
    list_cache_metrics(&mut v);
    list_state_metrics(&mut v);
    assert(metric_rows(v@) =~= all_metrics());
    v
}

} // verus!
