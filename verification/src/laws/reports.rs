//! What the programs around the library say: errors and samples.

use vstd::prelude::*;
use crate::errors::EngineError;
use crate::harness::load::{begins, growths, rss_in, Totals};
use crate::harness::report::escaped;
use crate::harness::sample::Sample;
use crate::text::{decimal, number, words};

verus! {

/// An error is told by its kind and, where it has one, its message.
pub proof fn errors_are_told_by_kind_and_message(e: EngineError)
    ensures
        match e {
            EngineError::NotFound => e.sentence() == "not found"@,
            EngineError::InvalidKey(m) => e.sentence() == "invalid key: "@ + m@,
            EngineError::InvalidValue(m) => e.sentence() == "invalid value: "@ + m@,
            EngineError::EngineBusy(m) => e.sentence() == "engine busy: "@ + m@,
            EngineError::Protocol(m) => e.sentence() == "protocol error: "@ + m@,
            EngineError::Conflict => e.sentence() == "conflict"@,
            EngineError::Io(m) => e.sentence() == "io error: "@ + m@,
            EngineError::PolicyRejected(m) => e.sentence() == "policy rejected: "@ + m@,
            EngineError::UnsupportedFormat(m) => e.sentence() == "unsupported on-disk format: "@
                + m@,
            EngineError::Unauthorized(m) => e.sentence() == "unauthorized: "@ + m@,
            EngineError::Forbidden(m) => e.sentence() == "forbidden: "@ + m@,
            EngineError::Locked(m) => e.sentence() == "data_dir locked: "@ + m@,
            EngineError::Other(m) => e.sentence() == m@,
        },
{
}

/// Every counter of a window has grown by what was added to it since.
pub proof fn windows_count_what_was_added(now: Totals, before: Totals)
    ensures
        ({
            let g = growths(now, before);
            &&& now.jobs_l0 >= before.jobs_l0 ==> before.jobs_l0 + g.jobs_l0 == now.jobs_l0
            &&& now.jobs_l1 >= before.jobs_l1 ==> before.jobs_l1 + g.jobs_l1 == now.jobs_l1
            &&& now.jobs_l2 >= before.jobs_l2 ==> before.jobs_l2 + g.jobs_l2 == now.jobs_l2
            &&& now.flushes >= before.flushes ==> before.flushes + g.flushes == now.flushes
            &&& now.cache_hits >= before.cache_hits ==> before.cache_hits + g.cache_hits
                == now.cache_hits
            &&& now.cache_misses >= before.cache_misses ==> before.cache_misses + g.cache_misses
                == now.cache_misses
            &&& now.compaction_reads >= before.compaction_reads ==> before.compaction_reads
                + g.compaction_reads == now.compaction_reads
            &&& now.tombstones_dropped >= before.tombstones_dropped ==> before.tombstones_dropped
                + g.tombstones_dropped == now.tombstones_dropped
            &&& now.versions_dropped >= before.versions_dropped ==> before.versions_dropped
                + g.versions_dropped == now.versions_dropped
            &&& now.result_hits >= before.result_hits ==> before.result_hits + g.result_hits
                == now.result_hits
            &&& now.result_misses >= before.result_misses ==> before.result_misses
                + g.result_misses == now.result_misses
        }),
{
}

/// The line tells of the resident set.
pub open spec fn tells_of_memory(s: Seq<Seq<char>>, k: int) -> bool {
    begins(s[k], "VmRSS:"@)
}

/// The resident set is told by the first line of its name: the number there, in units of
/// 1024 bytes.
pub proof fn memory_is_told_by_the_first_such_line(s: Seq<Seq<char>>, i: int)
    requires
        0 <= i <= s.len(),
    ensures
        (forall|k: int| i <= k < s.len() ==> !#[trigger] tells_of_memory(s, k)) ==> rss_in(s, i)
            is None,
        rss_in(s, i) matches Some(b) ==> exists|k: int|
            {
                &&& i <= k < s.len()
                &&& #[trigger] tells_of_memory(s, k)
                &&& forall|j: int| i <= j < k ==> !#[trigger] tells_of_memory(s, j)
                &&& words(s[k].skip("VmRSS:"@.len() as int)).len() > 0
                &&& number(words(s[k].skip("VmRSS:"@.len() as int))[0]) is Some
                &&& b == 1024 * number(words(s[k].skip("VmRSS:"@.len() as int))[0])->0
            },
    decreases s.len() - i,
{
    if i < s.len() {
        if tells_of_memory(s, i) {
            assert(begins(s[i], "VmRSS:"@));
        } else {
            memory_is_told_by_the_first_such_line(s, i + 1);
            assert(rss_in(s, i) == rss_in(s, i + 1));
        }
    }
}

/// Each figure of a sample stands under its name, in its place.
pub proof fn samples_name_their_figures(s: Sample)
    ensures
        s.fields().len() == 52,
        s.fields()[0] == ("kind"@, "\""@ + escaped("sample"@) + "\""@),
        s.fields()[1] == ("elapsed_secs"@, decimal(s.elapsed_secs as nat)),
        s.fields()[2] == ("wall_unix_secs"@, decimal(s.wall_unix_secs as nat)),
        s.fields()[3] == ("ops_done"@, decimal(s.ops_done as nat)),
        s.fields()[4] == ("ops_per_sec_observed"@, s.ops_per_sec_observed@),
        s.fields()[5] == ("rss_bytes"@, decimal(s.rss_bytes as nat)),
        s.fields()[6] == ("open_fds"@, decimal(s.open_fds as nat)),
        s.fields()[7] == ("immutable_memtable_count"@, decimal(s.immutable_memtable_count as nat)),
        s.fields()[8] == ("live_sstable_count"@, decimal(s.live_sstable_count as nat)),
        s.fields()[9] == ("wal_segment_count"@, decimal(s.wal_segment_count as nat)),
        s.fields()[10] == ("wal_unshipped_bytes"@, decimal(s.wal_unshipped_bytes as nat)),
        s.fields()[11] == ("last_durable_seq"@, decimal(s.last_durable_seq as nat)),
        s.fields()[12] == ("p50_us"@, decimal(s.p50_us as nat)),
        s.fields()[13] == ("p99_us"@, decimal(s.p99_us as nat)),
        s.fields()[14] == ("p999_us"@, decimal(s.p999_us as nat)),
        s.fields()[15] == ("max_us"@, decimal(s.max_us as nat)),
        s.fields()[16] == ("sstables_l0"@, decimal(s.sstables_l0 as nat)),
        s.fields()[17] == ("sstables_l1"@, decimal(s.sstables_l1 as nat)),
        s.fields()[18] == ("sstables_l2"@, decimal(s.sstables_l2 as nat)),
        s.fields()[19] == ("block_cache_hits"@, decimal(s.block_cache_hits as nat)),
        s.fields()[20] == ("block_cache_misses"@, decimal(s.block_cache_misses as nat)),
        s.fields()[21] == ("block_cache_resident_bytes"@, decimal(s.block_cache_resident_bytes as nat)),
        s.fields()[22] == ("compaction_jobs_total"@, decimal(s.compaction_jobs_total as nat)),
        s.fields()[23] == ("l2_median_size_bytes"@, decimal(s.l2_median_size_bytes as nat)),
        s.fields()[24] == ("l2_max_size_bytes"@, decimal(s.l2_max_size_bytes as nat)),
        s.fields()[25] == ("pending_compaction_bytes"@, decimal(s.pending_compaction_bytes as nat)),
        s.fields()[26] == ("compaction_write_amp"@, s.compaction_write_amp@),
        s.fields()[27] == ("compaction_repack_total"@, decimal(s.compaction_repack_total as nat)),
        s.fields()[28] == (
            "compaction_rejected_no_progress"@,
            decimal(s.compaction_rejected_no_progress as nat),
        ),
        s.fields()[29] == ("block_cache_hits_window"@, decimal(s.block_cache_hits_window as nat)),
        s.fields()[30] == ("block_cache_misses_window"@, decimal(s.block_cache_misses_window as nat)),
        s.fields()[31] == ("block_cache_hit_rate_window"@, s.block_cache_hit_rate_window@),
        s.fields()[32] == (
            "block_cache_compaction_reads_window"@,
            decimal(s.block_cache_compaction_reads_window as nat),
        ),
        s.fields()[33] == ("disk_bytes_total"@, decimal(s.disk_bytes_total as nat)),
        s.fields()[34] == ("logical_live_bytes"@, decimal(s.logical_live_bytes as nat)),
        s.fields()[35] == ("space_amplification"@, s.space_amplification@),
        s.fields()[36] == ("tombstones_dropped_window"@, decimal(s.tombstones_dropped_window as nat)),
        s.fields()[37] == ("versions_dropped_window"@, decimal(s.versions_dropped_window as nat)),
        s.fields()[38] == ("result_cache_hits_window"@, decimal(s.result_cache_hits_window as nat)),
        s.fields()[39] == ("result_cache_misses_window"@, decimal(s.result_cache_misses_window as nat)),
        s.fields()[40] == ("result_cache_hit_rate_window"@, s.result_cache_hit_rate_window@),
        s.fields()[41] == ("poll_max_us"@, decimal(s.poll_max_us as nat)),
        s.fields()[42] == ("poll_mean_us"@, decimal(s.poll_mean_us as nat)),
        s.fields()[43] == ("apply_count_window"@, decimal(s.apply_count_window as nat)),
        s.fields()[44] == ("apply_max_us"@, decimal(s.apply_max_us as nat)),
        s.fields()[45] == ("apply_mean_us"@, decimal(s.apply_mean_us as nat)),
        s.fields()[46] == ("compaction_jobs_l0_window"@, decimal(s.compaction_jobs_l0_window as nat)),
        s.fields()[47] == ("compaction_jobs_l1_window"@, decimal(s.compaction_jobs_l1_window as nat)),
        s.fields()[48] == ("compaction_jobs_l2_window"@, decimal(s.compaction_jobs_l2_window as nat)),
        s.fields()[49] == ("flushes_window"@, decimal(s.flushes_window as nat)),
        s.fields()[50] == ("manifest_sync_max_us"@, decimal(s.manifest_sync_max_us as nat)),
        s.fields()[51] == ("errors_window"@, decimal(s.errors_window as nat)),
{
}

} // verus!
