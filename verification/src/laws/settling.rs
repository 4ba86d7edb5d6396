//! What flushes and compactions leave behind, and what the workers are handed.

use vstd::prelude::*;
use crate::apply_worker::{record_views, ReadyCatalogApply};
use crate::compaction::{plannable, planned};
use crate::compaction_worker::{
    pack_start, packed_all, tables_of, CompactionExecuteResult, CompactionScheduler, CompactionWork,
};
use crate::engine::compact::{catalog_with_all, input_run, tables_out};
use crate::engine::durability::catalog_with_has;
use crate::engine::jobs::{
    all_empty, is_compaction_apply, next_job, numbered_metas, raised, to_flush,
};
use crate::engine::read::ids_of;
use crate::engine::{catalog_of, in_frozen, in_tables, store_cases, Engine};
use crate::flush_worker::FlushExecuteResult;
use crate::laws::compactions::{everything_in_memory_is_flushed, marks_are_raised};
use crate::laws::jobs::{tables_have_their_numbers, what_is_planned_is_run};
use crate::laws::planner::{overfull, triggered};
use crate::laws::writes::{a_memtable_counts_every_version, counted};
use crate::manifest::{meta_views, MetaView, RecordView};
use crate::records::Version;
use crate::snapshot::{memtable_runs, LiveTable};
use crate::sstable::meta_of;
use crate::store::value_at;

verus! {

/// The version is in memory.
pub open spec fn held_in_memory(e: Engine, v: Version) -> bool {
    e.layers.active@.contains(v) || in_frozen(e.layers, v)
}

/// A forced flush leaves nothing in memory: every version that was there is in a table, and
/// the log is synced up to its number. No version is lost and none is added, and the bytes
/// in flight are zero once anything was written.
pub proof fn a_forced_flush_empties_memory(before: Engine, after: Engine, v: Version)
    requires
        after.flushed_all(&before),
    ensures
        after.layers.active@.len() == 0,
        after.layers.immutables@.len() == 0,
        after.store().contains(v) <==> before.store().contains(v),
        held_in_memory(before, v) ==> {
            &&& in_tables(after.layers.tables@, v)
            &&& after.in_flight_wal_bytes == 0
            &&& after.buffered_seq >= v.0.seq
            &&& after.synced_seq >= v.0.seq
        },
        after.buffered_seq >= before.buffered_seq,
        after.synced_seq >= before.synced_seq,
        after.seq == before.seq,
        after.active_wal_id == before.active_wal_id,
        after.cfg == before.cfg,
        after.pins == before.pins,
{
    let runs = to_flush(before.layers);
    let l = before.layers;
    everything_in_memory_is_flushed(l);
    marks_are_raised(before.buffered_seq, runs);
    marks_are_raised(before.synced_seq, runs);
    store_cases(before.layers, v);
    store_cases(after.layers, v);
    if held_in_memory(before, v) {
        let n = l.immutables@.len() as int;
        let i = if in_frozen(l, v) {
            choose|i: int|
                0 <= i < l.immutables@.len() && (#[trigger] l.immutables@[i])@.contains(v)
        } else {
            n
        };
        assert(runs[i].contains(v));
        let j = choose|j: int| 0 <= j < runs[i].len() && runs[i][j] == v;
        assert(runs[i][j].0.seq <= raised(before.buffered_seq, runs));
        assert(!all_empty(runs));
        assert(!in_frozen(after.layers, v));
    }
}

/// A memtable that is not above its threshold stays; one above it is frozen whole and
/// joins the end of the queue.
pub proof fn a_full_memtable_joins_the_queue(before: Engine, after: Engine)
    requires
        after.settled(&before),
    ensures
        counted(before.layers.active@) <= before.cfg.memtable_flush_threshold ==> after == before,
        counted(before.layers.active@) > before.cfg.memtable_flush_threshold ==> {
            &&& after.layers.active@.len() == 0
            &&& after.layers.immutables@.len() == before.layers.immutables@.len() + 1
            &&& after.layers.immutables@.last()@ == before.layers.active@
            &&& after.layers.tables == before.layers.tables
        },
        after.seq == before.seq,
        after.buffered_seq == before.buffered_seq,
        after.synced_seq == before.synced_seq,
{
    a_memtable_counts_every_version(before.layers.active@);
    let a = memtable_runs(after.layers.immutables@);
    let b = memtable_runs(before.layers.immutables@);
    if counted(before.layers.active@) > before.cfg.memtable_flush_threshold {
        assert(a.len() == b.len() + 1);
        assert(a[b.len() as int] == before.layers.active@);
    }
}

/// An idle worker is handed what is staged for it, and else a job where a level is above
/// its target or level 0 has reached its trigger. A busy worker is handed nothing; what is
/// planned meanwhile is staged where nothing is, or where it is the more urgent.
pub proof fn idle_workers_are_handed_jobs(
    e: Engine,
    s: CompactionScheduler,
    t: CompactionScheduler,
    r: Option<CompactionWork>,
)
    requires
        e.wf(),
        e.submits(s, t, r),
        plannable(e.catalog(), e.cfg.compaction),
        e.cfg.compaction.max_level > 0,
    ensures
        s.worker_busy ==> r is None && t.worker_busy,
        s.worker_busy && planned(e.catalog(), e.cfg.compaction) is None ==> t == s,
        s.worker_busy ==> match planned(e.catalog(), e.cfg.compaction) {
            Some(job) => {
                let better = s.pending is None || job.priority_score.num
                    * s.pending->0.job.priority_score.den > s.pending->0.job.priority_score.num
                    * job.priority_score.den;
                &&& better ==> t.pending is Some && t.pending->0.job@ == job
                &&& !better ==> t == s
            },
            None => t == s,
        },
        r is Some ==> t.worker_busy && !t.compaction_needed && t.pending is None,
        !s.worker_busy && s.pending is Some ==> r == s.pending,
        !s.worker_busy && s.pending is None && triggered(e.catalog(), e.cfg.compaction)
            ==> r is Some,
        forall|n: int|
            !s.worker_busy && s.pending is None && #[trigger] overfull(
                e.catalog(),
                e.cfg.compaction,
                n,
            ) ==> r is Some,
        !s.worker_busy && s.pending is None ==> match r {
            Some(w) => planned(e.catalog(), e.cfg.compaction) == Some(w.job@) && meta_views(
                w.input_metas@,
            ) == e.catalog().filter(|m: MetaView| w.job@.inputs.contains(m.id)),
            None => planned(e.catalog(), e.cfg.compaction) is None && !t.worker_busy,
        },
{
    tables_have_their_numbers(e);
    what_is_planned_is_run(e.catalog(), e.cfg.compaction);
}

/// What a flush publishes agrees with what it records: one table, added to the catalog and
/// to the manifest, and the segments that the manifest drops are those that are unlinked.
pub proof fn flushes_publish_what_they_record(
    e: Engine,
    done: FlushExecuteResult,
    a: ReadyCatalogApply,
)
    requires
        e.is_flush_apply(done, a),
    ensures
        a.add_tables@.len() == 1,
        a.add_tables@[0].meta@ == done.meta@,
        a.add_tables@[0].reader == done.reader,
        a.remove_sstable_ids@.len() == 0,
        a.flush_max_seq == Some(done.max_seq),
        a.compaction is None,
        record_views(a.manifest_records@)[0] == RecordView::SstableAdd(done.meta@),
        a.unlink_wal_up_to is None <==> record_views(a.manifest_records@).len() == 1,
        a.unlink_wal_up_to matches Some(c) ==> c > 0 && record_views(a.manifest_records@).len() == 2
            && record_views(a.manifest_records@)[1] == (RecordView::WalTruncate {
            up_to_segment_id: c,
        }),
{
}

/// What a compaction publishes agrees with what it records: its new tables are added, its
/// inputs are removed, and the log stays.
pub proof fn compactions_publish_what_they_record(
    done: CompactionExecuteResult,
    a: ReadyCatalogApply,
)
    requires
        is_compaction_apply(done, a),
    ensures
        a.add_tables == done.new_tables,
        a.remove_sstable_ids@.len() == done.input_metas@.len(),
        forall|i: int|
            0 <= i < done.input_metas@.len() ==> #[trigger] a.remove_sstable_ids@[i]
                == done.input_metas@[i].id,
        a.unlink_wal_up_to is None,
        a.flush_max_seq is None,
        ({
            let r = record_views(a.manifest_records@);
            let n = a.add_tables@.len() as int;
            &&& r.len() == n + a.remove_sstable_ids@.len()
            &&& forall|i: int|
                0 <= i < n ==> #[trigger] r[i] == RecordView::SstableAdd(a.add_tables@[i].meta@)
            &&& forall|i: int|
                0 <= i < a.remove_sstable_ids@.len() ==> #[trigger] r[n + i]
                    == (RecordView::SstableRemove { id: a.remove_sstable_ids@[i] })
        }),
        a.compaction matches Some(m) && m.job == done.job && m.bytes_read == done.bytes_read
            && m.bytes_written == done.bytes_written && m.versions_dropped == done.versions_dropped
            && m.tombstones_dropped == done.tombstones_dropped,
{
    let inputs = meta_views(done.input_metas@);
    assert forall|i: int| 0 <= i < done.input_metas@.len() implies #[trigger] a.remove_sstable_ids@[i]
        == done.input_metas@[i].id by {
        assert(ids_of(inputs)[i] == inputs[i].id);
    }
}

/// A compaction leaves memory alone, and changes nothing that a reader at or above its
/// watermark gets. Of the tables it takes away its inputs, and adds tables with new numbers
/// at the level it writes to.
pub proof fn a_compaction_replaces_its_inputs(before: Engine, after: Engine, m: MetaView)
    requires
        before.wf(),
        after.compacted_once(&before),
        after.next_sstable_id < u64::MAX,
    ensures
        next_job(before.catalog(), before.cfg.compaction) matches Some((job, inputs)) && {
            &&& before.catalog().contains(m) && !ids_of(inputs).contains(m.id)
                ==> after.catalog().contains(m)
            &&& after.catalog().contains(m) ==> (before.catalog().contains(m) && !ids_of(
                inputs,
            ).contains(m.id)) || (m.level == job.output_level && before.next_sstable_id <= m.id
                < after.next_sstable_id)
        },
        after.layers.active == before.layers.active,
        after.layers.immutables == before.layers.immutables,
        after.seq == before.seq,
        after.synced_seq == before.synced_seq,
        forall|key: Seq<u8>, upper: u64, now_ms: u64|
            upper >= before.pins.watermark(before.synced_seq) ==> #[trigger] value_at(
                after.store(),
                key,
                upper,
                now_ms,
            ) == value_at(before.store(), key, upper, now_ms),
{
    let (job, inputs) = next_job(before.catalog(), before.cfg.compaction)->0;
    let ids = ids_of(inputs);
    let rule = before.job_rule(job.output_level, ids);
    let run = input_run(before.layers.tables@, ids);
    let files = tables_of(
        packed_all(pack_start(), run, rule, before.cfg.compaction.target_file_bytes),
    );
    let made = numbered_metas(files, before.next_sstable_id, job.output_level);
    let kept = catalog_of(tables_out(before.layers.tables@, ids));
    joined_all(kept, made, m);
    kept_tables(before.layers.tables@, ids, m);
    if made.contains(m) {
        let i = choose|i: int| 0 <= i < made.len() && made[i] == m;
        assert(m == meta_of(files[i], (before.next_sstable_id + i) as u64, job.output_level));
    }
}

proof fn joined_all(s: Seq<MetaView>, metas: Seq<MetaView>, m: MetaView)
    ensures
        catalog_with_all(s, metas).contains(m) <==> s.contains(m) || metas.contains(m),
    decreases metas.len(),
{
    if metas.len() > 0 {
        let rest = metas.skip(1);
        joined_all(s, rest, m);
        catalog_with_has(catalog_with_all(s, rest), metas[0], m);
        if metas.contains(m) {
            let i = choose|i: int| 0 <= i < metas.len() && metas[i] == m;
            if i > 0 {
                assert(rest[i - 1] == m);
            }
        }
        if rest.contains(m) {
            let i = choose|i: int| 0 <= i < rest.len() && rest[i] == m;
            assert(metas[i + 1] == m);
        }
    }
}

proof fn kept_tables(s: Seq<LiveTable>, ids: Seq<u64>, m: MetaView)
    ensures
        catalog_of(tables_out(s, ids)).contains(m) <==> catalog_of(s).contains(m) && !ids.contains(
            m.id,
        ),
    decreases s.len(),
{
    if s.len() > 0 {
        let init = s.drop_last();
        kept_tables(init, ids, m);
        let last = s.last().meta@;
        assert(catalog_of(s) =~= catalog_of(init).push(last));
        joined_last(catalog_of(init), last, m);
        if !ids.contains(s.last().meta.id) {
            assert(catalog_of(tables_out(s, ids)) =~= catalog_of(tables_out(init, ids)).push(last));
            joined_last(catalog_of(tables_out(init, ids)), last, m);
        }
    }
}

proof fn joined_last(s: Seq<MetaView>, x: MetaView, m: MetaView)
    ensures
        s.push(x).contains(m) <==> s.contains(m) || m == x,
{
    if s.contains(m) {
        let i = choose|i: int| 0 <= i < s.len() && s[i] == m;
        assert(s.push(x)[i] == m);
    }
    if m == x {
        assert(s.push(x)[s.len() as int] == m);
    }
}

/// A stopped engine has nothing in memory, and has synced all that it buffered. Where there
/// was nothing in memory, its tables are those it had.
pub proof fn a_stopped_engine_has_all_on_disk(before: Engine, after: Engine)
    requires
        after.shut_down_from(&before),
    ensures
        after.layers.active@.len() == 0,
        after.layers.immutables@.len() == 0,
        after.synced_seq == after.buffered_seq,
        before.layers.active@.len() == 0 && before.layers.immutables@.len() == 0 ==> {
            &&& after.store() == before.store()
            &&& after.catalog() == before.catalog()
            &&& after.seq == before.seq
        },
{
}

/// Settling is refused exactly where the manifest can no longer be written and there is
/// something to write: versions in memory, or a compaction that is due.
pub proof fn settling_is_refused_where_nothing_can_be_written(e: Engine)
    requires
        e.wf(),
        e.compactable(),
        e.cfg.compaction.max_level > 0,
        !e.compaction_scheduler.worker_busy,
    ensures
        !e.apply_scheduler.shut_down ==> !e.refuses_to_settle(),
        e.apply_scheduler.shut_down && (e.layers.active@.len() > 0 || e.layers.immutables@.len() > 0)
            ==> e.refuses_to_settle(),
        e.apply_scheduler.shut_down && triggered(e.catalog(), e.cfg.compaction)
            ==> e.refuses_to_settle(),
        forall|n: int|
            e.apply_scheduler.shut_down && #[trigger] overfull(e.catalog(), e.cfg.compaction, n)
                ==> e.refuses_to_settle(),
        e.layers.active@.len() == 0 && e.layers.immutables@.len() == 0 && planned(
            e.catalog(),
            e.cfg.compaction,
        ) is None ==> !e.refuses_to_settle(),
{
    tables_have_their_numbers(e);
    what_is_planned_is_run(e.catalog(), e.cfg.compaction);
}

} // verus!
