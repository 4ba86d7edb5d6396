//! Background work: which compaction comes next, what it runs on, and how its
//! result and that of a flush become part of the catalog.

use vstd::prelude::*;
use crate::apply_worker::{
    record_views, ApplyScheduler, CompactionApplyMetrics, ReadyCatalogApply,
};
use crate::compaction::{
    catalog_bytes, contains_id, jobs_have_inputs, metas_overlap, plannable, planned,
    same_level_compaction_would_make_progress, CompactionConfig, CompactionJob, CompactionPlanner,
    JobView,
};
use crate::compaction_worker::{
    compacted, execute_compaction, output_holds_survivors, pack_start, packed_all, run_views,
    tables_match, tables_of, CompactionExecuteResult, CompactionScheduler, CompactionWork, DropRule,
    NewTable,
};
use crate::engine::compact::{
    input_run, input_run_facts, next_id_after, nothing_older_makes_drops_safe,
    nothing_older_outside, rest_of, split_facts, tables_cohere, tables_in, tables_out,
};
use crate::engine::compact::{catalog_with_all, new_metas, same_reads};
use crate::engine::maintain::{catalog_with, drops_empty_front, flushed_from};
use crate::engine::read::ids_of;
use crate::engine::settle::in_memtables;
use crate::engine::{catalog_of, in_tables, Engine};
use crate::entry::Entry;
use crate::errors::{EngineError, EngineResult};
use crate::flush_worker::{FlushExecuteResult, FlushScheduler};
use crate::iter::{merge_keeps_every_version, total_len, ScanDirection};
use crate::keys::InternalKey;
use crate::manifest::{larger, meta_views, ManifestRecord, MetaView, RecordView, SstableMeta};
use crate::records::{sorted, versions, visible, Version};
use crate::store::value_at;
use crate::text::{chars_of, contains_part, has_part, text_of};
use crate::snapshot::{memtable_runs, table_runs, LiveTable};
use crate::sorted_map::count_of;
use crate::sstable::{copy_pairs, top_seq};

verus! {

/// The entries of a catalog with the given numbers.
pub open spec fn inputs_of(s: Seq<MetaView>, ids: Seq<u64>) -> Seq<MetaView>
    decreases s.len(),
{
    if s.len() == 0 {
        s
    } else if ids.contains(s.last().id) {
        inputs_of(s.drop_last(), ids).push(s.last())
    } else {
        inputs_of(s.drop_last(), ids)
    }
}

/// Merging tables of one level could make fewer or smaller ones.
pub open spec fn makes_progress(s: Seq<MetaView>, target: u64) -> bool {
    s.len() >= 2 && {
        ||| exists|i: int| 0 <= i < s.len() && (#[trigger] s[i]).size_bytes < target / 2
        ||| exists|i: int, j: int|
            0 <= i < j < s.len() && metas_overlap(#[trigger] s[i], #[trigger] s[j])
    }
}

/// The next compaction of a catalog, with the entries of its inputs: the planned one,
/// where all its inputs are there and a merge within a level above the deepest one is
/// not in vain.
pub open spec fn next_job(s: Seq<MetaView>, cfg: CompactionConfig) -> Option<
    (JobView, Seq<MetaView>),
> {
    match planned(s, cfg) {
        Some(job) => {
            let m = inputs_of(s, job.inputs);
            if m.len() != job.inputs.len() || (job.input_level == job.output_level
                && job.input_level != cfg.max_level && !makes_progress(m, cfg.target_file_bytes)) {
                None
            } else {
                Some((job, m))
            }
        },
        None => None,
    }
}

/// The numbers of a list of entries.
pub fn meta_ids(metas: &Vec<SstableMeta>) -> (v: Vec<u64>)
    ensures
        v@ == ids_of(meta_views(metas@)),
{
    let mut v: Vec<u64> = Vec::new();
    let mut i: usize = 0;
    while i < metas.len()
        invariant
            i <= metas@.len(),
            v@.len() == i,
            forall|j: int| 0 <= j < i ==> #[trigger] v@[j] == metas@[j].id,
        decreases metas.len() - i,
    {
        v.push(metas[i].id);
        i = i + 1;
    }
    assert(v@ =~= ids_of(meta_views(metas@)));
    v
}

/// The entries with the given numbers.
fn select_metas(metas: &Vec<SstableMeta>, ids: &Vec<u64>) -> (v: Vec<SstableMeta>)
    ensures
        meta_views(v@) == inputs_of(meta_views(metas@), ids@),
{
    let ghost s = meta_views(metas@);
    let mut v: Vec<SstableMeta> = Vec::new();
    let mut i: usize = 0;
    assert(s.take(0) =~= Seq::<MetaView>::empty());
    assert(meta_views(v@) =~= Seq::<MetaView>::empty());
    while i < metas.len()
        invariant
            i <= metas@.len(),
            s == meta_views(metas@),
            meta_views(v@) == inputs_of(s.take(i as int), ids@),
        decreases metas.len() - i,
    {
        proof {
            assert(s.take(i + 1).drop_last() =~= s.take(i as int));
            assert(s.take(i + 1).last() == metas@[i as int]@);
        }
        if contains_id(ids, metas[i].id) {
            let ghost was = v@;
            v.push(metas[i].clone());
            assert(meta_views(v@) =~= meta_views(was).push(metas@[i as int]@));
        }
        i = i + 1;
    }
    assert(s.take(s.len() as int) =~= s);
    v
}

pub(crate) proof fn selected_len(s: Seq<LiveTable>, ids: Seq<u64>)
    ensures
        total_len(table_runs(tables_in(s, ids))) <= total_len(table_runs(s)),
    decreases s.len(),
{
    if s.len() > 0 {
        let t = s.drop_last();
        selected_len(t, ids);
        assert(table_runs(s).drop_last() =~= table_runs(t));
        assert(table_runs(s).last() == s.last().reader@);
        if ids.contains(s.last().meta.id) {
            let a = tables_in(s, ids);
            assert(table_runs(a).drop_last() =~= table_runs(tables_in(t, ids)));
            assert(table_runs(a).last() == s.last().reader@);
        }
    }
}

impl Engine {
    /// A compaction fits the machine: the sizes in the catalog can be added up, the
    /// tables' versions counted, and there are numbers for the new tables.
    pub open spec fn compactable(&self) -> bool {
        &&& plannable(self.catalog(), self.cfg.compaction)
        &&& total_len(table_runs(self.layers.tables@)) * 10 <= usize::MAX
        &&& self.next_sstable_id + total_len(table_runs(self.layers.tables@)) < u64::MAX
    }

    /// The next compaction, with the entries of its inputs.
    pub fn plan_compaction_job(&self) -> (r: Option<(CompactionJob, Vec<SstableMeta>)>)
        requires
            plannable(self.catalog(), self.cfg.compaction),
        ensures
            match r {
                Some((job, m)) => next_job(self.catalog(), self.cfg.compaction) == Some(
                    (job@, meta_views(m@)),
                ),
                None => next_job(self.catalog(), self.cfg.compaction) is None,
            },
    {
        let metas: Vec<SstableMeta> = self.metas();
        let planner: CompactionPlanner = CompactionPlanner::new(
            metas.as_slice(),
            &self.cfg.compaction,
        );
        let job: CompactionJob = match planner.plan() {
            Some(job) => job,
            None => {
                return None;
            },
        };
        let inputs: Vec<SstableMeta> = select_metas(&metas, &job.inputs);
        assert(meta_views(inputs@).len() == inputs@.len());
        if inputs.len() != job.inputs.len() {
            return None;
        }
        let deepest: u8 = self.cfg.compaction.max_level;
        if job.input_level == job.output_level && job.input_level != deepest {
            let target: u64 = self.cfg.compaction.target_file_bytes;
            let progress: bool = same_level_compaction_would_make_progress(
                inputs.as_slice(),
                target,
            );
            proof {
                let s = meta_views(inputs@);
                assert(progress == makes_progress(s, target)) by {
                    if makes_progress(s, target) {
                        if exists|i: int|
                            0 <= i < s.len() && (#[trigger] s[i]).size_bytes < target / 2 {
                            let i = choose|i: int|
                                0 <= i < s.len() && (#[trigger] s[i]).size_bytes < target / 2;
                            assert(inputs@[i].size_bytes < target / 2);
                        } else {
                            let (i, j) = choose|i: int, j: int|
                                0 <= i < j < s.len() && metas_overlap(
                                    #[trigger] s[i],
                                    #[trigger] s[j],
                                );
                            assert(metas_overlap(inputs@[i]@, inputs@[j]@));
                        }
                    }
                    if progress {
                        if exists|i: int|
                            0 <= i < inputs@.len() && (#[trigger] inputs@[i]).size_bytes < target
                                / 2 {
                            let i = choose|i: int|
                                0 <= i < inputs@.len() && (#[trigger] inputs@[i]).size_bytes
                                    < target / 2;
                            assert(s[i].size_bytes < target / 2);
                        } else {
                            let (i, j) = choose|i: int, j: int|
                                0 <= i < j < inputs@.len() && metas_overlap(
                                    #[trigger] inputs@[i]@,
                                    #[trigger] inputs@[j]@,
                                );
                            assert(metas_overlap(s[i], s[j]));
                        }
                    }
                }
            }
            if !progress {
                return None;
            }
        }
        Some((job, inputs))
    }

    /// No reader needs versions below this sequence number but the newest one of each
    /// key: the smallest ceiling of a live snapshot, or what is durable.
    pub fn compaction_gc_watermark(&self) -> (w: u64)
        requires
            self.pins.wf(),
        ensures
            w == self.pins.watermark(self.synced_seq),
    {
        self.pins.gc_watermark(self.synced_seq)
    }

    /// Whether no live snapshot stands against dropping tombstones.
    pub fn compaction_allow_tombstone_drop(&self) -> (r: bool)
        requires
            self.pins.wf(),
        ensures
            r == (self.pins.live_snapshot_seqs@ == Map::<u64, u64>::empty()),
    {
        self.pins.no_snapshots()
    }

    /// A compaction of the tables `ids` into a level may drop tombstones: the level is
    /// the deepest one, no snapshot is live, and no table outside holds anything older
    /// that a dropped tombstone would have hidden.
    pub open spec fn drops_tombstones(&self, output_level: u8, ids: Seq<u64>) -> bool {
        &&& output_level == self.cfg.compaction.max_level
        &&& self.pins.live_snapshot_seqs@ == Map::<u64, u64>::empty()
        &&& nothing_older_outside(
            self.layers.tables@,
            ids,
            self.pins.watermark(self.synced_seq),
        )
    }

    /// What a compaction of the tables `ids` leaves out.
    pub open spec fn job_rule(&self, output_level: u8, ids: Seq<u64>) -> DropRule {
        DropRule {
            gc_watermark: self.pins.watermark(self.synced_seq),
            drop_tombstones: self.drops_tombstones(output_level, ids),
        }
    }

    /// Whether a table outside `ids` holds a version of the key below a sequence number.
    fn older_outside(&self, ids: &Vec<u64>, key: &[u8], seq: u64) -> (r: bool)
        requires
            self.wf(),
        ensures
            r <==> exists|w: Version|
                #![trigger in_tables(tables_out(self.layers.tables@, ids@), w)]
                in_tables(tables_out(self.layers.tables@, ids@), w) && w.0.user_key == key@
                    && w.0.seq < seq,
    {
        let ghost s = self.layers.tables@;
        let ghost out = tables_out(s, ids@);
        proof {
            split_facts(s, ids@);
        }
        if seq == 0 {
            return false;
        }
        let mut j: usize = 0;
        while j < self.layers.tables.len()
            invariant
                j <= s.len(),
                s == self.layers.tables@,
                out == tables_out(s, ids@),
                forall|t: LiveTable| #[trigger]
                    s.contains(t) && !ids@.contains(t.meta.id) ==> out.contains(t),
                seq > 0,
                self.wf(),
                forall|k: int, w: Version|
                    0 <= k < j && !ids@.contains((#[trigger] s[k]).meta.id)
                        && #[trigger] s[k].reader@.contains(w) && w.0.user_key == key@ ==> w.0.seq
                        >= seq,
            decreases self.layers.tables.len() - j,
        {
            let t: &LiveTable = &self.layers.tables[j];
            assert(s[j as int] == *t && t.wf());
            if !contains_id(ids, t.meta.id) {
                match t.reader.newest_visible(key, seq - 1) {
                    Some((k, e)) => {
                        proof {
                            let w = (k@, e@);
                            assert(t.reader@.contains(w));
                            assert(s.contains(s[j as int]));
                            let q = choose|q: int| 0 <= q < out.len() && out[q] == s[j as int];
                            assert(out[q].reader@.contains(w));
                            assert(in_tables(out, w));
                        }
                        return true;
                    },
                    None => {
                        assert forall|w: Version|
                            #[trigger] s[j as int].reader@.contains(w) && w.0.user_key
                                == key@ implies w.0.seq >= seq by {
                            assert(!visible(w, key@, (seq - 1) as u64));
                        }
                    },
                }
            }
            j = j + 1;
        }
        proof {
            assert forall|w: Version|
                #![trigger in_tables(out, w)]
                in_tables(out, w) && w.0.user_key == key@ implies w.0.seq >= seq by {
                let i = choose|i: int| 0 <= i < out.len() && (#[trigger] out[i]).reader@.contains(w);
                assert(s.contains(out[i]));
                let k = choose|k: int| 0 <= k < s.len() && s[k] == out[i];
                assert(s[k].reader@.contains(w));
            }
        }
        false
    }

    /// Whether no table outside `ids` holds an older version of a key of which one of `ids`
    /// holds a tombstone at or below the watermark.
    pub(crate) fn hides_nothing_outside(&self, ids: &Vec<u64>, watermark: u64) -> (r: bool)
        requires
            self.wf(),
        ensures
            r == nothing_older_outside(self.layers.tables@, ids@, watermark),
    {
        let ghost s = self.layers.tables@;
        let ghost a = tables_in(s, ids@);
        let ghost out = tables_out(s, ids@);
        proof {
            split_facts(s, ids@);
        }
        if watermark == 0 {
            return true;
        }
        let mut i: usize = 0;
        while i < self.layers.tables.len()
            invariant
                i <= s.len(),
                s == self.layers.tables@,
                out == tables_out(s, ids@),
                a == tables_in(s, ids@),
                watermark != 0,
                self.wf(),
                forall|t: LiveTable| #[trigger] s.contains(t) && ids@.contains(t.meta.id)
                    ==> a.contains(t),
                forall|k: int, t: Version, w: Version|
                    0 <= k < i && ids@.contains((#[trigger] s[k]).meta.id)
                        && #[trigger] s[k].reader@.contains(t) && #[trigger] in_tables(out, w)
                        && t.1.value is None && t.0.seq <= watermark && w.0.user_key
                        == t.0.user_key ==> w.0.seq >= t.0.seq,
            decreases self.layers.tables.len() - i,
        {
            if contains_id(ids, self.layers.tables[i].meta.id) {
                let pairs: &[(InternalKey, Entry)] = self.layers.tables[i].reader.full_iter();
                let ghost run = s[i as int].reader@;
                let mut j: usize = 0;
                while j < pairs.len()
                    invariant
                        j <= pairs@.len(),
                        i < s.len(),
                        s == self.layers.tables@,
                        run == s[i as int].reader@,
                        versions(pairs@) == run,
                        out == tables_out(s, ids@),
                        a == tables_in(s, ids@),
                        ids@.contains(s[i as int].meta.id),
                        watermark != 0,
                        self.wf(),
                        forall|t: LiveTable| #[trigger] s.contains(t) && ids@.contains(t.meta.id)
                            ==> a.contains(t),
                        forall|k: int, w: Version|
                            0 <= k < j && #[trigger] in_tables(out, w) && (
                            #[trigger] run[k]).1.value is None && run[k].0.seq <= watermark
                                && w.0.user_key == run[k].0.user_key ==> w.0.seq >= run[k].0.seq,
                    decreases pairs.len() - j,
                {
                    let k: &InternalKey = &pairs[j].0;
                    assert(run[j as int] == (k@, pairs@[j as int].1@));
                    if pairs[j].1.is_tombstone() && k.seq <= watermark && self.older_outside(
                        ids,
                        k.user_key.as_slice(),
                        k.seq,
                    ) {
                        proof {
                            let t = run[j as int];
                            assert(s.contains(s[i as int]));
                            let q = choose|q: int| 0 <= q < a.len() && a[q] == s[i as int];
                            assert(run.contains(t));
                            assert(a[q].reader@.contains(t));
                            assert(in_tables(a, t));
                        }
                        return false;
                    }
                    j = j + 1;
                }
                proof {
                    assert forall|t: Version, w: Version|
                        #[trigger] s[i as int].reader@.contains(t) && #[trigger] in_tables(out, w)
                            && t.1.value is None && t.0.seq <= watermark && w.0.user_key
                            == t.0.user_key implies w.0.seq >= t.0.seq by {
                        let q = choose|q: int| 0 <= q < run.len() && run[q] == t;
                        assert(run[q].0.seq <= watermark);
                    }
                }
            }
            i = i + 1;
        }
        proof {
            assert forall|t: Version, w: Version|
                #![trigger in_tables(a, t), in_tables(out, w)]
                in_tables(a, t) && in_tables(out, w) && t.1.value is None && t.0.seq <= watermark
                    && w.0.user_key == t.0.user_key implies w.0.seq >= t.0.seq by {
                let q = choose|q: int| 0 <= q < a.len() && (#[trigger] a[q]).reader@.contains(t);
                assert(s.contains(a[q]));
                let k = choose|k: int| 0 <= k < s.len() && s[k] == a[q];
                assert(s[k].reader@.contains(t));
            }
        }
        true
    }

    /// Whether a compaction of the tables `ids` into a level may drop tombstones.
    pub fn compaction_drop_tombstones(&self, output_level: u8, ids: &Vec<u64>) -> (r: bool)
        requires
            self.wf(),
        ensures
            r == self.drops_tombstones(output_level, ids@),
    {
        output_level == self.cfg.compaction.max_level && self.compaction_allow_tombstone_drop()
            && self.hides_nothing_outside(ids, self.compaction_gc_watermark())
    }

    /// What a compaction of the tables `ids` leaves out.
    pub fn compaction_rule(&self, output_level: u8, ids: &Vec<u64>) -> (rule: DropRule)
        requires
            self.wf(),
        ensures
            rule == self.job_rule(output_level, ids@),
    {
        DropRule {
            gc_watermark: self.compaction_gc_watermark(),
            drop_tombstones: self.compaction_drop_tombstones(output_level, ids),
        }
    }

    /// The versions of the tables `ids`, table by table.
    pub fn compaction_sources(&self, ids: &Vec<u64>) -> (v: Vec<Vec<(InternalKey, Entry)>>)
        ensures
            run_views(v@) == table_runs(tables_in(self.layers.tables@, ids@)),
    {
        let ghost s = self.layers.tables@;
        let mut v: Vec<Vec<(InternalKey, Entry)>> = Vec::new();
        let mut i: usize = 0;
        assert(s.take(0) =~= Seq::<LiveTable>::empty());
        assert(run_views(v@) =~= table_runs(tables_in(s.take(0), ids@)));
        while i < self.layers.tables.len()
            invariant
                i <= s.len(),
                s == self.layers.tables@,
                run_views(v@) == table_runs(tables_in(s.take(i as int), ids@)),
            decreases self.layers.tables.len() - i,
        {
            proof {
                assert(s.take(i + 1).drop_last() =~= s.take(i as int));
                assert(s.take(i + 1).last() == s[i as int]);
            }
            if contains_id(ids, self.layers.tables[i].meta.id) {
                let ghost was = v@;
                v.push(copy_pairs(self.layers.tables[i].reader.full_iter()));
                proof {
                    assert(run_views(v@) =~= run_views(was).push(s[i as int].reader@));
                    assert(table_runs(tables_in(s.take(i + 1), ids@)) =~= table_runs(
                        tables_in(s.take(i as int), ids@),
                    ).push(s[i as int].reader@));
                }
            }
            i = i + 1;
        }
        assert(s.take(s.len() as int) =~= s);
        v
    }

    /// The tables `made` are what a compaction of the tables `ids` makes, numbered from
    /// `first_id` on.
    pub open spec fn made_of(
        &self,
        made: Seq<NewTable>,
        ids: Seq<u64>,
        rule: DropRule,
        first_id: u64,
        level: u8,
    ) -> bool {
        tables_match(
            made,
            tables_of(
                packed_all(
                    pack_start(),
                    input_run(self.layers.tables@, ids),
                    rule,
                    self.cfg.compaction.target_file_bytes,
                ),
            ),
            first_id,
            level,
        )
    }

    /// Runs a compaction on the tables as they stand. The new tables are numbered from
    /// `first_id` on.
    pub fn run_compaction(&self, work: CompactionWork, first_id: u64) -> (r:
        CompactionExecuteResult)
        requires
            self.wf(),
            total_len(table_runs(self.layers.tables@)) * 10 <= usize::MAX,
            first_id + total_len(table_runs(self.layers.tables@)) < u64::MAX,
        ensures
            r.job@ == work.job@,
            r.rule == work.rule,
            r.first_id == first_id,
            meta_views(r.input_metas@) == meta_views(work.input_metas@),
            self.made_of(
                r.new_tables@,
                ids_of(meta_views(work.input_metas@)),
                work.rule,
                first_id,
                work.job.output_level,
            ),
            r.new_tables@.len() <= total_len(table_runs(self.layers.tables@)),
    {
        let ids: Vec<u64> = meta_ids(&work.input_metas);
        let ghost s = self.layers.tables@;
        let ghost runs = table_runs(tables_in(s, ids@));
        let sources: Vec<Vec<(InternalKey, Entry)>> = self.compaction_sources(&ids);
        proof {
            tables_cohere(self.layers);
            input_run_facts(s, ids@);
            selected_len(s, ids@);
            assert forall|i: int| 0 <= i < sources@.len() implies sorted(
                versions((#[trigger] sources@[i])@),
            ) by {
                assert(run_views(sources@)[i] == runs[i]);
                assert(sorted(runs[i]));
            }
            merge_keeps_every_version(runs, ScanDirection::Forward);
            output_holds_survivors(
                input_run(s, ids@),
                work.rule,
                self.cfg.compaction.target_file_bytes,
            );
        }
        execute_compaction(
            work.job,
            work.input_metas,
            sources,
            &self.cfg.compaction,
            first_id,
            work.rule,
        )
    }
}

/// The manifest records of a compaction: its new tables in, its inputs out.
pub open spec fn compaction_records(made: Seq<MetaView>, inputs: Seq<MetaView>) -> Seq<RecordView> {
    Seq::new(made.len(), |i: int| RecordView::SstableAdd(made[i])) + Seq::new(
        inputs.len(),
        |i: int| RecordView::SstableRemove { id: inputs[i].id },
    )
}

/// The manifest records of a flush: its table in, and the log segments up to `covered`
/// out where there are any.
pub open spec fn flush_records(m: MetaView, covered: u64) -> Seq<RecordView> {
    if covered > 0 {
        seq![RecordView::SstableAdd(m), RecordView::WalTruncate { up_to_segment_id: covered }]
    } else {
        seq![RecordView::SstableAdd(m)]
    }
}

/// The tables of `ids` that nothing pins.
pub open spec fn unpinned(counts: Map<u64, u64>, ids: Seq<u64>) -> Seq<u64>
    decreases ids.len(),
{
    if ids.len() == 0 {
        ids
    } else if count_of(counts, ids.last()) == 0 {
        unpinned(counts, ids.drop_last()).push(ids.last())
    } else {
        unpinned(counts, ids.drop_last())
    }
}

/// The removals that wait once those of `ids` are asked for.
pub open spec fn deferred_with(waiting: Seq<u64>, counts: Map<u64, u64>, ids: Seq<u64>) -> Seq<u64>
    decreases ids.len(),
{
    if ids.len() == 0 {
        waiting
    } else {
        let before = deferred_with(waiting, counts, ids.drop_last());
        if count_of(counts, ids.last()) == 0 || before.contains(ids.last()) {
            before
        } else {
            before.push(ids.last())
        }
    }
}

impl Engine {
    /// The update of the catalog and the manifest that a flush leads to. The log may
    /// forget the segments that the tables then cover.
    pub open spec fn is_flush_apply(&self, done: FlushExecuteResult, a: ReadyCatalogApply) -> bool {
        let covered = self.covered_up_to(done.max_seq);
        &&& record_views(a.manifest_records@) == flush_records(done.meta@, covered)
        &&& a.add_tables@.len() == 1
        &&& a.add_tables@[0].meta@ == done.meta@
        &&& a.add_tables@[0].reader == done.reader
        &&& a.remove_sstable_ids@.len() == 0
        &&& a.unlink_wal_up_to == (if covered > 0 {
            Some(covered)
        } else {
            None
        })
        &&& a.flush_max_seq == Some(done.max_seq)
        &&& a.compaction is None
    }

    /// Turns the result of a flush into a catalog update, to be made durable.
    pub fn submit_flush_apply(&mut self, result: FlushExecuteResult) -> (r: EngineResult<
        ReadyCatalogApply,
    >)
        requires
            old(self).wf(),
            old(self).apply_scheduler.pending_count < u64::MAX,
        ensures
            final(self).wf(),
            *final(self) == (Engine {
                apply_scheduler: ApplyScheduler {
                    pending_count: (old(self).apply_scheduler.pending_count + 1) as u64,
                    ..old(self).apply_scheduler
                },
                ..*old(self)
            }),
            match r {
                Ok(a) => !old(self).apply_scheduler.shut_down && old(self).is_flush_apply(
                    result,
                    a,
                ),
                Err(e) => old(self).apply_scheduler.shut_down && (e matches EngineError::Io(m) && m@
                    == "apply worker shut down"@),
            },
    {
        let FlushExecuteResult { meta, reader, max_seq } = result;
        let covered: u64 = self.wal_segments_covered(max_seq);
        let mut records: Vec<ManifestRecord> = Vec::new();
        records.push(ManifestRecord::SstableAdd(meta.clone()));
        let mut up_to: Option<u64> = None;
        if covered > 0 {
            records.push(ManifestRecord::WalTruncate { up_to_segment_id: covered });
            up_to = Some(covered);
        }
        assert(record_views(records@) =~= flush_records(meta@, covered));
        let mut tables: Vec<NewTable> = Vec::new();
        tables.push(NewTable { meta, reader });
        match self.apply_scheduler.submit() {
            Ok(()) => {},
            Err(e) => {
                return Err(e);
            },
        }
        Ok(
            ReadyCatalogApply {
                manifest_records: records,
                add_tables: tables,
                remove_sstable_ids: Vec::new(),
                unlink_wal_up_to: up_to,
                flush_max_seq: Some(max_seq),
                compaction: None,
            },
        )
    }

    /// Turns the result of a compaction into a catalog update, to be made durable.
    pub fn submit_compaction_apply(&mut self, result: CompactionExecuteResult) -> (r: EngineResult<
        ReadyCatalogApply,
    >)
        requires
            old(self).wf(),
            old(self).apply_scheduler.pending_count < u64::MAX,
        ensures
            final(self).wf(),
            *final(self) == (Engine {
                apply_scheduler: ApplyScheduler {
                    pending_count: (old(self).apply_scheduler.pending_count + 1) as u64,
                    ..old(self).apply_scheduler
                },
                ..*old(self)
            }),
            match r {
                Ok(a) => !old(self).apply_scheduler.shut_down && is_compaction_apply(result, a),
                Err(e) => old(self).apply_scheduler.shut_down && (e matches EngineError::Io(m) && m@
                    == "apply worker shut down"@),
            },
    {
        let ghost made = new_metas(result.new_tables@);
        let ghost inputs = meta_views(result.input_metas@);
        let ghost want = compaction_records(made, inputs);
        let mut records: Vec<ManifestRecord> = Vec::new();
        let mut i: usize = 0;
        while i < result.new_tables.len()
            invariant
                i <= result.new_tables@.len(),
                made == new_metas(result.new_tables@),
                records@.len() == i,
                forall|j: int|
                    0 <= j < i ==> (#[trigger] records@[j])@ == RecordView::SstableAdd(made[j]),
            decreases result.new_tables.len() - i,
        {
            records.push(ManifestRecord::SstableAdd(result.new_tables[i].meta.clone()));
            i = i + 1;
        }
        let n: usize = i;
        i = 0;
        while i < result.input_metas.len()
            invariant
                i <= result.input_metas@.len(),
                n == made.len(),
                inputs == meta_views(result.input_metas@),
                records@.len() == n + i,
                forall|j: int|
                    0 <= j < n ==> (#[trigger] records@[j])@ == RecordView::SstableAdd(made[j]),
                forall|j: int|
                    n <= j < n + i ==> (#[trigger] records@[j])@ == (RecordView::SstableRemove {
                        id: inputs[j - n].id,
                    }),
            decreases result.input_metas.len() - i,
        {
            records.push(ManifestRecord::SstableRemove { id: result.input_metas[i].id });
            i = i + 1;
        }
        assert(record_views(records@) =~= want);
        let ids: Vec<u64> = meta_ids(&result.input_metas);
        match self.apply_scheduler.submit() {
            Ok(()) => {},
            Err(e) => {
                return Err(e);
            },
        }
        Ok(
            ReadyCatalogApply {
                manifest_records: records,
                add_tables: result.new_tables,
                remove_sstable_ids: ids,
                unlink_wal_up_to: None,
                flush_max_seq: None,
                compaction: Some(
                    CompactionApplyMetrics {
                        job: result.job,
                        first_id: result.first_id,
                        rule: result.rule,
                        bytes_read: result.bytes_read,
                        bytes_written: result.bytes_written,
                        versions_dropped: result.versions_dropped,
                        tombstones_dropped: result.tombstones_dropped,
                    },
                ),
            },
        )
    }

    /// An update is that of a flush of the oldest frozen memtable.
    pub open spec fn flush_ready(&self, a: ReadyCatalogApply) -> bool {
        &&& a.compaction is None
        &&& a.add_tables@.len() == 1
        &&& a.remove_sstable_ids@.len() == 0
        &&& self.layers.immutables@.len() > 0
        &&& flushed_from(a.add_tables@[0], self.layers.immutables@[0]@)
        &&& self.is_free(a.add_tables@[0].meta.id)
        &&& a.flush_max_seq == Some(top_seq(self.layers.immutables@[0]@))
    }

    /// An update is that of a compaction of the tables as they stand.
    pub open spec fn compaction_ready(&self, a: ReadyCatalogApply) -> bool {
        &&& a.flush_max_seq is None
        &&& a.compaction matches Some(c) && {
            &&& self.made_of(
                a.add_tables@,
                a.remove_sstable_ids@,
                c.rule,
                c.first_id,
                c.job.output_level,
            )
            &&& c.first_id + a.add_tables@.len() < u64::MAX
            &&& forall|i: int|
                0 <= i < a.add_tables@.len() ==> !ids_of(self.catalog()).contains(
                    (#[trigger] a.add_tables@[i]).meta.id,
                )
            &&& c.rule.drop_tombstones ==> nothing_older_outside(
                self.layers.tables@,
                a.remove_sstable_ids@,
                c.rule.gc_watermark,
            )
        }
    }

    /// Whether the file of a table may be removed now. That of a pinned table waits for
    /// the last snapshot that reads it.
    pub fn try_unlink_sstable(&mut self, id: u64) -> (now: bool)
        requires
            old(self).wf(),
        ensures
            final(self).wf(),
            now == (count_of(old(self).pins.pin_counts@, id) == 0),
            final(self).pins.pin_counts@ == old(self).pins.pin_counts@,
            final(self).pins.live_snapshot_seqs@ == old(self).pins.live_snapshot_seqs@,
            final(self).pins.deferred_unlinks@ == deferred_with(
                old(self).pins.deferred_unlinks@,
                old(self).pins.pin_counts@,
                seq![id],
            ),
            *final(self) == (Engine { pins: final(self).pins, ..*old(self) }),
    {
        proof {
            let s = seq![id];
            assert(s.drop_last() =~= Seq::<u64>::empty());
            assert(s.last() == id);
            reveal_with_fuel(deferred_with, 2);
        }
        self.pins.try_unlink(id)
    }

    /// Removes the files of tables that have left the catalog, as far as nothing pins
    /// them, and returns which.
    fn unlink_sstables(&mut self, ids: &Vec<u64>) -> (gone: Vec<u64>)
        requires
            old(self).wf(),
        ensures
            final(self).wf(),
            gone@ == unpinned(old(self).pins.pin_counts@, ids@),
            final(self).pins.pin_counts@ == old(self).pins.pin_counts@,
            final(self).pins.live_snapshot_seqs@ == old(self).pins.live_snapshot_seqs@,
            final(self).pins.deferred_unlinks@ == deferred_with(
                old(self).pins.deferred_unlinks@,
                old(self).pins.pin_counts@,
                ids@,
            ),
            *final(self) == (Engine { pins: final(self).pins, ..*old(self) }),
    {
        let ghost counts = self.pins.pin_counts@;
        let ghost waiting = self.pins.deferred_unlinks@;
        let mut gone: Vec<u64> = Vec::new();
        let mut i: usize = 0;
        assert(ids@.take(0) =~= Seq::<u64>::empty());
        while i < ids.len()
            invariant
                i <= ids@.len(),
                self.wf(),
                counts == old(self).pins.pin_counts@,
                waiting == old(self).pins.deferred_unlinks@,
                self.pins.pin_counts@ == counts,
                self.pins.live_snapshot_seqs@ == old(self).pins.live_snapshot_seqs@,
                gone@ == unpinned(counts, ids@.take(i as int)),
                self.pins.deferred_unlinks@ == deferred_with(waiting, counts, ids@.take(i as int)),
                *self == (Engine { pins: self.pins, ..*old(self) }),
            decreases ids.len() - i,
        {
            let id: u64 = ids[i];
            proof {
                assert(ids@.take(i + 1).drop_last() =~= ids@.take(i as int));
                assert(ids@.take(i + 1).last() == id);
                assert(seq![id].drop_last() =~= Seq::<u64>::empty());
                reveal_with_fuel(deferred_with, 2);
            }
            if self.try_unlink_sstable(id) {
                gone.push(id);
            }
            i = i + 1;
        }
        assert(ids@.take(ids@.len() as int) =~= ids@);
        gone
    }

    /// Makes a durable catalog update part of the store, and returns the tables whose
    /// files may go. After a flush a compaction is asked for.
    pub fn publish_catalog_apply(&mut self, apply: ReadyCatalogApply) -> (gone: Vec<u64>)
        requires
            old(self).wf(),
            old(self).flush_ready(apply) || old(self).compaction_ready(apply),
        ensures
            final(self).wf(),
            final(self).layers.active == old(self).layers.active,
            gone@ == unpinned(old(self).pins.pin_counts@, apply.remove_sstable_ids@),
            final(self).pins.pin_counts@ == old(self).pins.pin_counts@,
            final(self).pins.live_snapshot_seqs@ == old(self).pins.live_snapshot_seqs@,
            final(self).pins.deferred_unlinks@ == deferred_with(
                old(self).pins.deferred_unlinks@,
                old(self).pins.pin_counts@,
                apply.remove_sstable_ids@,
            ),
            old(self).flush_ready(apply) ==> {
                &&& final(self).store() == old(self).store()
                &&& final(self).layers.immutables@ == old(self).layers.immutables@.skip(1)
                &&& final(self).catalog() == catalog_with(
                    old(self).catalog(),
                    apply.add_tables@[0].meta@,
                )
                &&& final(self).next_sstable_id == larger(
                    old(self).next_sstable_id,
                    (apply.add_tables@[0].meta.id + 1) as u64,
                )
                &&& final(self).noted_flush(old(self), apply.flush_max_seq->0)
                &&& *final(self) == (Engine {
                    layers: final(self).layers,
                    next_sstable_id: final(self).next_sstable_id,
                    pins: final(self).pins,
                    in_flight_wal_bytes: 0,
                    buffered_seq: final(self).buffered_seq,
                    synced_seq: final(self).synced_seq,
                    dir_fsync_pending: true,
                    compaction_scheduler: crate::compaction_worker::CompactionScheduler {
                        compaction_needed: true,
                        ..old(self).compaction_scheduler
                    },
                    ..*old(self)
                })
            },
            old(self).compaction_ready(apply) ==> {
                let c = apply.compaction->0;
                let ids = apply.remove_sstable_ids@;
                &&& final(self).store() == rest_of(old(self).layers, ids).union(
                    compacted(input_run(old(self).layers.tables@, ids), c.rule).to_set(),
                )
                &&& same_reads(old(self).store(), final(self).store(), c.rule.gc_watermark)
                &&& final(self).layers.immutables == old(self).layers.immutables
                &&& final(self).catalog() == catalog_with_all(
                    catalog_of(tables_out(old(self).layers.tables@, ids)),
                    new_metas(apply.add_tables@),
                )
                &&& final(self).next_sstable_id == next_id_after(
                    old(self).next_sstable_id,
                    c.first_id,
                    apply.add_tables@.len(),
                )
                &&& *final(self) == (Engine {
                    layers: final(self).layers,
                    next_sstable_id: final(self).next_sstable_id,
                    pins: final(self).pins,
                    dir_fsync_pending: true,
                    ..*old(self)
                })
            },
    {
        let ghost before = *self;
        let ids: Vec<u64> = apply.remove_sstable_ids;
        match apply.compaction {
            Some(c) => {
                proof {
                    nothing_older_makes_drops_safe(self.layers, ids@, c.rule);
                }
                self.publish_compaction(
                    &ids,
                    apply.add_tables,
                    Ghost(c.rule),
                    Ghost(self.cfg.compaction.target_file_bytes),
                    Ghost(c.first_id),
                    Ghost(c.job.output_level),
                );
            },
            None => {
                let mut tables: Vec<NewTable> = apply.add_tables;
                let t: NewTable = tables.remove(0);
                let max_seq: u64 = apply.flush_max_seq.unwrap();
                self.publish_flush(t);
                self.note_flushed(max_seq);
                self.compaction_scheduler.request_compaction();
            },
        }
        let gone: Vec<u64> = self.unlink_sstables(&ids);
        self.dir_fsync_pending = true;
        gone
    }
}

/// What to do next while compactions are drained.
#[derive(Debug)]
pub enum DrainStep {
    /// The worker failed in a way that stops the drain with an error.
    Failed(EngineError),
    /// Nothing is left to do, or the worker failed and a later drain may plan anew.
    Done,
    /// A job for the worker.
    Submit(CompactionWork),
    /// The worker is busy.
    Wait,
}

/// What to do next while flushes are drained.
#[derive(Debug)]
pub enum FlushStep {
    Failed(EngineError),
    Done,
    /// The versions of a memtable for the worker.
    Submit(Vec<(InternalKey, Entry)>),
    Wait,
}

/// A failure that was injected on purpose.
pub const INJECTED: &'static str = "injected failpoint";

fn is_injected(err: &String) -> (r: bool)
    ensures
        r == has_part(err@, INJECTED@),
{
    let a: Vec<char> = chars_of(err.as_str());
    let b: Vec<char> = chars_of(INJECTED);
    contains_part(a.as_slice(), b.as_slice())
}

/// The catalog and the next table number after flushes of the given runs.
pub open spec fn after_flushes(s: Seq<MetaView>, next: u64, runs: Seq<Seq<Version>>) -> (
    Seq<MetaView>,
    u64,
)
    decreases runs.len(),
{
    if runs.len() == 0 {
        (s, next)
    } else if runs[0].len() == 0 {
        after_flushes(s, next, runs.skip(1))
    } else {
        after_flushes(
            catalog_with(s, crate::sstable::meta_of(runs[0], next, 0)),
            (next + 1) as u64,
            runs.skip(1),
        )
    }
}

/// A sequence number raised to those of the given runs.
pub open spec fn raised(n: u64, runs: Seq<Seq<Version>>) -> u64
    decreases runs.len(),
{
    if runs.len() == 0 {
        n
    } else if runs[0].len() == 0 {
        raised(n, runs.skip(1))
    } else {
        raised(larger(n, top_seq(runs[0])), runs.skip(1))
    }
}

/// No run holds anything.
pub open spec fn all_empty(runs: Seq<Seq<Version>>) -> bool {
    forall|i: int| 0 <= i < runs.len() ==> (#[trigger] runs[i]).len() == 0
}

/// The memtables that a forced flush writes out, oldest first.
pub open spec fn to_flush(l: crate::snapshot::Layers) -> Seq<Seq<Version>> {
    if l.active@.len() == 0 {
        memtable_runs(l.immutables@)
    } else {
        memtable_runs(l.immutables@).push(l.active@)
    }
}

impl Engine {
    /// The work of the next compaction.
    pub open spec fn is_next_work(&self, w: CompactionWork) -> bool {
        next_job(self.catalog(), self.cfg.compaction) matches Some((job, m)) && {
            &&& w.job@ == job
            &&& meta_views(w.input_metas@) == m
            &&& w.rule == self.job_rule(job.output_level, ids_of(m))
        }
    }

    /// The work of the next compaction, where there is one.
    fn next_work(&self) -> (r: Option<CompactionWork>)
        requires
            self.wf(),
            plannable(self.catalog(), self.cfg.compaction),
        ensures
            match r {
                Some(w) => self.is_next_work(w),
                None => next_job(self.catalog(), self.cfg.compaction) is None,
            },
    {
        match self.plan_compaction_job() {
            Some((job, input_metas)) => {
                let ids: Vec<u64> = meta_ids(&input_metas);
                let rule: DropRule = self.compaction_rule(job.output_level, &ids);
                Some(CompactionWork { job, input_metas, rule })
            },
            None => None,
        }
    }

    /// Notes that there may be work for the compaction worker.
    pub fn request_compaction(&mut self)
        ensures
            *final(self) == (Engine {
                compaction_scheduler: CompactionScheduler {
                    compaction_needed: true,
                    ..old(self).compaction_scheduler
                },
                ..*old(self)
            }),
    {
        self.compaction_scheduler.request_compaction();
    }

    /// Handing out compaction work takes the scheduler from `s` to `t`: an idle worker
    /// gets the staged job or the planned one, a busy one has the better of the two staged.
    pub open spec fn submits(
        &self,
        s: CompactionScheduler,
        t: CompactionScheduler,
        r: Option<CompactionWork>,
    ) -> bool {
        let idle = !s.worker_busy;
        let staged = s.pending is Some;
        let planned_now = next_job(self.catalog(), self.cfg.compaction) is Some;
        &&& idle && staged ==> r == s.pending && t == (CompactionScheduler {
            pending: None,
            worker_failed: false,
            worker_busy: true,
            compaction_needed: false,
            ..s
        })
        &&& idle && !staged && planned_now ==> r is Some && self.is_next_work(r->0)
            && t == (CompactionScheduler {
            worker_failed: false,
            worker_busy: true,
            compaction_needed: false,
            ..s
        })
        &&& idle && !staged && !planned_now ==> r is None && t == (CompactionScheduler {
            compaction_needed: false,
            ..s
        })
        &&& !idle && !planned_now ==> r is None && t == s
        &&& !idle && planned_now ==> r is None && {
            ||| t == s && staged && !((next_job(
                self.catalog(),
                self.cfg.compaction,
            )->0).0.priority_score.above(s.pending->0.job.priority_score))
            ||| t.pending is Some && self.is_next_work(t.pending->0) && t == (
            CompactionScheduler { pending: t.pending, ..s }) && (staged
                ==> t.pending->0.job.priority_score.above(s.pending->0.job.priority_score))
        }
    }

    /// Hands out a job for the compaction worker: the staged one, or else the next one.
    /// While the worker is busy the more urgent of the two is staged.
    pub fn maybe_submit_compaction(&mut self) -> (r: Option<CompactionWork>)
        requires
            old(self).wf(),
            plannable(old(self).catalog(), old(self).cfg.compaction),
        ensures
            final(self).wf(),
            *final(self) == (Engine {
                compaction_scheduler: final(self).compaction_scheduler,
                ..*old(self)
            }),
            old(self).submits(old(self).compaction_scheduler, final(self).compaction_scheduler, r),
    {
        let staged: Option<CompactionWork> = self.compaction_scheduler.try_submit_staged();
        if staged.is_some() {
            return staged;
        }
        match self.next_work() {
            Some(work) => self.compaction_scheduler.try_submit(work),
            None => {
                if !self.compaction_scheduler.is_worker_busy() {
                    self.compaction_scheduler.clear_compaction_needed();
                }
                None
            },
        }
    }

    /// Takes in what the compaction worker came back with: a result becomes a catalog
    /// update, a failure is noted. Either way nothing stays staged.
    pub fn take_compaction_result(&mut self, result: Result<CompactionExecuteResult, String>) -> (r:
        EngineResult<Option<ReadyCatalogApply>>)
        requires
            old(self).wf(),
            old(self).apply_scheduler.pending_count < u64::MAX,
        ensures
            final(self).wf(),
            match result {
                Ok(done) => {
                    &&& final(self).compaction_scheduler == (CompactionScheduler {
                        pending: None,
                        worker_busy: false,
                        ..old(self).compaction_scheduler
                    })
                    &&& r is Ok <==> !old(self).apply_scheduler.shut_down
                    &&& r matches Ok(a) ==> a is Some && is_compaction_apply(done, a->0)
                    &&& r matches Err(e) ==> (e matches EngineError::Io(m) && m@
                        == "apply worker shut down"@)
                },
                Err(e) => {
                    &&& r == Ok::<Option<ReadyCatalogApply>, EngineError>(None)
                    &&& final(self).compaction_scheduler == (CompactionScheduler {
                        pending: None,
                        worker_busy: false,
                        worker_failed: true,
                        last_error: Some(e),
                        ..old(self).compaction_scheduler
                    })
                },
            },
            *final(self) == (Engine {
                compaction_scheduler: final(self).compaction_scheduler,
                apply_scheduler: final(self).apply_scheduler,
                ..*old(self)
            }),
            final(self).apply_scheduler == (ApplyScheduler {
                pending_count: final(self).apply_scheduler.pending_count,
                ..old(self).apply_scheduler
            }),
            final(self).apply_scheduler.pending_count == old(self).apply_scheduler.pending_count
                + (if result is Ok {
                1int
            } else {
                0
            }),
    {
        self.compaction_scheduler.worker_finished();
        self.compaction_scheduler.clear_staged();
        match result {
            Ok(done) => match self.submit_compaction_apply(done) {
                Ok(a) => Ok(Some(a)),
                Err(e) => Err(e),
            },
            Err(e) => {
                self.compaction_scheduler.note_worker_failed(e);
                Ok(None)
            },
        }
    }

    /// Takes in what the flush worker came back with: a result becomes a catalog update,
    /// a failure is noted.
    pub fn take_flush_result(&mut self, result: Result<FlushExecuteResult, String>) -> (r:
        EngineResult<Option<ReadyCatalogApply>>)
        requires
            old(self).wf(),
            old(self).apply_scheduler.pending_count < u64::MAX,
        ensures
            final(self).wf(),
            match result {
                Ok(done) => {
                    &&& final(self).flush_scheduler == (FlushScheduler {
                        worker_busy: false,
                        ..old(self).flush_scheduler
                    })
                    &&& r is Ok <==> !old(self).apply_scheduler.shut_down
                    &&& r matches Ok(a) ==> a is Some && old(self).is_flush_apply(done, a->0)
                    &&& r matches Err(e) ==> (e matches EngineError::Io(m) && m@
                        == "apply worker shut down"@)
                },
                Err(e) => {
                    &&& r == Ok::<Option<ReadyCatalogApply>, EngineError>(None)
                    &&& final(self).flush_scheduler == (FlushScheduler {
                        worker_busy: false,
                        worker_failed: true,
                        last_error: Some(e),
                        ..old(self).flush_scheduler
                    })
                },
            },
            *final(self) == (Engine {
                flush_scheduler: final(self).flush_scheduler,
                apply_scheduler: final(self).apply_scheduler,
                ..*old(self)
            }),
            final(self).apply_scheduler == (ApplyScheduler {
                pending_count: final(self).apply_scheduler.pending_count,
                ..old(self).apply_scheduler
            }),
            final(self).apply_scheduler.pending_count == old(self).apply_scheduler.pending_count
                + (if result is Ok {
                1int
            } else {
                0
            }),
    {
        match result {
            Ok(done) => {
                let r: EngineResult<ReadyCatalogApply> = self.submit_flush_apply(done);
                self.flush_scheduler.worker_finished();
                match r {
                    Ok(a) => Ok(Some(a)),
                    Err(e) => Err(e),
                }
            },
            Err(e) => {
                self.flush_scheduler.worker_finished();
                self.flush_scheduler.note_worker_failed(e);
                Ok(None)
            },
        }
    }

    /// Ends a pass over the workers' results: hands out the next compaction and the next
    /// memtable to flush. After a pass that noted a failed compaction none is handed out,
    /// so that the failure is seen before the same job is tried again.
    pub fn next_background_work(&mut self, compaction_failed: bool) -> (r: (
        Option<CompactionWork>,
        Option<Vec<(InternalKey, Entry)>>,
    ))
        requires
            old(self).wf(),
            plannable(old(self).catalog(), old(self).cfg.compaction),
        ensures
            final(self).wf(),
            final(self).store() == old(self).store(),
            final(self).catalog() == old(self).catalog(),
            compaction_failed ==> r.0 is None && final(self).compaction_scheduler == old(
                self,
            ).compaction_scheduler,
            !compaction_failed ==> old(self).submits(
                old(self).compaction_scheduler,
                final(self).compaction_scheduler,
                r.0,
            ),
            final(self).flush_scheduler == (if r.1 is Some {
                FlushScheduler { worker_failed: false, worker_busy: true, ..old(self).flush_scheduler }
            } else {
                old(self).flush_scheduler
            }),
            old(self).flush_scheduler.worker_busy ==> final(self).layers == old(self).layers,
            !old(self).flush_scheduler.worker_busy ==> drops_empty_front(
                old(self).layers.immutables@,
                final(self).layers.immutables@,
            ),
            r.1 is Some <==> !old(self).flush_scheduler.worker_busy && !all_empty(
                memtable_runs(old(self).layers.immutables@),
            ),
            r.1 matches Some(pairs) ==> pairs@.len() > 0 && sorted(versions(pairs@)) && final(self).layers.immutables@.len() > 0
                && versions(pairs@) == final(self).layers.immutables@[0]@,
            *final(self) == (Engine {
                layers: final(self).layers,
                compaction_scheduler: final(self).compaction_scheduler,
                flush_scheduler: final(self).flush_scheduler,
                ..*old(self)
            }),
    {
        let work: Option<CompactionWork> = if compaction_failed {
            None
        } else {
            self.maybe_submit_compaction()
        };
        let ghost a = self.layers.immutables@;
        let ghost ra = memtable_runs(a);
        let pairs: Option<Vec<(InternalKey, Entry)>> = self.try_submit_flush();
        proof {
            let b = self.layers.immutables@;
            if pairs is Some {
                let k = a.len() - b.len();
                assert(b[0] == a[k]);
                assert(ra[k] == b[0]@);
                assert(ra[k].len() > 0);
            } else if !old(self).flush_scheduler.worker_busy {
                assert forall|i: int| 0 <= i < ra.len() implies (#[trigger] ra[i]).len() == 0 by {
                    assert(a[i]@.len() == 0);
                }
            }
        }
        (work, pairs)
    }

    /// Decides the next step of draining compactions.
    pub fn drain_compaction_step(&mut self) -> (r: DrainStep)
        requires
            old(self).wf(),
            plannable(old(self).catalog(), old(self).cfg.compaction),
        ensures
            final(self).wf(),
            *final(self) == (Engine {
                compaction_scheduler: final(self).compaction_scheduler,
                ..*old(self)
            }),
            ({
                let s = old(self).compaction_scheduler;
                let failure = if s.worker_failed {
                    s.last_error
                } else {
                    None
                };
                let nothing = next_job(old(self).catalog(), old(self).cfg.compaction) is None;
                match failure {
                    Some(err) => if has_part(err@, INJECTED@) {
                        r == DrainStep::Failed(EngineError::Io(err))
                    } else {
                        r is Done
                    },
                    None => if s.worker_busy {
                        r is Wait
                    } else if nothing && (!s.compaction_needed || s.pending is None) {
                        r is Done
                    } else if s.pending is Some {
                        r == DrainStep::Submit(s.pending->0)
                    } else {
                        r is Submit && old(self).is_next_work(r->Submit_0)
                    },
                }
            }),
            ({
                let s = old(self).compaction_scheduler;
                let asked = if s.worker_failed {
                    CompactionScheduler { worker_failed: false, last_error: None, ..s }
                } else {
                    s
                };
                let nothing = next_job(old(self).catalog(), old(self).cfg.compaction) is None;
                let failure = s.worker_failed && s.last_error is Some;
                if failure || s.worker_busy || (nothing && !s.compaction_needed) {
                    final(self).compaction_scheduler == asked
                } else {
                    old(self).submits(
                        asked,
                        final(self).compaction_scheduler,
                        match r {
                            DrainStep::Submit(w) => Some(w),
                            _ => None,
                        },
                    )
                }
            }),
    {
        match self.compaction_scheduler.take_worker_failure() {
            Some(err) => {
                if is_injected(&err) {
                    return DrainStep::Failed(EngineError::Io(err));
                }
                return DrainStep::Done;
            },
            None => {},
        }
        if self.compaction_scheduler.is_worker_busy() {
            return DrainStep::Wait;
        }
        if !self.compaction_scheduler.compaction_needed() && self.plan_compaction_job().is_none() {
            return DrainStep::Done;
        }
        match self.maybe_submit_compaction() {
            Some(work) => DrainStep::Submit(work),
            None => DrainStep::Done,
        }
    }

    /// Decides the next step of draining flushes. A worker failure that was not injected
    /// does not stop the drain.
    pub fn drain_flush_step(&mut self) -> (r: FlushStep)
        requires
            old(self).wf(),
        ensures
            final(self).wf(),
            final(self).store() == old(self).store(),
            *final(self) == (Engine {
                layers: final(self).layers,
                flush_scheduler: final(self).flush_scheduler,
                ..*old(self)
            }),
            ({
                let s = old(self).flush_scheduler;
                let failure = if s.worker_failed {
                    s.last_error
                } else {
                    None
                };
                if failure is Some && has_part(failure->0@, INJECTED@) {
                    r == FlushStep::Failed(EngineError::Io(failure->0))
                } else if s.worker_busy {
                    r is Wait
                } else if all_empty(memtable_runs(old(self).layers.immutables@)) {
                    r is Done && final(self).layers.immutables@.len() == 0
                } else {
                    &&& r matches FlushStep::Submit(pairs) && {
                        &&& final(self).layers.immutables@.len() > 0
                        &&& versions(pairs@) == final(self).layers.immutables@[0]@
                        &&& pairs@.len() > 0
                        &&& sorted(versions(pairs@))
                    }
                    &&& drops_empty_front(
                        old(self).layers.immutables@,
                        final(self).layers.immutables@,
                    )
                }
            }),
            ({
                let s = old(self).flush_scheduler;
                let asked = if s.worker_failed {
                    FlushScheduler { worker_failed: false, last_error: None, ..s }
                } else {
                    s
                };
                final(self).flush_scheduler == (if r is Submit {
                    FlushScheduler { worker_failed: false, worker_busy: true, ..asked }
                } else {
                    asked
                })
            }),
            r is Failed || r is Wait ==> final(self).layers == old(self).layers,
    {
        match self.flush_scheduler.take_worker_failure() {
            Some(err) => {
                if is_injected(&err) {
                    return FlushStep::Failed(EngineError::Io(err));
                }
            },
            None => {},
        }
        if self.flush_scheduler.is_worker_busy() {
            return FlushStep::Wait;
        }
        let ghost a = self.layers.immutables@;
        let ghost ra = memtable_runs(a);
        let r: Option<Vec<(InternalKey, Entry)>> = self.try_submit_flush();
        proof {
            let b = self.layers.immutables@;
            if r is Some {
                let k = a.len() - b.len();
                assert(b[0] == a[k]);
                assert(ra[k] == b[0]@);
                assert(ra[k].len() > 0);
            } else {
                assert forall|i: int| 0 <= i < ra.len() implies (#[trigger] ra[i]).len() == 0 by {
                    assert(a[i]@.len() == 0);
                }
            }
        }
        match r {
            Some(pairs) => FlushStep::Submit(pairs),
            None => FlushStep::Done,
        }
    }

    /// Whether all catalog updates are published: an error where one could not be made
    /// durable, or where the deadline has passed.
    pub fn finish_pending_applies(&mut self, timed_out: bool) -> (r: EngineResult<bool>)
        ensures
            *final(self) == (Engine {
                apply_scheduler: ApplyScheduler { failed: false, ..old(self).apply_scheduler },
                ..*old(self)
            }),
            ({
                let s = old(self).apply_scheduler;
                let finished = s.pending_count == 0 && s.ready@.len() == 0;
                if s.failed {
                    r matches Err(EngineError::Io(m)) && m@ == "background apply failed"@
                } else if finished {
                    r == Ok::<bool, EngineError>(true)
                } else if timed_out {
                    r matches Err(EngineError::Io(m)) && m@ == "apply worker drain timeout"@
                } else {
                    r == Ok::<bool, EngineError>(false)
                }
            }),
    {
        if self.apply_scheduler.take_failed() {
            return Err(EngineError::Io(text_of("background apply failed")));
        }
        if self.apply_scheduler.pending_applies() == 0 && self.apply_scheduler.ready_count() == 0 {
            return Ok(true);
        }
        if timed_out {
            return Err(EngineError::Io(text_of("apply worker drain timeout")));
        }
        Ok(false)
    }

    /// What writing every memtable out makes of an engine.
    pub open spec fn flushed_all(&self, before: &Engine) -> bool {
        let runs = to_flush(before.layers);
        &&& self.store() == before.store()
        &&& self.layers.active@.len() == 0
        &&& self.layers.immutables@.len() == 0
        &&& (self.catalog(), self.next_sstable_id) == after_flushes(
            before.catalog(),
            before.next_sstable_id,
            runs,
        )
        &&& self.buffered_seq == raised(before.buffered_seq, runs)
        &&& self.synced_seq == raised(before.synced_seq, runs)
        &&& self.in_flight_wal_bytes == (if all_empty(runs) {
            before.in_flight_wal_bytes
        } else {
            0
        })
        &&& *self == (Engine {
            layers: self.layers,
            next_sstable_id: self.next_sstable_id,
            in_flight_wal_bytes: self.in_flight_wal_bytes,
            buffered_seq: self.buffered_seq,
            synced_seq: self.synced_seq,
            ..*before
        })
    }

    /// Writes all memtables out as tables.
    pub(crate) fn write_out(&mut self)
        requires
            old(self).wf(),
            old(self).next_sstable_id + old(self).layers.immutables@.len() + 1 < u64::MAX,
            old(self).layers.active@.len() * 10 <= usize::MAX,
            forall|i: int|
                0 <= i < old(self).layers.immutables@.len() ==> (
                #[trigger] old(self).layers.immutables@[i])@.len() * 10 <= usize::MAX,
        ensures
            final(self).wf(),
            final(self).flushed_all(old(self)),
            !in_memtables(old(self)) ==> *final(self) == *old(self),
    {
        let ghost runs = to_flush(self.layers);
        if !self.layers.active.is_empty() {
            let ghost was = self.layers;
            self.freeze_active();
            proof {
                let now = self.layers.immutables@;
                assert forall|i: int| 0 <= i < now.len() implies (#[trigger] now[i])@.len() * 10
                    <= usize::MAX by {
                    assert(memtable_runs(now)[i] == now[i]@);
                    if i < was.immutables@.len() {
                        assert(memtable_runs(was.immutables@)[i] == was.immutables@[i]@);
                    }
                }
                assert(now.len() == memtable_runs(now).len());
            }
        }
        assert(memtable_runs(self.layers.immutables@) == runs);
        let ghost bytes = self.in_flight_wal_bytes;
        let ghost mut bare = true;
        while self.layers.immutables.len() > 0
            invariant
                self.wf(),
                self.store() == old(self).store(),
                self.layers.active@.len() == 0,
                !in_memtables(old(self)) ==> *self == *old(self),
                self.next_sstable_id + self.layers.immutables@.len() < u64::MAX,
                forall|i: int|
                    0 <= i < self.layers.immutables@.len() ==> (
                    #[trigger] self.layers.immutables@[i])@.len() * 10 <= usize::MAX,
                runs == to_flush(old(self).layers),
                bytes == old(self).in_flight_wal_bytes,
                after_flushes(
                    self.catalog(),
                    self.next_sstable_id,
                    memtable_runs(self.layers.immutables@),
                ) == after_flushes(old(self).catalog(), old(self).next_sstable_id, runs),
                raised(self.buffered_seq, memtable_runs(self.layers.immutables@)) == raised(
                    old(self).buffered_seq,
                    runs,
                ),
                raised(self.synced_seq, memtable_runs(self.layers.immutables@)) == raised(
                    old(self).synced_seq,
                    runs,
                ),
                self.in_flight_wal_bytes == (if bare {
                    bytes
                } else {
                    0
                }),
                all_empty(runs) <==> bare && all_empty(memtable_runs(self.layers.immutables@)),
                *self == (Engine {
                    layers: self.layers,
                    next_sstable_id: self.next_sstable_id,
                    in_flight_wal_bytes: self.in_flight_wal_bytes,
                    buffered_seq: self.buffered_seq,
                    synced_seq: self.synced_seq,
                    ..*old(self)
                }),
            decreases self.layers.immutables@.len(),
        {
            let ghost l = self.layers;
            let ghost left = memtable_runs(l.immutables@);
            let done: bool = self.flush_one();
            proof {
                let now = memtable_runs(self.layers.immutables@);
                assert(left[0] == l.immutables@[0]@);
                assert(now =~= left.skip(1));
                assert forall|i: int| 0 <= i < self.layers.immutables@.len() implies (
                #[trigger] self.layers.immutables@[i])@.len() * 10 <= usize::MAX by {
                    assert(self.layers.immutables@[i] == l.immutables@[i + 1]);
                }
                assert(all_empty(left) <==> left[0].len() == 0 && all_empty(now)) by {
                    if all_empty(now) && left[0].len() == 0 {
                        assert forall|i: int| 0 <= i < left.len() implies (#[trigger] left[i]).len()
                            == 0 by {
                            if i > 0 {
                                assert(now[i - 1] == left[i]);
                            }
                        }
                    }
                    if all_empty(left) {
                        assert forall|i: int| 0 <= i < now.len() implies (#[trigger] now[i]).len()
                            == 0 by {
                            assert(now[i] == left[i + 1]);
                        }
                    }
                }
                bare = bare && left[0].len() == 0;
            }
        }
    }
}

impl Engine {
    /// Whether a compaction fits the machine.
    pub fn can_compact(&self) -> (r: bool)
        ensures
            r == self.compactable(),
    {
        let ghost s = self.layers.tables@;
        let ghost cat = self.catalog();
        let ghost runs = table_runs(s);
        if self.cfg.compaction.max_level == u8::MAX {
            return false;
        }
        let mut bytes: u64 = 0;
        let mut len: usize = 0;
        let mut i: usize = 0;
        assert(cat.take(0) =~= Seq::<MetaView>::empty());
        assert(runs.take(0) =~= Seq::<Seq<Version>>::empty());
        while i < self.layers.tables.len()
            invariant
                i <= s.len(),
                s == self.layers.tables@,
                cat == self.catalog(),
                runs == table_runs(s),
                bytes == catalog_bytes(cat.take(i as int)),
                len == total_len(runs.take(i as int)),
            decreases self.layers.tables.len() - i,
        {
            let size: u64 = self.layers.tables[i].meta.size_bytes;
            let n: usize = self.layers.tables[i].reader.full_iter().len();
            proof {
                assert(cat.take(i + 1).drop_last() =~= cat.take(i as int));
                assert(cat.take(i + 1).last() == s[i as int].meta@);
                assert(runs.take(i + 1).drop_last() =~= runs.take(i as int));
                assert(runs.take(i + 1).last() == s[i as int].reader@);
                catalog_bytes_grow(cat, i + 1);
                total_len_grows(runs, i + 1);
            }
            match bytes.checked_add(size) {
                Some(sum) => {
                    bytes = sum;
                },
                None => {
                    return false;
                },
            }
            match len.checked_add(n) {
                Some(sum) => {
                    len = sum;
                },
                None => {
                    return false;
                },
            }
            i = i + 1;
        }
        proof {
            assert(cat.take(cat.len() as int) =~= cat);
            assert(runs.take(runs.len() as int) =~= runs);
        }
        len <= usize::MAX / 10 && (len as u64) < u64::MAX - self.next_sstable_id
    }

    /// What the next compaction makes of an engine: its inputs are replaced by tables of
    /// the versions that its rule keeps, and readers at or above the watermark see what
    /// they saw.
    pub open spec fn compacted_once(&self, before: &Engine) -> bool {
        let job = next_job(before.catalog(), before.cfg.compaction);
        let ids = ids_of((job->0).1);
        let rule = before.job_rule((job->0).0.output_level, ids);
        let run = input_run(before.layers.tables@, ids);
        let files = tables_of(
            packed_all(pack_start(), run, rule, before.cfg.compaction.target_file_bytes),
        );
        &&& job is Some
        &&& self.wf()
        &&& same_reads(before.store(), self.store(), rule.gc_watermark)
        &&& self.store() == rest_of(before.layers, ids).union(compacted(run, rule).to_set())
        &&& self.layers.active == before.layers.active
        &&& self.layers.immutables == before.layers.immutables
        &&& self.pins.pin_counts@ == before.pins.pin_counts@
        &&& self.pins.live_snapshot_seqs@ == before.pins.live_snapshot_seqs@
        &&& self.pins.deferred_unlinks@ == deferred_with(
            before.pins.deferred_unlinks@,
            before.pins.pin_counts@,
            ids,
        )
        &&& self.catalog() == catalog_with_all(
            catalog_of(tables_out(before.layers.tables@, ids)),
            numbered_metas(files, before.next_sstable_id, (job->0).0.output_level),
        )
        &&& self.next_sstable_id == before.next_sstable_id + files.len()
        &&& *self == (Engine {
            layers: self.layers,
            next_sstable_id: self.next_sstable_id,
            pins: self.pins,
            dir_fsync_pending: false,
            ..*before
        })
    }

    /// No compaction can run: a worker is at one, none is due, or the next one would
    /// outgrow the machine.
    pub open spec fn at_rest(&self) -> bool {
        ||| self.compaction_scheduler.worker_busy
        ||| next_job(self.catalog(), self.cfg.compaction) is None
        ||| !self.compactable()
    }

    /// Runs the next compaction at once, where there is one and the worker is idle.
    /// Every write to the disk is taken to succeed.
    pub fn compact_once(&mut self) -> (r: EngineResult<bool>)
        requires
            old(self).wf(),
            old(self).compactable(),
            old(self).apply_scheduler.pending_count < u64::MAX,
        ensures
            final(self).wf(),
            ({
                let job = next_job(old(self).catalog(), old(self).cfg.compaction);
                if old(self).compaction_scheduler.worker_busy || job is None {
                    r == Ok::<bool, EngineError>(false) && *final(self) == *old(self)
                } else if old(self).apply_scheduler.shut_down {
                    &&& r matches Err(EngineError::Io(m)) && m@ == "apply worker shut down"@
                    &&& final(self).layers == old(self).layers
                } else {
                    r == Ok::<bool, EngineError>(true) && final(self).compacted_once(old(self))
                }
            }),
            r is Err ==> *final(self) == (Engine {
                apply_scheduler: final(self).apply_scheduler,
                ..*old(self)
            }),
    {
        if self.compaction_scheduler.is_worker_busy() {
            return Ok(false);
        }
        let work: CompactionWork = match self.next_work() {
            Some(work) => work,
            None => {
                return Ok(false);
            },
        };
        let ghost before = *self;
        let ghost ids = ids_of(meta_views(work.input_metas@));
        let first_id: u64 = self.next_sstable_id;
        let result: CompactionExecuteResult = self.run_compaction(work, first_id);
        let ghost level = result.job.output_level;
        proof {
            assert forall|i: int| 0 <= i < result.new_tables@.len() implies !ids_of(
                before.catalog(),
            ).contains((#[trigger] result.new_tables@[i]).meta.id) by {
                let all = ids_of(before.catalog());
                assert(result.new_tables@[i].meta@.id == first_id + i);
                if all.contains(result.new_tables@[i].meta.id) {
                    let k = choose|k: int|
                        0 <= k < all.len() && all[k] == result.new_tables@[i].meta.id;
                    assert(before.layers.tables@[k].meta.id < first_id);
                }
            }
            assert(new_metas(result.new_tables@) =~= numbered_metas(
                tables_of(
                    packed_all(
                        pack_start(),
                        input_run(before.layers.tables@, ids),
                        result.rule,
                        before.cfg.compaction.target_file_bytes,
                    ),
                ),
                first_id,
                level,
            ));
        }
        let apply: ReadyCatalogApply = match self.submit_compaction_apply(result) {
            Ok(apply) => apply,
            Err(e) => {
                return Err(e);
            },
        };
        self.apply_scheduler.pending_count = self.apply_scheduler.pending_count - 1;
        let gone: Vec<u64> = self.publish_catalog_apply(apply);
        self.dir_fsync_pending = false;
        Ok(true)
    }

    /// Runs the next compaction at once, where there is one and the worker is idle.
    pub fn compact_range(&mut self) -> (r: EngineResult<bool>)
        requires
            old(self).wf(),
            old(self).compactable(),
            old(self).apply_scheduler.pending_count < u64::MAX,
        ensures
            final(self).wf(),
            !old(self).apply_scheduler.shut_down ==> r == Ok::<bool, EngineError>(
                !old(self).compaction_scheduler.worker_busy && next_job(
                    old(self).catalog(),
                    old(self).cfg.compaction,
                ) is Some,
            ),
            match r {
                Ok(true) => final(self).compacted_once(old(self)),
                Ok(false) => *final(self) == *old(self),
                Err(e) => old(self).apply_scheduler.shut_down && final(self).layers == old(
                    self,
                ).layers && (e matches EngineError::Io(m) && m@ == "apply worker shut down"@),
            },
            same_reads(
                old(self).store(),
                final(self).store(),
                old(self).pins.watermark(old(self).synced_seq),
            ),
            final(self).layers.active == old(self).layers.active,
            final(self).layers.immutables == old(self).layers.immutables,
    {
        self.compact_once()
    }

    /// Runs compactions at once until none can run. Returns whether that is because none
    /// is due, or because a worker is at one: else the next one would outgrow the machine.
    pub fn drain_compaction(&mut self) -> (r: EngineResult<bool>)
        requires
            old(self).wf(),
            old(self).apply_scheduler.pending_count < u64::MAX,
        ensures
            final(self).wf(),
            same_reads(
                old(self).store(),
                final(self).store(),
                old(self).pins.watermark(old(self).synced_seq),
            ),
            final(self).layers.active == old(self).layers.active,
            final(self).layers.immutables == old(self).layers.immutables,
            r is Err <==> old(self).apply_scheduler.shut_down && !old(self).at_rest(),
            final(self).pins.pin_counts@ == old(self).pins.pin_counts@,
            final(self).pins.live_snapshot_seqs@ == old(self).pins.live_snapshot_seqs@,
            match r {
                Ok(done) => {
                    &&& exists|n: nat| #[trigger] compaction_chain(*old(self), *final(self), n)
                    &&& final(self).at_rest()
                    &&& done == final(self).compactable()
                    &&& final(self).apply_scheduler == old(self).apply_scheduler
                },
                Err(e) => *final(self) == (Engine {
                    apply_scheduler: final(self).apply_scheduler,
                    ..*old(self)
                }) && (e matches EngineError::Io(m) && m@ == "apply worker shut down"@),
            },
            *final(self) == (Engine {
                layers: final(self).layers,
                next_sstable_id: final(self).next_sstable_id,
                pins: final(self).pins,
                apply_scheduler: final(self).apply_scheduler,
                dir_fsync_pending: final(self).dir_fsync_pending,
                ..*old(self)
            }),
    {
        let ghost w = self.pins.watermark(self.synced_seq);
        let ghost mut n: nat = 0;
        loop
            invariant
                self.wf(),
                n == 0 ==> *self == *old(self),
                n > 0 ==> !old(self).apply_scheduler.shut_down,
                compaction_chain(*old(self), *self, n),
                self.pins.pin_counts@ == old(self).pins.pin_counts@,
                w == old(self).pins.watermark(old(self).synced_seq),
                self.pins.live_snapshot_seqs@ == old(self).pins.live_snapshot_seqs@,
                self.apply_scheduler == old(self).apply_scheduler,
                self.apply_scheduler.pending_count < u64::MAX,
                same_reads(old(self).store(), self.store(), w),
                self.layers.active == old(self).layers.active,
                self.layers.immutables == old(self).layers.immutables,
                *self == (Engine {
                    layers: self.layers,
                    next_sstable_id: self.next_sstable_id,
                    pins: self.pins,
                    dir_fsync_pending: self.dir_fsync_pending,
                    ..*old(self)
                }),
            decreases u64::MAX - self.next_sstable_id, self.layers.tables@.len(),
        {
            if !self.can_compact() {
                return Ok(false);
            }
            let ghost was = *self;
            match self.compact_once() {
                Ok(true) => {},
                Ok(false) => {
                    return Ok(true);
                },
                Err(e) => {
                    return Err(e);
                },
            }
            proof {
                compaction_goes_on(was, *self);
                chain_grows(*old(self), was, *self, n);
                n = n + 1;
                assert(was.pins.watermark(was.synced_seq) == w);
                assert(same_reads(old(self).store(), self.store(), w)) by {
                    assert forall|key: Seq<u8>, upper: u64, now_ms: u64|
                        upper >= w implies #[trigger] value_at(self.store(), key, upper, now_ms)
                        == value_at(old(self).store(), key, upper, now_ms) by {
                        assert(value_at(was.store(), key, upper, now_ms) == value_at(
                            old(self).store(),
                            key,
                            upper,
                            now_ms,
                        ));
                    }
                }
            }
        }
    }
}

proof fn inputs_are_entries(s: Seq<MetaView>, ids: Seq<u64>, i: int)
    requires
        0 <= i < inputs_of(s, ids).len(),
    ensures
        s.contains(inputs_of(s, ids)[i]),
    decreases s.len(),
{
    let front = s.drop_last();
    if i < inputs_of(front, ids).len() {
        inputs_are_entries(front, ids, i);
        let j = choose|j: int| 0 <= j < front.len() && front[j] == inputs_of(front, ids)[i];
        assert(s[j] == inputs_of(front, ids)[i]);
    } else {
        assert(s[s.len() - 1] == s.last());
    }
}

/// A compaction uses a table number, or leaves fewer tables: compactions come to an end.
proof fn compaction_goes_on(before: Engine, after: Engine)
    requires
        before.wf(),
        plannable(before.catalog(), before.cfg.compaction),
        after.compacted_once(&before),
    ensures
        after.next_sstable_id > before.next_sstable_id || (after.next_sstable_id
            == before.next_sstable_id && after.layers.tables@.len() < before.layers.tables@.len()),
{
    let s = before.catalog();
    let tables = before.layers.tables@;
    let (job, m) = next_job(s, before.cfg.compaction)->0;
    let ids = ids_of(m);
    let rule = before.job_rule(job.output_level, ids);
    let files = tables_of(
        packed_all(
            pack_start(),
            input_run(tables, ids),
            rule,
            before.cfg.compaction.target_file_bytes,
        ),
    );
    if files.len() == 0 {
        jobs_have_inputs(s, before.cfg.compaction, job);
        inputs_are_entries(s, job.inputs, 0);
        let j = choose|j: int| 0 <= j < s.len() && s[j] == m[0];
        assert(ids[0] == tables[j].meta.id);
        split_facts(tables, ids);
        assert(tables.contains(tables[j]));
        assert(tables_in(tables, ids).len() > 0);
        assert(numbered_metas(files, before.next_sstable_id, job.output_level) =~= Seq::<
            MetaView,
        >::empty());
        assert(after.catalog() == catalog_of(tables_out(tables, ids)));
        assert(after.catalog().len() == after.layers.tables@.len());
    }
}

/// The update of the catalog and the manifest that a compaction leads to. The log keeps
/// what it has.
pub open spec fn is_compaction_apply(done: CompactionExecuteResult, a: ReadyCatalogApply) -> bool {
    let inputs = meta_views(done.input_metas@);
    &&& record_views(a.manifest_records@) == compaction_records(
        new_metas(done.new_tables@),
        inputs,
    )
    &&& a.add_tables == done.new_tables
    &&& a.remove_sstable_ids@ == ids_of(inputs)
    &&& a.unlink_wal_up_to is None
    &&& a.flush_max_seq is None
    &&& a.compaction == Some(
        CompactionApplyMetrics {
            job: done.job,
            first_id: done.first_id,
            rule: done.rule,
            bytes_read: done.bytes_read,
            bytes_written: done.bytes_written,
            versions_dropped: done.versions_dropped,
            tombstones_dropped: done.tombstones_dropped,
        },
    )
}

/// An engine came out of another by `n` compactions.
pub open spec fn compaction_chain(before: Engine, after: Engine, n: nat) -> bool
    decreases n,
{
    if n == 0 {
        after == before
    } else {
        exists|mid: Engine|
            compaction_chain(before, mid, (n - 1) as nat) && #[trigger] after.compacted_once(&mid)
    }
}

proof fn chain_grows(before: Engine, mid: Engine, after: Engine, n: nat)
    requires
        compaction_chain(before, mid, n),
        after.compacted_once(&mid),
    ensures
        compaction_chain(before, after, n + 1),
{
    let more: nat = n + 1;
    assert((more - 1) as nat == n);
    assert(compaction_chain(before, mid, (more - 1) as nat) && after.compacted_once(&mid));
    assert(compaction_chain(before, after, more));
}

/// What the catalog says of tables numbered from `first_id` on.
pub open spec fn numbered_metas(files: Seq<Seq<Version>>, first_id: u64, level: u8) -> Seq<MetaView> {
    Seq::new(
        files.len(),
        |i: int| crate::sstable::meta_of(files[i], (first_id + i) as u64, level),
    )
}

pub(crate) proof fn catalog_bytes_grow(s: Seq<MetaView>, n: int)
    requires
        0 <= n <= s.len(),
    ensures
        catalog_bytes(s.take(n)) <= catalog_bytes(s),
    decreases s.len(),
{
    if n == s.len() {
        assert(s.take(n) =~= s);
    } else {
        catalog_bytes_grow(s.drop_last(), n);
        assert(s.drop_last().take(n) =~= s.take(n));
    }
}

pub(crate) proof fn total_len_grows(s: Seq<Seq<Version>>, n: int)
    requires
        0 <= n <= s.len(),
    ensures
        total_len(s.take(n)) <= total_len(s),
    decreases s.len(),
{
    if n == s.len() {
        assert(s.take(n) =~= s);
    } else {
        total_len_grows(s.drop_last(), n);
        assert(s.drop_last().take(n) =~= s.take(n));
    }
}

proof fn inserted_outside(s: Seq<LiveTable>, p: int, t: LiveTable, ids: Seq<u64>)
    requires
        0 <= p <= s.len(),
        !ids.contains(t.meta.id),
    ensures
        tables_in(s.insert(p, t), ids) == tables_in(s, ids),
    decreases s.len(),
{
    let b = s.insert(p, t);
    if p == s.len() {
        assert(b.drop_last() =~= s);
        assert(b.last() == t);
    } else {
        assert(b.drop_last() =~= s.drop_last().insert(p, t));
        assert(b.last() == s.last());
        inserted_outside(s.drop_last(), p, t, ids);
    }
}

/// A compaction that waits to be published stays publishable when a flush is published
/// before it, as long as the flush took none of its numbers.
pub proof fn waiting_compaction_survives_flush(
    before: Engine,
    after: Engine,
    a: ReadyCatalogApply,
    p: int,
    t: LiveTable,
)
    requires
        before.compaction_ready(a),
        0 <= p <= before.layers.tables@.len(),
        after.layers.tables@ == before.layers.tables@.insert(p, t),
        after.cfg == before.cfg,
        !a.remove_sstable_ids@.contains(t.meta.id),
        forall|i: int|
            0 <= i < a.add_tables@.len() ==> (#[trigger] a.add_tables@[i]).meta.id != t.meta.id,
        t.wf(),
        forall|i: int|
            0 <= i < before.layers.tables@.len() ==> (#[trigger] before.layers.tables@[i]).wf()
                && t.meta.min_seq > before.layers.tables@[i].meta.max_seq,
    ensures
        after.compaction_ready(a),
{
    let s = before.layers.tables@;
    let ids = a.remove_sstable_ids@;
    let c = a.compaction->0;
    let old_cat = before.catalog();
    let new_cat = after.catalog();
    inserted_outside(s, p, t, ids);
    assert(new_cat =~= old_cat.insert(p, t.meta@));
    assert forall|i: int| 0 <= i < a.add_tables@.len() implies !ids_of(new_cat).contains(
        (#[trigger] a.add_tables@[i]).meta.id,
    ) by {
        let id = a.add_tables@[i].meta.id;
        if ids_of(new_cat).contains(id) {
            let k = choose|k: int| 0 <= k < new_cat.len() && ids_of(new_cat)[k] == id;
            assert(new_cat[k].id == id);
            if k < p {
                assert(ids_of(old_cat)[k] == id);
            } else if k > p {
                assert(ids_of(old_cat)[k - 1] == id);
            }
        }
    }
    if c.rule.drop_tombstones {
        let n = after.layers.tables@;
        split_facts(s, ids);
        split_facts(n, ids);
        assert forall|x: Version, w: Version|
            #![trigger in_tables(tables_in(n, ids), x), in_tables(tables_out(n, ids), w)]
            in_tables(tables_in(n, ids), x) && in_tables(tables_out(n, ids), w) && x.1.value is None
                && c.rule.gc_watermark != 0 && x.0.seq <= c.rule.gc_watermark && w.0.user_key
                == x.0.user_key implies w.0.seq >= x.0.seq by {
            assert(in_tables(tables_in(s, ids), x));
            if !in_tables(tables_out(s, ids), w) {
                let old_out = tables_out(s, ids);
                let out = tables_out(n, ids);
                let i = choose|i: int| 0 <= i < out.len() && (#[trigger] out[i]).reader@.contains(w);
                assert(n.contains(out[i]));
                let k = choose|k: int| 0 <= k < n.len() && n[k] == out[i];
                if k != p {
                    let k2 = if k < p {
                        k
                    } else {
                        k - 1
                    };
                    assert(s[k2] == out[i]);
                    assert(s.contains(s[k2]));
                    let q = choose|q: int| 0 <= q < old_out.len() && old_out[q] == s[k2];
                    assert(old_out[q].reader@.contains(w));
                }
                let ins = tables_in(s, ids);
                let j = choose|j: int| 0 <= j < ins.len() && (#[trigger] ins[j]).reader@.contains(x);
                assert(s.contains(ins[j]));
                let m = choose|m: int| 0 <= m < s.len() && s[m] == ins[j];
                assert(s[m].wf());
            }
        }
    }
}

} // verus!
