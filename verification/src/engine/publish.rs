//! Whether a finished job still fits the engine that is to take it up.

use vstd::prelude::*;
use crate::apply_worker::{CompactionApplyMetrics, ReadyCatalogApply};
use crate::bytes::bytes_eq;
use crate::compaction::{contains_id, CompactionJob};
use crate::compaction_worker::{
    execute_compaction, output_holds_survivors, pack_start, packed_all, run_views, tables_match,
    tables_of, CompactionExecuteResult, NewTable,
};
use crate::engine::compact::{input_run, input_run_facts, tables_cohere, tables_in};
use crate::engine::jobs::{selected_len, total_len_grows};
use crate::engine::read::ids_of;
use crate::engine::Engine;
use crate::entry::{entries_agree, Entry};
use crate::iter::{merge_keeps_every_version, total_len, ScanDirection};
use crate::keys::{keys_agree, InternalKey};
use crate::manifest::SstableMeta;
use crate::records::{sorted, versions, Version};
use crate::snapshot::table_runs;
use crate::sstable::{describe_pairs, meta_of};

verus! {

/// Whether two runs are the same.
fn runs_agree(a: &[(InternalKey, Entry)], b: &[(InternalKey, Entry)]) -> (r: bool)
    ensures
        r == (versions(a@) == versions(b@)),
{
    let ghost s = versions(a@);
    let ghost t = versions(b@);
    if a.len() != b.len() {
        assert(s.len() != t.len());
        return false;
    }
    let mut i: usize = 0;
    while i < a.len()
        invariant
            i <= a@.len() == b@.len(),
            s == versions(a@),
            t == versions(b@),
            forall|j: int| 0 <= j < i ==> s[j] == #[trigger] t[j],
        decreases a.len() - i,
    {
        if !keys_agree(&a[i].0, &b[i].0) || !entries_agree(&a[i].1, &b[i].1) {
            assert(s[i as int] != t[i as int]);
            return false;
        }
        assert(s[i as int] == t[i as int]);
        i = i + 1;
    }
    assert(s =~= t);
    true
}

/// Whether two catalog entries are the same.
fn metas_agree(a: &SstableMeta, b: &SstableMeta) -> (r: bool)
    ensures
        r == (a@ == b@),
{
    a.id == b.id && a.level == b.level && a.min_seq == b.min_seq && a.max_seq == b.max_seq
        && a.size_bytes == b.size_bytes && bytes_eq(a.min_key.as_slice(), b.min_key.as_slice())
        && bytes_eq(a.max_key.as_slice(), b.max_key.as_slice())
}

/// Whether new tables are the tables that were made again.
fn made_again(
    made: &Vec<NewTable>,
    again: &Vec<NewTable>,
    Ghost(files): Ghost<Seq<Seq<Version>>>,
    Ghost(first_id): Ghost<u64>,
    Ghost(level): Ghost<u8>,
) -> (r: bool)
    requires
        forall|i: int| 0 <= i < made@.len() ==> (#[trigger] made@[i]).reader.wf(),
        tables_match(again@, files, first_id, level),
    ensures
        r == tables_match(made@, files, first_id, level),
{
    if made.len() != again.len() {
        return false;
    }
    let mut i: usize = 0;
    while i < made.len()
        invariant
            i <= made@.len() == again@.len() == files.len(),
            tables_match(again@, files, first_id, level),
            forall|j: int|
                0 <= j < i ==> (#[trigger] made@[j]).reader@ == again@[j].reader@ && made@[j].meta@
                    == again@[j].meta@,
        decreases made.len() - i,
    {
        let same: bool = metas_agree(&made[i].meta, &again[i].meta) && runs_agree(
            made[i].reader.full_iter(),
            again[i].reader.full_iter(),
        );
        if !same {
            assert(again@[i as int].reader@ == files[i as int]);
            return false;
        }
        i = i + 1;
    }
    assert forall|j: int| 0 <= j < made@.len() implies (#[trigger] made@[j]).reader.wf()
        && made@[j].reader@ == files[j] && made@[j].meta@ == meta_of(
        files[j],
        (first_id + j) as u64,
        level,
    ) by {
        assert(again@[j].reader@ == files[j]);
    }
    true
}

impl Engine {
    /// The versions of all tables can be counted, and tables numbered from `first_id`
    /// on.
    pub open spec fn can_remake(&self, first_id: u64) -> bool {
        &&& total_len(table_runs(self.layers.tables@)) * 10 <= usize::MAX
        &&& first_id + total_len(table_runs(self.layers.tables@)) < u64::MAX
    }

    /// Whether the versions of all tables can be counted, and tables numbered from
    /// `first_id` on.
    fn fits_remake(&self, first_id: u64) -> (r: bool)
        ensures
            r == self.can_remake(first_id),
    {
        let ghost s = self.layers.tables@;
        let ghost runs = table_runs(s);
        let mut len: usize = 0;
        let mut i: usize = 0;
        assert(runs.take(0) =~= Seq::<Seq<Version>>::empty());
        while i < self.layers.tables.len()
            invariant
                i <= s.len(),
                s == self.layers.tables@,
                runs == table_runs(s),
                len == total_len(runs.take(i as int)),
            decreases self.layers.tables.len() - i,
        {
            let n: usize = self.layers.tables[i].reader.full_iter().len();
            proof {
                assert(runs.take(i + 1).drop_last() =~= runs.take(i as int));
                assert(runs.take(i + 1).last() == s[i as int].reader@);
                total_len_grows(runs, i + 1);
            }
            match len.checked_add(n) {
                Some(sum) => {
                    len = sum;
                },
                None => {
                    return false;
                },
            }
            i = i + 1;
        }
        assert(runs.take(runs.len() as int) =~= runs);
        len <= usize::MAX / 10 && (len as u64) < u64::MAX - first_id
    }

    /// Whether an update is that of a flush of the oldest frozen memtable.
    fn is_flush_of_front(&self, a: &ReadyCatalogApply) -> (r: bool)
        requires
            self.wf(),
            forall|i: int|
                0 <= i < a.add_tables@.len() ==> (#[trigger] a.add_tables@[i]).reader.wf(),
        ensures
            r == self.flush_ready(*a),
    {
        if a.compaction.is_some() || a.add_tables.len() != 1 || a.remove_sstable_ids.len() != 0
            || self.layers.immutables.len() == 0 {
            return false;
        }
        let run: &[(InternalKey, Entry)] = self.layers.immutables[0].iter();
        let t: &NewTable = &a.add_tables[0];
        assert(*t == a.add_tables@[0]);
        if run.len() == 0 {
            assert(versions(run@).len() == 0);
            return false;
        }
        assert(versions(run@).len() > 0);
        let meta: SstableMeta = describe_pairs(run, t.meta.id, 0);
        let made: bool = runs_agree(t.reader.full_iter(), run) && metas_agree(&t.meta, &meta);
        let top: bool = match a.flush_max_seq {
            Some(n) => n == meta.max_seq,
            None => false,
        };
        let ids: Vec<u64> = self.table_ids();
        made && top && t.meta.id < u64::MAX && !contains_id(&ids, t.meta.id)
    }

    /// Whether an update is that of a compaction of the tables as they stand. The tables
    /// are made again to see whether they are the same.
    fn is_compaction_of_tables(&self, a: &ReadyCatalogApply, c: &CompactionApplyMetrics) -> (r: bool)
        requires
            self.wf(),
            a.compaction == Some(*c),
            self.can_remake(c.first_id),
            forall|i: int|
                0 <= i < a.add_tables@.len() ==> (#[trigger] a.add_tables@[i]).reader.wf(),
        ensures
            r == self.compaction_ready(*a),
    {
        let ids: &Vec<u64> = &a.remove_sstable_ids;
        let all: Vec<u64> = self.table_ids();
        if a.flush_max_seq.is_some() {
            return false;
        }
        let mut i: usize = 0;
        while i < a.add_tables.len()
            invariant
                i <= a.add_tables@.len(),
                all@ == ids_of(self.catalog()),
                forall|j: int|
                    0 <= j < i ==> !all@.contains((#[trigger] a.add_tables@[j]).meta.id),
            decreases a.add_tables.len() - i,
        {
            if contains_id(&all, a.add_tables[i].meta.id) {
                assert(all@.contains(a.add_tables@[i as int].meta.id));
                return false;
            }
            i = i + 1;
        }
        if c.rule.drop_tombstones && !self.hides_nothing_outside(ids, c.rule.gc_watermark) {
            return false;
        }
        let level: u8 = c.job.output_level;
        let job = CompactionJob {
            inputs: Vec::new(),
            input_level: level,
            output_level: level,
            priority_score: c.job.priority_score,
        };
        let ghost s = self.layers.tables@;
        let ghost runs = table_runs(tables_in(s, ids@));
        let sources: Vec<Vec<(InternalKey, Entry)>> = self.compaction_sources(ids);
        proof {
            tables_cohere(self.layers);
            input_run_facts(s, ids@);
            selected_len(s, ids@);
            assert forall|i: int| 0 <= i < sources@.len() implies sorted(
                versions((#[trigger] sources@[i])@),
            ) by {
                assert(run_views(sources@)[i] == runs[i]);
                assert(sorted(runs[i]));
            }
            merge_keeps_every_version(runs, ScanDirection::Forward);
            output_holds_survivors(
                input_run(s, ids@),
                c.rule,
                self.cfg.compaction.target_file_bytes,
            );
        }
        let done: CompactionExecuteResult = execute_compaction(
            job,
            Vec::new(),
            sources,
            &self.cfg.compaction,
            c.first_id,
            c.rule,
        );
        let ghost files = tables_of(
            packed_all(
                pack_start(),
                input_run(s, ids@),
                c.rule,
                self.cfg.compaction.target_file_bytes,
            ),
        );
        made_again(&a.add_tables, &done.new_tables, Ghost(files), Ghost(c.first_id), Ghost(level))
    }

    /// Whether a finished job fits the engine as it stands, so that it can be published:
    /// a flush is one of the oldest frozen memtable, and a compaction makes just its
    /// tables of those that it replaces.
    pub fn can_publish(&self, a: &ReadyCatalogApply) -> (r: bool)
        requires
            self.wf(),
            forall|i: int|
                0 <= i < a.add_tables@.len() ==> (#[trigger] a.add_tables@[i]).reader.wf(),
        ensures
            r ==> self.flush_ready(*a) || self.compaction_ready(*a),
            (a.compaction matches Some(c) ==> self.can_remake(c.first_id)) ==> r == (
            self.flush_ready(*a) || self.compaction_ready(*a)),
    {
        match &a.compaction {
            None => self.is_flush_of_front(a),
            Some(c) => self.fits_remake(c.first_id) && self.is_compaction_of_tables(a, c),
        }
    }
}

} // verus!
