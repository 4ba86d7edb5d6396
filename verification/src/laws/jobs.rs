//! Compaction jobs: that a planned job is run, whole, until nothing is left to do.

use vstd::prelude::*;
use crate::bytes::lex_lt;
use crate::compaction::{
    at_level, base, base_facts, chosen_level, chosen_level_facts, ids_where, ids_where_contains,
    metas_overlap, near, oldest_at, oldest_at_facts, plannable, planned, ranges_overlap,
    source_levels, span_max, span_min, CompactionConfig, JobView,
};
use crate::engine::jobs::{inputs_of, makes_progress, next_job};
use crate::engine::Engine;
use crate::laws::planner::{overfull, plans_where_a_level_is_over_its_target, triggered};
use crate::manifest::MetaView;

verus! {

/// No two tables have the same number.
pub open spec fn distinct_ids(s: Seq<MetaView>) -> bool {
    forall|i: int, j: int| 0 <= i < j < s.len() ==> (#[trigger] s[i]).id != (#[trigger] s[j]).id
}

/// Some table has the number.
spec fn has_number(s: Seq<MetaView>, id: u64) -> bool {
    exists|i: int| 0 <= i < s.len() && (#[trigger] s[i]).id == id
}

proof fn selected_once(s: Seq<MetaView>, p: spec_fn(MetaView) -> bool)
    requires
        distinct_ids(s),
    ensures
        ids_where(s, p).no_duplicates(),
    decreases s.len(),
{
    if s.len() > 0 {
        let init = s.drop_last();
        selected_once(init, p);
        let id = s.last().id;
        ids_where_contains(init, p, id);
        if ids_where(init, p).contains(id) {
            let i = choose|i: int| 0 <= i < init.len() && p(#[trigger] init[i]) && init[i].id == id;
            assert(s[i].id == s[s.len() - 1].id);
        }
    }
}

proof fn inputs_are_filtered(s: Seq<MetaView>, ids: Seq<u64>)
    ensures
        inputs_of(s, ids) == s.filter(|m: MetaView| ids.contains(m.id)),
    decreases s.len(),
{
    reveal(Seq::filter);
    if s.len() > 0 {
        inputs_are_filtered(s.drop_last(), ids);
    }
}

proof fn as_many_inputs(s: Seq<MetaView>, ids: Seq<u64>)
    requires
        distinct_ids(s),
        ids.no_duplicates(),
        forall|k: int|
            0 <= k < ids.len() ==> has_number(s, #[trigger] ids[k]),
    ensures
        inputs_of(s, ids).len() == ids.len(),
    decreases s.len(),
{
    if s.len() == 0 {
        if ids.len() > 0 {
            assert(ids[0] == ids[0]);
            let i = choose|i: int| 0 <= i < s.len() && (#[trigger] s[i]).id == ids[0];
            assert(false);
        }
    } else {
        let init = s.drop_last();
        let id = s.last().id;
        if ids.contains(id) {
            let q = choose|q: int| 0 <= q < ids.len() && ids[q] == id;
            let rest = ids.remove(q);
            assert forall|k: int| 0 <= k < rest.len() implies has_number(init, #[trigger] rest[k]) by {
                let kk = if k < q {
                    k
                } else {
                    k + 1
                };
                assert(rest[k] == ids[kk]);
                let i = choose|i: int| 0 <= i < s.len() && (#[trigger] s[i]).id == ids[kk];
                assert(i < init.len());
                assert(init[i].id == rest[k]);
            }
            assert(rest.no_duplicates()) by {
                assert forall|a: int, b: int|
                    0 <= a < rest.len() && 0 <= b < rest.len() && a != b implies rest[a]
                    != rest[b] by {
                    let aa = if a < q {
                        a
                    } else {
                        a + 1
                    };
                    let bb = if b < q {
                        b
                    } else {
                        b + 1
                    };
                    assert(ids[aa] != ids[bb]);
                }
            }
            as_many_inputs(init, rest);
            same_inputs(init, ids, rest, q);
        } else {
            assert forall|k: int| 0 <= k < ids.len() implies has_number(init, #[trigger] ids[k]) by {
                let i = choose|i: int| 0 <= i < s.len() && (#[trigger] s[i]).id == ids[k];
                assert(ids.contains(ids[k]));
                assert(init[i].id == ids[k]);
            }
            as_many_inputs(init, ids);
        }
    }
}

/// A number that no table has takes nothing away.
proof fn same_inputs(s: Seq<MetaView>, ids: Seq<u64>, rest: Seq<u64>, q: int)
    requires
        0 <= q < ids.len(),
        rest == ids.remove(q),
        forall|i: int| 0 <= i < s.len() ==> (#[trigger] s[i]).id != ids[q],
    ensures
        inputs_of(s, rest) == inputs_of(s, ids),
    decreases s.len(),
{
    if s.len() > 0 {
        let init = s.drop_last();
        assert forall|i: int| 0 <= i < init.len() implies (#[trigger] init[i]).id != ids[q] by {
            assert(init[i] == s[i]);
        }
        same_inputs(init, ids, rest, q);
        let id = s[s.len() - 1].id;
        assert(rest.contains(id) <==> ids.contains(id)) by {
            if ids.contains(id) {
                let k = choose|k: int| 0 <= k < ids.len() && ids[k] == id;
                if k < q {
                    assert(rest[k] == id);
                } else {
                    assert(rest[k - 1] == id);
                }
            }
            if rest.contains(id) {
                let k = choose|k: int| 0 <= k < rest.len() && rest[k] == id;
                if k < q {
                    assert(ids[k] == id);
                } else {
                    assert(ids[k + 1] == id);
                }
            }
        }
    }
}

proof fn joined_once(s: Seq<MetaView>, p: spec_fn(MetaView) -> bool, q: spec_fn(MetaView) -> bool)
    requires
        distinct_ids(s),
        forall|m: MetaView| !(#[trigger] p(m) && q(m)),
    ensures
        (ids_where(s, p) + ids_where(s, q)).no_duplicates(),
{
    let a = ids_where(s, p);
    let b = ids_where(s, q);
    selected_once(s, p);
    selected_once(s, q);
    assert forall|x: int, y: int| 0 <= x < a.len() && 0 <= y < b.len() implies a[x] != b[y] by {
        if a[x] == b[y] {
            assert(a.contains(a[x]) && b.contains(a[x]));
            ids_where_contains(s, p, a[x]);
            ids_where_contains(s, q, a[x]);
            let i = choose|i: int| 0 <= i < s.len() && p(#[trigger] s[i]) && s[i].id == a[x];
            let j = choose|j: int| 0 <= j < s.len() && q(#[trigger] s[j]) && s[j].id == a[x];
            assert(i == j);
            assert(p(s[i]) && q(s[i]));
        }
    }
}

proof fn one_and_others(s: Seq<MetaView>, i: int, q: spec_fn(MetaView) -> bool)
    requires
        distinct_ids(s),
        0 <= i < s.len(),
        !q(s[i]),
    ensures
        (seq![s[i].id] + ids_where(s, q)).no_duplicates(),
{
    let b = ids_where(s, q);
    selected_once(s, q);
    assert forall|y: int| 0 <= y < b.len() implies b[y] != s[i].id by {
        if b[y] == s[i].id {
            assert(b.contains(b[y]));
            ids_where_contains(s, q, b[y]);
            let j = choose|j: int| 0 <= j < s.len() && q(#[trigger] s[j]) && s[j].id == b[y];
            assert(i == j);
        }
    }
}

proof fn selected_are_there(s: Seq<MetaView>, p: spec_fn(MetaView) -> bool)
    ensures
        forall|k: int|
            0 <= k < ids_where(s, p).len() ==> has_number(s, #[trigger] ids_where(s, p)[k]),
{
    let a = ids_where(s, p);
    assert forall|k: int| 0 <= k < a.len() implies has_number(s, #[trigger] a[k]) by {
        assert(a.contains(a[k]));
        ids_where_contains(s, p, a[k]);
        let i = choose|i: int| 0 <= i < s.len() && p(#[trigger] s[i]) && s[i].id == a[k];
        assert(s[i].id == a[k]);
    }
}

proof fn planned_inputs(s: Seq<MetaView>, cfg: CompactionConfig, job: JobView)
    requires
        plannable(s, cfg),
        s.len() <= usize::MAX,
        cfg.max_level > 0,
        distinct_ids(s),
        planned(s, cfg) == Some(job),
    ensures
        job.inputs.no_duplicates(),
        forall|k: int|
            0 <= k < job.inputs.len() ==> has_number(s, #[trigger] job.inputs[k]),
{
    let c = chosen_level(s, cfg, source_levels(cfg));
    chosen_level_facts(s, cfg, source_levels(cfg));
    base_facts(s, cfg, 1);
    let n = s.len() as int;
    if c == 0 {
        let to = base(s, cfg);
        let lo = span_min(s, 0)->0;
        let hi = span_max(s, 0)->0;
        let p = at_level(0);
        let q = |m: MetaView| m.level == to && ranges_overlap(m.min_key, m.max_key, lo, hi);
        assert(job.inputs == ids_where(s, p) + ids_where(s, q));
        joined_once(s, p, q);
        selected_are_there(s, p);
        selected_are_there(s, q);
        assert forall|k: int| 0 <= k < job.inputs.len() implies has_number(s, #[trigger] job.inputs[k]) by {
            if k < ids_where(s, p).len() {
                assert(job.inputs[k] == ids_where(s, p)[k]);
            } else {
                assert(job.inputs[k] == ids_where(s, q)[k - ids_where(s, p).len()]);
            }
        }
    } else {
        let level = if c > 0 {
            c
        } else {
            cfg.max_level as int
        };
        let i = oldest_at(s, level, n);
        oldest_at_facts(s, level, n);
        let q = if c > 0 {
            near(level + 1, s[i], false)
        } else {
            near(level, s[i], true)
        };
        assert(job.inputs == seq![s[i].id] + ids_where(s, q));
        one_and_others(s, i, q);
        selected_are_there(s, q);
        assert forall|k: int| 0 <= k < job.inputs.len() implies has_number(s, #[trigger] job.inputs[k]) by {
            if k == 0 {
                assert(s[i].id == job.inputs[k]);
            } else {
                assert(job.inputs[k] == ids_where(s, q)[k - 1]);
            }
        }
    }
}

/// Where the tables' numbers differ, whatever is planned is run: with a level above
/// its target, or level 0 at its trigger, there is a job to run. The job takes in the
/// very tables of the catalog that the plan names, each once, in the catalog's order.
pub proof fn what_is_planned_is_run(s: Seq<MetaView>, cfg: CompactionConfig)
    requires
        plannable(s, cfg),
        s.len() <= usize::MAX,
        cfg.max_level > 0,
        distinct_ids(s),
    ensures
        forall|n: int| #[trigger] overfull(s, cfg, n) ==> next_job(s, cfg) is Some,
        triggered(s, cfg) ==> next_job(s, cfg) is Some,
        planned(s, cfg) is Some <==> next_job(s, cfg) is Some,
        next_job(s, cfg) matches Some((job, m)) ==> {
            &&& planned(s, cfg) == Some(job)
            &&& m == s.filter(|t: MetaView| job.inputs.contains(t.id))
            &&& m.len() == job.inputs.len()
            &&& job.inputs.no_duplicates()
        },
{
    plans_where_a_level_is_over_its_target(s, cfg);
    if let Some(job) = planned(s, cfg) {
        planned_inputs(s, cfg, job);
        as_many_inputs(s, job.inputs);
        inputs_are_filtered(s, job.inputs);
        crate::compaction::jobs_go_down(s, cfg, job);
    }
}

/// Merging tables within a level achieves nothing where there are fewer than two, or where
/// each has at least half of the size aimed at and all lie apart: of any two, one ends
/// before the other begins.
pub proof fn merging_tables_that_lie_apart_achieves_nothing(s: Seq<MetaView>, target: u64)
    ensures
        s.len() < 2 ==> !makes_progress(s, target),
        (forall|i: int| 0 <= i < s.len() ==> (#[trigger] s[i]).size_bytes >= target / 2) && (forall|
            i: int,
            j: int,
        |
            0 <= i < j < s.len() ==> lex_lt((#[trigger] s[i]).max_key, (#[trigger] s[j]).min_key)
                || lex_lt(s[j].max_key, s[i].min_key)) ==> !makes_progress(s, target),
        s.len() >= 2 && (exists|i: int|
            0 <= i < s.len() && (#[trigger] s[i]).size_bytes < target / 2) ==> makes_progress(
            s,
            target,
        ),
        s.len() >= 2 && (exists|i: int, j: int|
            0 <= i < j < s.len() && !lex_lt((#[trigger] s[i]).max_key, (#[trigger] s[j]).min_key)
                && !lex_lt(s[j].max_key, s[i].min_key)) ==> makes_progress(s, target),
{
    if s.len() >= 2 && exists|i: int, j: int|
        0 <= i < j < s.len() && !lex_lt((#[trigger] s[i]).max_key, (#[trigger] s[j]).min_key)
            && !lex_lt(s[j].max_key, s[i].min_key) {
        let (i, j) = choose|i: int, j: int|
            0 <= i < j < s.len() && !lex_lt((#[trigger] s[i]).max_key, (#[trigger] s[j]).min_key)
                && !lex_lt(s[j].max_key, s[i].min_key);
        assert(metas_overlap(s[i], s[j]));
    }
}

/// The tables of an engine have numbers of their own, each below the next to be given.
pub proof fn tables_have_their_numbers(e: Engine)
    requires
        e.wf(),
    ensures
        distinct_ids(e.catalog()),
        e.catalog().len() <= usize::MAX,
        forall|i: int|
            0 <= i < e.catalog().len() ==> (#[trigger] e.catalog()[i]).id < e.next_sstable_id,
{
    assert(e.layers.tables.len() <= usize::MAX);
    assert forall|i: int, j: int| 0 <= i < j < e.catalog().len() implies (
    #[trigger] e.catalog()[i]).id != (#[trigger] e.catalog()[j]).id by {
        assert(e.layers.tables@[i].meta.id < e.layers.tables@[j].meta.id);
    }
    assert forall|i: int| 0 <= i < e.catalog().len() implies (#[trigger] e.catalog()[i]).id
        < e.next_sstable_id by {
        assert(e.layers.tables@[i].meta.id < e.next_sstable_id);
    }
}

/// An engine whose compactions have come to rest, with no worker at it, has no level
/// above its target and level 0 below its trigger.
pub proof fn at_rest_no_level_is_over_its_target(e: Engine)
    requires
        e.wf(),
        e.at_rest(),
        e.compactable(),
        !e.compaction_scheduler.worker_busy,
        e.cfg.compaction.max_level > 0,
    ensures
        !triggered(e.catalog(), e.cfg.compaction),
        forall|n: int| !(#[trigger] overfull(e.catalog(), e.cfg.compaction, n)),
{
    tables_have_their_numbers(e);
    what_is_planned_is_run(e.catalog(), e.cfg.compaction);
}

} // verus!
