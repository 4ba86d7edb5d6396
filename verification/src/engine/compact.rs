//! Compaction of the engine's tables.

use std::sync::Arc;
use vstd::prelude::*;
use crate::bytes::lex_lt_irreflexive;
use crate::compaction::contains_id;
use crate::compaction_worker::{
    compacted, compaction_keeps_survivors, joined, output_holds_survivors, pack_start, packed_all,
    seen_covered, stays, tables_match, tables_of, DropRule, NewTable,
};
use crate::engine::maintain::{catalog_with, top_seq_attained};
use crate::engine::read::ids_of;
use crate::engine::{
    all_above, cached_result_holds, catalog_of, in_frozen, in_sequence, in_tables, memtables_of,
    numbered, store_cases, tables_below, Engine,
};
use crate::iter::{merge_is_sorted, merged_once, merged_once_holds, total_len};
use crate::keys::key_lt_irreflexive;
use crate::manifest::{larger, MetaView};
use crate::records::{sorted, visible, Version};
use crate::snapshot::{table_runs, Layers, LiveTable};
use crate::sstable::{meta_of_describes, top_seq};
use crate::store::{
    better, coherent, holds, lookup_is_newest, newest, newest_is, newest_is_none, newest_of_two,
    newest_or_none, proper, union_of, value_at,
};

verus! {

/// Readers at or above the ceiling `w` get the same from both stores.
pub open spec fn same_reads(a: Set<Version>, b: Set<Version>, w: u64) -> bool {
    forall|key: Seq<u8>, upper: u64, now_ms: u64|
        upper >= w ==> #[trigger] value_at(b, key, upper, now_ms) == value_at(
            a,
            key,
            upper,
            now_ms,
        )
}

/// Of every key the newest version under a ceiling, or the fact that there is none, can
/// be found.
pub proof fn newest_exists(runs: Seq<Seq<Version>>, key: Seq<u8>, upper: u64) -> (r: Option<Version>)
    ensures
        newest_or_none(union_of(runs), key, upper, r),
    decreases runs.len(),
{
    if runs.len() == 0 {
        assert(union_of(runs) =~= Set::empty());
        None
    } else {
        let init = runs.drop_last();
        let a = newest_exists(init, key, upper);
        let b = newest_in_run(runs.last(), key, upper);
        newest_of_two(union_of(init), runs.last().to_set(), key, upper, a, b);
        assert forall|v: Version| #[trigger] union_of(runs).contains(v) <==> union_of(init).union(
            runs.last().to_set(),
        ).contains(v) by {
            if holds(runs, v) {
                let i = choose|i: int| 0 <= i < runs.len() && (#[trigger] runs[i]).contains(v);
                if i < init.len() {
                    assert(init[i].contains(v));
                }
            }
            if holds(init, v) {
                let i = choose|i: int| 0 <= i < init.len() && (#[trigger] init[i]).contains(v);
                assert(runs[i].contains(v));
            }
            if runs.last().contains(v) {
                assert(runs[runs.len() - 1].contains(v));
            }
        }
        assert(union_of(runs) =~= union_of(init).union(runs.last().to_set()));
        better(a, b)
    }
}

proof fn newest_in_run(s: Seq<Version>, key: Seq<u8>, upper: u64) -> (r: Option<Version>)
    ensures
        newest_or_none(s.to_set(), key, upper, r),
    decreases s.len(),
{
    if s.len() == 0 {
        assert forall|w: Version| #[trigger] s.to_set().contains(w) implies !visible(w, key, upper) by {
            assert(s.contains(w));
        }
        None
    } else {
        let init = s.drop_last();
        let a = newest_in_run(init, key, upper);
        let one = seq![s.last()];
        let b = if visible(s.last(), key, upper) {
            Some(s.last())
        } else {
            None
        };
        assert(newest_or_none(one.to_set(), key, upper, b)) by {
            assert(one[0] == s.last());
            assert(one.contains(s.last()));
            assert forall|w: Version| #[trigger] one.to_set().contains(w) implies w == s.last() by {
                assert(one.contains(w));
            }
        }
        newest_of_two(init.to_set(), one.to_set(), key, upper, a, b);
        assert forall|v: Version| #[trigger] s.to_set().contains(v) <==> init.to_set().union(
            one.to_set(),
        ).contains(v) by {
            if s.contains(v) {
                let i = choose|i: int| 0 <= i < s.len() && s[i] == v;
                if i < init.len() {
                    assert(init[i] == v);
                } else {
                    assert(one[0] == v);
                }
            }
            if init.contains(v) {
                let i = choose|i: int| 0 <= i < init.len() && init[i] == v;
                assert(s[i] == v);
            }
            if one.contains(v) {
                assert(s[s.len() - 1] == v);
            }
        }
        assert(s.to_set() =~= init.to_set().union(one.to_set()));
        better(a, b)
    }
}

/// A part of a coherent store is coherent.
pub proof fn coherent_part(a: Set<Version>, b: Set<Version>)
    requires
        coherent(a),
        b.subset_of(a),
    ensures
        coherent(b),
{
    assert forall|v: Version| #[trigger] b.contains(v) implies proper(v) by {
        assert(a.contains(v));
    }
    assert forall|v: Version, w: Version|
        #![trigger b.contains(v), b.contains(w)]
        b.contains(v) && b.contains(w) && v.0.user_key == w.0.user_key && v.0.seq
            == w.0.seq implies v == w by {
        assert(a.contains(v) && a.contains(w));
    }
}

/// A tombstone that compaction drops hides nothing outside the compacted tables.
pub open spec fn drop_is_safe(rest: Set<Version>, s: Seq<Version>, rule: DropRule) -> bool {
    rule.drop_tombstones ==> forall|t: Version, w: Version|
        #![trigger s.contains(t), rest.contains(w)]
        s.contains(t) && rest.contains(w) && t.1.value is None && rule.covers(t.0.seq)
            && w.0.user_key == t.0.user_key ==> w.0.seq >= t.0.seq
}

/// Compacting a part of the store does not change what readers at or above the
/// watermark get.
pub proof fn compaction_keeps_reads(
    rest: Set<Version>,
    s: Seq<Version>,
    rule: DropRule,
    key: Seq<u8>,
    upper: u64,
    r: Option<Version>,
)
    requires
        sorted(s),
        coherent(rest.union(s.to_set())),
        drop_is_safe(rest, s, rule),
        upper >= rule.gc_watermark,
        newest_or_none(rest.union(s.to_set()), key, upper, r),
    ensures
        ({
            let after = newest(rest.union(compacted(s, rule).to_set()), key, upper);
            match r {
                Some(v) => if v.1.value is Some {
                    after == Some(v)
                } else {
                    after matches Some(w) ==> w.1.value is None
                },
                None => after is None,
            }
        }),
{
    let c = compacted(s, rule);
    let old_s = rest.union(s.to_set());
    let new_s = rest.union(c.to_set());
    compaction_keeps_survivors(s, rule);
    assert forall|w: Version| #[trigger] new_s.contains(w) implies old_s.contains(w) by {
        if c.contains(w) {
            let i = choose|i: int| 0 <= i < s.len() && #[trigger] stays(s, rule, i) && s[i] == w;
            assert(s.contains(w));
        }
    }
    coherent_part(old_s, new_s);
    match r {
        None => {
            newest_is_none(new_s, key, upper);
        },
        Some(v) => {
            if new_s.contains(v) {
                newest_is(new_s, key, upper, v);
            } else {
                assert(!rest.contains(v));
                assert(s.contains(v));
                let i = choose|i: int| 0 <= i < s.len() && s[i] == v;
                assert(!stays(s, rule, i)) by {
                    if stays(s, rule, i) {
                        assert(c.contains(v));
                    }
                }
                assert(!seen_covered(s, rule, i, key)) by {
                    if seen_covered(s, rule, i, key) {
                        let j = choose|j: int|
                            0 <= j < i && (#[trigger] s[j]).0.user_key == key && rule.covers(
                                s[j].0.seq,
                            );
                        assert(s.contains(s[j]));
                        assert(old_s.contains(s[j]));
                        assert(s[j].0.lt(s[i].0));
                        lex_lt_irreflexive(key);
                        assert(s[j].0.seq == v.0.seq);
                        assert(s[j] == v);
                        key_lt_irreflexive(v.0);
                    }
                }
                assert(v.1.value is None && rule.covers(v.0.seq) && rule.drop_tombstones);
                assert forall|w: Version| #[trigger] new_s.contains(w) implies !visible(
                    w,
                    key,
                    upper,
                ) by {
                    if visible(w, key, upper) {
                        assert(old_s.contains(w));
                        if rest.contains(w) {
                            assert(w.0.seq >= v.0.seq);
                            assert(w == v);
                        } else {
                            assert(c.contains(w));
                            let k = choose|k: int|
                                0 <= k < s.len() && #[trigger] stays(s, rule, k) && s[k] == w;
                            lex_lt_irreflexive(key);
                            if k < i {
                                assert(s[k].0.lt(s[i].0));
                                assert(w.0.seq == v.0.seq);
                                assert(w == v);
                                key_lt_irreflexive(v.0);
                            } else if k > i {
                                assert(seen_covered(s, rule, k, key)) by {
                                    assert(s[i].0.user_key == key && rule.covers(s[i].0.seq));
                                }
                                assert(s[i].0.lt(s[k].0));
                            }
                        }
                    }
                }
                newest_is_none(new_s, key, upper);
            }
        },
    }
}

/// The tables whose numbers are among `ids`.
pub open spec fn tables_in(s: Seq<LiveTable>, ids: Seq<u64>) -> Seq<LiveTable>
    decreases s.len(),
{
    if s.len() == 0 {
        s
    } else if ids.contains(s.last().meta.id) {
        tables_in(s.drop_last(), ids).push(s.last())
    } else {
        tables_in(s.drop_last(), ids)
    }
}

/// The tables whose numbers are not among `ids`.
pub open spec fn tables_out(s: Seq<LiveTable>, ids: Seq<u64>) -> Seq<LiveTable>
    decreases s.len(),
{
    if s.len() == 0 {
        s
    } else if ids.contains(s.last().meta.id) {
        tables_out(s.drop_last(), ids)
    } else {
        tables_out(s.drop_last(), ids).push(s.last())
    }
}

/// The versions of the tables to be compacted, merged, each of them once.
pub open spec fn input_run(s: Seq<LiveTable>, ids: Seq<u64>) -> Seq<Version> {
    merged_once(table_runs(tables_in(s, ids)))
}

pub(crate) proof fn split_facts(s: Seq<LiveTable>, ids: Seq<u64>)
    ensures
        forall|i: int|
            0 <= i < tables_in(s, ids).len() ==> s.contains(#[trigger] tables_in(s, ids)[i])
                && ids.contains(tables_in(s, ids)[i].meta.id),
        forall|i: int|
            0 <= i < tables_out(s, ids).len() ==> s.contains(#[trigger] tables_out(s, ids)[i])
                && !ids.contains(tables_out(s, ids)[i].meta.id),
        forall|t: LiveTable| #[trigger] s.contains(t) ==> if ids.contains(t.meta.id) {
            tables_in(s, ids).contains(t)
        } else {
            tables_out(s, ids).contains(t)
        },
        tables_in(s, ids).len() + tables_out(s, ids).len() == s.len(),
    decreases s.len(),
{
    if s.len() > 0 {
        let t = s.drop_last();
        let x = s.last();
        split_facts(t, ids);
        let a = tables_in(s, ids);
        let b = tables_out(s, ids);
        let a0 = tables_in(t, ids);
        let b0 = tables_out(t, ids);
        assert forall|i: int| 0 <= i < a.len() implies s.contains(#[trigger] a[i]) && ids.contains(
            a[i].meta.id,
        ) by {
            if i < a0.len() {
                assert(a[i] == a0[i]);
                assert(t.contains(a0[i]));
                let k = choose|k: int| 0 <= k < t.len() && t[k] == a0[i];
                assert(s[k] == a[i]);
            } else {
                assert(s[s.len() - 1] == x);
            }
        }
        assert forall|i: int| 0 <= i < b.len() implies s.contains(#[trigger] b[i]) && !ids.contains(
            b[i].meta.id,
        ) by {
            if i < b0.len() {
                assert(b[i] == b0[i]);
                assert(t.contains(b0[i]));
                let k = choose|k: int| 0 <= k < t.len() && t[k] == b0[i];
                assert(s[k] == b[i]);
            } else {
                assert(s[s.len() - 1] == x);
            }
        }
        assert forall|y: LiveTable| #[trigger] s.contains(y) implies if ids.contains(y.meta.id) {
            a.contains(y)
        } else {
            b.contains(y)
        } by {
            let k = choose|k: int| 0 <= k < s.len() && s[k] == y;
            if k < t.len() {
                assert(t[k] == y);
                assert(t.contains(y));
                if ids.contains(y.meta.id) {
                    let j = choose|j: int| 0 <= j < a0.len() && a0[j] == y;
                    assert(a[j] == y);
                } else {
                    let j = choose|j: int| 0 <= j < b0.len() && b0[j] == y;
                    assert(b[j] == y);
                }
            } else {
                if ids.contains(y.meta.id) {
                    assert(a[a.len() - 1] == y);
                } else {
                    assert(b[b.len() - 1] == y);
                }
            }
        }
    }
}

/// The parts of numbered tables are numbered.
proof fn split_numbered(s: Seq<LiveTable>, ids: Seq<u64>, next: u64)
    requires
        numbered(s, next),
    ensures
        numbered(tables_in(s, ids), next),
        numbered(tables_out(s, ids), next),
    decreases s.len(),
{
    if s.len() > 0 {
        let t = s.drop_last();
        assert(numbered(t, next)) by {
            assert forall|i: int, j: int| 0 <= i < j < t.len() implies (#[trigger] t[i]).meta.id < (
            #[trigger] t[j]).meta.id by {
                assert(s[i].meta.id < s[j].meta.id);
            }
            assert forall|i: int| 0 <= i < t.len() implies (#[trigger] t[i]).meta.id < next by {
                assert(s[i].meta.id < next);
            }
        }
        split_numbered(t, ids, next);
        split_facts(t, ids);
        let x = s.last();
        assert forall|y: LiveTable| t.contains(y) implies y.meta.id < x.meta.id by {
            let k = choose|k: int| 0 <= k < t.len() && t[k] == y;
            assert(s[k].meta.id < s[s.len() - 1].meta.id);
        }
        assert(s[s.len() - 1].meta.id < next);
        let a0 = tables_in(t, ids);
        let b0 = tables_out(t, ids);
        let a = tables_in(s, ids);
        let b = tables_out(s, ids);
        assert forall|i: int, j: int| 0 <= i < j < a.len() implies (#[trigger] a[i]).meta.id < (
        #[trigger] a[j]).meta.id by {
            if j < a0.len() {
                assert(a0[i].meta.id < a0[j].meta.id);
            } else {
                assert(t.contains(a0[i]));
            }
        }
        assert forall|i: int, j: int| 0 <= i < j < b.len() implies (#[trigger] b[i]).meta.id < (
        #[trigger] b[j]).meta.id by {
            if j < b0.len() {
                assert(b0[i].meta.id < b0[j].meta.id);
            } else {
                assert(t.contains(b0[i]));
            }
        }
        assert forall|i: int| 0 <= i < a.len() implies (#[trigger] a[i]).meta.id < next by {
            if i < a0.len() {
                assert(a0[i].meta.id < next);
            }
        }
        assert forall|i: int| 0 <= i < b.len() implies (#[trigger] b[i]).meta.id < next by {
            if i < b0.len() {
                assert(b0[i].meta.id < next);
            }
        }
    }
}

/// The inputs of a compaction merge into a sorted run of just their versions.
pub(crate) proof fn input_run_facts(s: Seq<LiveTable>, ids: Seq<u64>)
    requires
        coherent(union_of(table_runs(s))),
        forall|i: int| 0 <= i < s.len() ==> (#[trigger] s[i]).wf(),
    ensures
        sorted(input_run(s, ids)),
        input_run(s, ids).len() <= total_len(table_runs(tables_in(s, ids))),
        forall|v: Version| #[trigger]
            input_run(s, ids).contains(v) <==> in_tables(tables_in(s, ids), v),
        forall|i: int|
            0 <= i < tables_in(s, ids).len() ==> sorted(
                #[trigger] table_runs(tables_in(s, ids))[i],
            ),
{
    let a = tables_in(s, ids);
    let ra = table_runs(a);
    let all = table_runs(s);
    split_facts(s, ids);
    assert forall|i: int| 0 <= i < ra.len() implies sorted(#[trigger] ra[i]) by {
        assert(s.contains(a[i]));
        let k = choose|k: int| 0 <= k < s.len() && s[k] == a[i];
        assert(s[k].wf());
        a[i].reader.lemma_sorted();
    }
    assert forall|i: int, j: int, x: Version, y: Version|
        #![trigger ra[i].contains(x), ra[j].contains(y)]
        0 <= i < ra.len() && 0 <= j < ra.len() && ra[i].contains(x) && ra[j].contains(y) && x.0
            == y.0 implies x == y by {
        assert(s.contains(a[i]) && s.contains(a[j]));
        let k = choose|k: int| 0 <= k < s.len() && s[k] == a[i];
        let q = choose|q: int| 0 <= q < s.len() && s[q] == a[j];
        assert(all[k].contains(x) && all[q].contains(y));
        assert(union_of(all).contains(x) && union_of(all).contains(y));
    }
    merge_is_sorted(ra);
    assert forall|v: Version| #[trigger] input_run(s, ids).contains(v) <==> in_tables(a, v) by {
        merged_once_holds(ra, v);
        if input_run(s, ids).contains(v) {
            let i = choose|i: int| 0 <= i < ra.len() && (#[trigger] ra[i]).contains(v);
            assert(a[i].reader@.contains(v));
        }
        if in_tables(a, v) {
            let i = choose|i: int| 0 <= i < a.len() && (#[trigger] a[i]).reader@.contains(v);
            assert(ra[i].contains(v));
        }
    }
}

/// The tables of a coherent store are coherent among themselves.
pub(crate) proof fn tables_cohere(l: Layers)
    requires
        coherent(l.store()),
    ensures
        coherent(union_of(table_runs(l.tables@))),
{
    let runs = table_runs(l.tables@);
    assert forall|v: Version| #[trigger] union_of(runs).contains(v) implies l.store().contains(v) by {
        let i = choose|i: int| 0 <= i < runs.len() && (#[trigger] runs[i]).contains(v);
        assert(l.tables@[i].reader@.contains(v));
        store_cases(l, v);
    }
    coherent_part(l.store(), union_of(runs));
}

/// The versions outside the tables to be compacted.
pub open spec fn rest_of(l: Layers, ids: Seq<u64>) -> Set<Version> {
    Set::new(
        |v: Version|
            l.active@.contains(v) || in_frozen(l, v) || in_tables(tables_out(l.tables@, ids), v),
    )
}

/// The store is what is compacted and the rest.
proof fn store_splits(l: Layers, ids: Seq<u64>)
    requires
        l.wf(),
    ensures
        l.store() == rest_of(l, ids).union(input_run(l.tables@, ids).to_set()),
{
    let s = l.tables@;
    let a = tables_in(s, ids);
    let b = tables_out(s, ids);
    tables_cohere(l);
    input_run_facts(s, ids);
    split_facts(s, ids);
    assert forall|v: Version| #[trigger] l.store().contains(v) <==> rest_of(l, ids).union(
        input_run(s, ids).to_set(),
    ).contains(v) by {
        store_cases(l, v);
        assert(input_run(s, ids).contains(v) <==> in_tables(a, v));
        if in_tables(s, v) {
            let i = choose|i: int| 0 <= i < s.len() && (#[trigger] s[i]).reader@.contains(v);
            assert(s.contains(s[i]));
            if ids.contains(s[i].meta.id) {
                let j = choose|j: int| 0 <= j < a.len() && a[j] == s[i];
                assert(a[j].reader@.contains(v));
            } else {
                let j = choose|j: int| 0 <= j < b.len() && b[j] == s[i];
                assert(b[j].reader@.contains(v));
            }
        }
        if in_tables(a, v) {
            let i = choose|i: int| 0 <= i < a.len() && (#[trigger] a[i]).reader@.contains(v);
            assert(s.contains(a[i]));
            let k = choose|k: int| 0 <= k < s.len() && s[k] == a[i];
            assert(s[k].reader@.contains(v));
        }
        if in_tables(b, v) {
            let i = choose|i: int| 0 <= i < b.len() && (#[trigger] b[i]).reader@.contains(v);
            assert(s.contains(b[i]));
            let k = choose|k: int| 0 <= k < s.len() && s[k] == b[i];
            assert(s[k].reader@.contains(v));
        }
    }
    assert(l.store() =~= rest_of(l, ids).union(input_run(s, ids).to_set()));
}

/// No table outside `ids` holds an older version of a key of which a table of `ids` holds
/// a tombstone at or below the watermark.
pub open spec fn nothing_older_outside(s: Seq<LiveTable>, ids: Seq<u64>, watermark: u64) -> bool {
    forall|t: Version, w: Version|
        #![trigger in_tables(tables_in(s, ids), t), in_tables(tables_out(s, ids), w)]
        in_tables(tables_in(s, ids), t) && in_tables(tables_out(s, ids), w) && t.1.value is None
            && watermark != 0 && t.0.seq <= watermark && w.0.user_key == t.0.user_key
            ==> w.0.seq >= t.0.seq
}

/// Where the tables outside hold nothing older, dropping tombstones is safe.
pub(crate) proof fn nothing_older_makes_drops_safe(l: Layers, ids: Seq<u64>, rule: DropRule)
    requires
        l.wf(),
        in_sequence(l),
        rule.drop_tombstones ==> nothing_older_outside(l.tables@, ids, rule.gc_watermark),
    ensures
        drop_is_safe(rest_of(l, ids), input_run(l.tables@, ids), rule),
{
    let s = l.tables@;
    let a = tables_in(s, ids);
    let rest = rest_of(l, ids);
    let run = input_run(s, ids);
    tables_cohere(l);
    input_run_facts(s, ids);
    split_facts(s, ids);
    if rule.drop_tombstones {
        assert forall|t: Version, w: Version|
            #![trigger run.contains(t), rest.contains(w)]
            run.contains(t) && rest.contains(w) && t.1.value is None && rule.covers(t.0.seq)
                && w.0.user_key == t.0.user_key implies w.0.seq >= t.0.seq by {
            assert(in_tables(a, t));
            let i = choose|i: int| 0 <= i < a.len() && (#[trigger] a[i]).reader@.contains(t);
            assert(s.contains(a[i]));
            let k = choose|k: int| 0 <= k < s.len() && s[k] == a[i];
            assert(s[k].wf());
            let m = memtables_of(l);
            if l.active@.contains(w) {
                let last = m.len() - 1;
                assert(m[last] == l.active@);
                assert(all_above(m[last], s[k].meta.max_seq));
            } else if in_frozen(l, w) {
                let q = choose|q: int|
                    0 <= q < l.immutables@.len() && (#[trigger] l.immutables@[q])@.contains(w);
                assert(m[q] == l.immutables@[q]@);
                assert(all_above(m[q], s[k].meta.max_seq));
            } else {
                assert(in_tables(tables_out(s, ids), w));
            }
        }
    }
}

/// A catalog with all the given entries in their places.
pub open spec fn catalog_with_all(s: Seq<MetaView>, metas: Seq<MetaView>) -> Seq<MetaView>
    decreases metas.len(),
{
    if metas.len() == 0 {
        s
    } else {
        catalog_with(catalog_with_all(s, metas.skip(1)), metas[0])
    }
}

/// What the catalog says of new tables.
pub open spec fn new_metas(s: Seq<NewTable>) -> Seq<MetaView> {
    Seq::new(s.len(), |i: int| s[i].meta@)
}

pub(crate) proof fn part_contains(files: Seq<Seq<Version>>, i: int, v: Version)
    requires
        0 <= i < files.len(),
        files[i].contains(v),
    ensures
        joined(files).contains(v),
    decreases files.len(),
{
    let init = files.drop_last();
    let n = joined(init).len() as int;
    if i < files.len() - 1 {
        part_contains(init, i, v);
        let x = choose|x: int| 0 <= x < joined(init).len() && joined(init)[x] == v;
        assert(joined(files)[x] == v);
    } else {
        let y = choose|y: int| 0 <= y < files[i].len() && files[i][y] == v;
        assert(joined(files)[n + y] == v);
    }
}

pub(crate) proof fn joined_contains(files: Seq<Seq<Version>>, v: Version)
    requires
        joined(files).contains(v),
    ensures
        exists|i: int| 0 <= i < files.len() && (#[trigger] files[i]).contains(v),
    decreases files.len(),
{
    let init = files.drop_last();
    let all = joined(files);
    let n = joined(init).len() as int;
    let x = choose|x: int| 0 <= x < all.len() && all[x] == v;
    if x < n {
        assert(joined(init)[x] == v);
        joined_contains(init, v);
        let i = choose|i: int| 0 <= i < init.len() && (#[trigger] init[i]).contains(v);
        assert(files[i].contains(v));
    } else {
        assert(files.last()[x - n] == v);
        assert(files[files.len() - 1].contains(v));
    }
}

/// One of the parts from `k` on holds the version.
spec fn in_parts(files: Seq<Seq<Version>>, k: int, v: Version) -> bool {
    exists|i: int| k <= i < files.len() && (#[trigger] files[i]).contains(v)
}

/// A table lies below the memtables and below the next sequence number.
spec fn lies_below(t: LiveTable, l: Layers, next: u64) -> bool {
    &&& t.meta.max_seq < next
    &&& forall|j: int|
        0 <= j < memtables_of(l).len() ==> all_above(#[trigger] memtables_of(l)[j], t.meta.max_seq)
}

/// A table made of versions of the tables lies below the memtables.
proof fn output_lies_below(l: Layers, next: u64, t: LiveTable)
    requires
        l.wf(),
        in_sequence(l),
        tables_below(l.tables@, next),
        t.reader@.len() > 0,
        t.meta.max_seq == top_seq(t.reader@),
        forall|v: Version| #[trigger] t.reader@.contains(v) ==> in_tables(l.tables@, v),
    ensures
        lies_below(t, l, next),
{
    top_seq_attained(t.reader@);
    let k = choose|k: int|
        0 <= k < t.reader@.len() && (#[trigger] t.reader@[k]).0.seq == top_seq(t.reader@);
    let v = t.reader@[k];
    assert(t.reader@.contains(v));
    let i = choose|i: int| 0 <= i < l.tables@.len() && (#[trigger] l.tables@[i]).reader@.contains(v);
    assert(l.tables@[i].wf());
    assert(v.0.seq <= l.tables@[i].meta.max_seq);
    assert forall|j: int| 0 <= j < memtables_of(l).len() implies all_above(
        #[trigger] memtables_of(l)[j],
        t.meta.max_seq,
    ) by {
        assert(all_above(memtables_of(l)[j], l.tables@[i].meta.max_seq));
    }
}

/// The tables in the middle of an exchange of inputs for outputs: what was kept and the
/// outputs from `k` on.
spec fn mid_exchange(
    now: Seq<LiveTable>,
    kept: Seq<LiveTable>,
    files: Seq<Seq<Version>>,
    k: int,
    l: Layers,
    next: u64,
) -> bool {
    &&& forall|i: int| 0 <= i < now.len() ==> (#[trigger] now[i]).wf()
    &&& forall|i: int| 0 <= i < now.len() ==> lies_below(#[trigger] now[i], l, next)
    &&& forall|v: Version| #[trigger]
        in_tables(now, v) <==> in_tables(kept, v) || in_parts(files, k, v)
}

impl Engine {
    /// Takes the tables with the given numbers out of the catalog.
    fn remove_tables(&mut self, ids: &Vec<u64>)
        ensures
            final(self).layers.tables@ == tables_out(old(self).layers.tables@, ids@),
            final(self).layers.active == old(self).layers.active,
            final(self).layers.immutables == old(self).layers.immutables,
            *final(self) == (Engine { layers: final(self).layers, ..*old(self) }),
    {
        let ghost start = self.layers.tables@;
        let ghost mut k: int = 0;
        let mut i: usize = 0;
        assert(start.skip(0) =~= start);
        assert(start.take(0) =~= Seq::<LiveTable>::empty());
        assert(tables_out(start.take(0), ids@) + start.skip(0) =~= start);
        while i < self.layers.tables.len()
            invariant
                i <= self.layers.tables@.len(),
                0 <= k <= start.len(),
                start == old(self).layers.tables@,
                i == tables_out(start.take(k), ids@).len(),
                self.layers.tables@ == tables_out(start.take(k), ids@) + start.skip(k),
                self.layers.active == old(self).layers.active,
                self.layers.immutables == old(self).layers.immutables,
                *self == (Engine { layers: self.layers, ..*old(self) }),
            decreases start.len() - k,
        {
            let ghost now = self.layers.tables@;
            let ghost front = tables_out(start.take(k), ids@);
            proof {
                assert(now[i as int] == start.skip(k)[0]);
                assert(start.take(k + 1).drop_last() =~= start.take(k));
                assert(start.take(k + 1).last() == start[k]);
                assert(start.skip(k)[0] == start[k]);
            }
            if contains_id(ids, self.layers.tables[i].meta.id) {
                let gone: LiveTable = self.layers.tables.remove(i);
                assert(self.layers.tables@ =~= front + start.skip(k + 1));
            } else {
                i = i + 1;
                assert(now =~= front.push(start[k]) + start.skip(k + 1));
            }
            proof {
                k = k + 1;
            }
        }
        proof {
            assert(k == start.len());
            assert(start.take(k) =~= start);
            assert(self.layers.tables@ =~= tables_out(start, ids@));
        }
    }

    /// Exchanges the tables of a compaction for what it made of them.
    pub(crate) fn publish_compaction(
        &mut self,
        ids: &Vec<u64>,
        outputs: Vec<NewTable>,
        Ghost(rule): Ghost<DropRule>,
        Ghost(target): Ghost<u64>,
        Ghost(first_id): Ghost<u64>,
        Ghost(level): Ghost<u8>,
    )
        requires
            old(self).wf(),
            first_id + outputs@.len() < u64::MAX,
            forall|i: int|
                0 <= i < outputs@.len() ==> !ids_of(old(self).catalog()).contains(
                    (#[trigger] outputs@[i]).meta.id,
                ),
            tables_match(
                outputs@,
                tables_of(
                    packed_all(pack_start(), input_run(old(self).layers.tables@, ids@), rule, target),
                ),
                first_id,
                level,
            ),
            drop_is_safe(
                rest_of(old(self).layers, ids@),
                input_run(old(self).layers.tables@, ids@),
                rule,
            ),
        ensures
            final(self).wf(),
            final(self).store() == rest_of(old(self).layers, ids@).union(
                compacted(input_run(old(self).layers.tables@, ids@), rule).to_set(),
            ),
            same_reads(old(self).store(), final(self).store(), rule.gc_watermark),
            final(self).layers.active == old(self).layers.active,
            final(self).layers.immutables == old(self).layers.immutables,
            final(self).catalog() == catalog_with_all(
                catalog_of(tables_out(old(self).layers.tables@, ids@)),
                new_metas(outputs@),
            ),
            *final(self) == (Engine {
                layers: final(self).layers,
                next_sstable_id: final(self).next_sstable_id,
                ..*old(self)
            }),
            final(self).next_sstable_id == next_id_after(
                old(self).next_sstable_id,
                first_id,
                outputs@.len(),
            ),
    {
        let ghost before = *self;
        let ghost l = self.layers;
        let ghost s = l.tables@;
        let ghost run = input_run(s, ids@);
        let ghost files = tables_of(packed_all(pack_start(), run, rule, target));
        let ghost kept = tables_out(s, ids@);
        let ghost c = compacted(run, rule);
        let ghost all = outputs@;
        proof {
            tables_cohere(l);
            input_run_facts(s, ids@);
            split_facts(s, ids@);
            split_numbered(s, ids@, self.next_sstable_id);
            output_holds_survivors(run, rule, target);
            compaction_keeps_survivors(run, rule);
            store_splits(l, ids@);
        }
        self.remove_tables(ids);
        let mut left: Vec<NewTable> = outputs;
        proof {
            assert(mid_exchange(kept, kept, files, files.len() as int, l, before.seq@)) by {
                assert forall|i: int| 0 <= i < kept.len() implies (#[trigger] kept[i]).wf()
                    && lies_below(kept[i], l, before.seq@) by {
                    assert(s.contains(kept[i]));
                    let q = choose|q: int| 0 <= q < s.len() && s[q] == kept[i];
                    assert(s[q].wf());
                    assert(s[q].meta.max_seq < before.seq@);
                    assert forall|j: int| 0 <= j < memtables_of(l).len() implies all_above(
                        #[trigger] memtables_of(l)[j],
                        s[q].meta.max_seq,
                    ) by {}
                }
            }
            assert(all.skip(all.len() as int) =~= Seq::<NewTable>::empty());
            assert(new_metas(all.skip(all.len() as int)) =~= Seq::<MetaView>::empty());
            assert(self.catalog() =~= catalog_of(kept));
            assert forall|i: int| 0 <= i < kept.len() implies ids_of(before.catalog()).contains(
                (#[trigger] kept[i]).meta.id,
            ) by {
                assert(s.contains(kept[i]));
                let q = choose|q: int| 0 <= q < s.len() && s[q] == kept[i];
                assert(ids_of(before.catalog())[q] == kept[i].meta.id);
            }
        }
        while left.len() > 0
            invariant
                left@.len() <= all.len(),
                left@ == all.take(left@.len() as int),
                all.len() == files.len(),
                tables_match(all, files, first_id, level),
                first_id + all.len() < u64::MAX,
                forall|i: int|
                    0 <= i < all.len() ==> !ids_of(before.catalog()).contains(
                        (#[trigger] all[i]).meta.id,
                    ),
                before == *old(self),
                before.wf(),
                l == before.layers,
                s == l.tables@,
                run == input_run(s, ids@),
                kept == tables_out(s, ids@),
                c == compacted(run, rule),
                joined(files) == c,
                sorted(c),
                forall|i: int| 0 <= i < files.len() ==> (#[trigger] files[i]).len() > 0,
                self.layers.active == l.active,
                self.layers.immutables == l.immutables,
                *self == (Engine {
                    layers: self.layers,
                    next_sstable_id: self.next_sstable_id,
                    ..before
                }),
                numbered(self.layers.tables@, self.next_sstable_id),
                self.next_sstable_id == (if left@.len() == all.len() {
                    before.next_sstable_id
                } else {
                    next_id_after(before.next_sstable_id, first_id, all.len())
                }),
                mid_exchange(
                    self.layers.tables@,
                    kept,
                    files,
                    left@.len() as int,
                    l,
                    before.seq@,
                ),
                self.catalog() == catalog_with_all(
                    catalog_of(kept),
                    new_metas(all.skip(left@.len() as int)),
                ),
                forall|i: int|
                    0 <= i < self.layers.tables@.len() ==> ids_of(before.catalog()).contains(
                        (#[trigger] self.layers.tables@[i]).meta.id,
                    ) || self.layers.tables@[i].meta.id >= first_id + left@.len(),
            decreases left@.len(),
        {
            let ghost k = left@.len() - 1;
            let ghost now = self.layers.tables@;
            proof {
                tables_cohere(l);
                input_run_facts(s, ids@);
                split_facts(s, ids@);
                split_numbered(s, ids@, before.next_sstable_id);
                compaction_keeps_survivors(run, rule);
            }
            let t: NewTable = match left.pop() {
                Some(t) => t,
                None => {
                    return;
                },
            };
            assert(t == all[k]);
            let live = LiveTable { meta: t.meta, reader: Arc::new(t.reader) };
            proof {
                assert(live.reader@ == files[k]);
                assert(live.meta.id == first_id + k);
                assert(self.is_free(live.meta.id)) by {
                    if ids_of(self.catalog()).contains(live.meta.id) {
                        let i = choose|i: int|
                            0 <= i < ids_of(self.catalog()).len() && ids_of(self.catalog())[i]
                                == live.meta.id;
                        assert(self.layers.tables@[i].meta.id == live.meta.id);
                    }
                }
                assert forall|v: Version| #[trigger] files[k].contains(v) implies in_tables(
                    s,
                    v,
                ) && in_tables(tables_in(s, ids@), v) by {
                    part_contains(files, k, v);
                    let i = choose|i: int|
                        0 <= i < run.len() && #[trigger] stays(run, rule, i) && run[i] == v;
                    assert(run.contains(v));
                    let a = tables_in(s, ids@);
                    let j = choose|j: int| 0 <= j < a.len() && (#[trigger] a[j]).reader@.contains(v);
                    assert(s.contains(a[j]));
                    let q = choose|q: int| 0 <= q < s.len() && s[q] == a[j];
                    assert(s[q].reader@.contains(v));
                }
                assert(sorted(files[k])) by {
                    live.reader.lemma_sorted();
                }
                meta_of_describes(files[k], live.meta.id, level);
                output_lies_below(l, before.seq@, live);
            }
            let p: usize = self.insert_table(live);
            proof {
                let after = self.layers.tables@;
                assert forall|i: int| 0 <= i < after.len() implies (#[trigger] after[i]).wf()
                    && lies_below(after[i], l, before.seq@) by {
                    if i < p {
                        assert(now[i].wf() && lies_below(now[i], l, before.seq@));
                    } else if i > p {
                        assert(now[i - 1].wf() && lies_below(now[i - 1], l, before.seq@));
                    }
                }
                assert forall|v: Version| #[trigger] in_tables(after, v) <==> in_tables(kept, v)
                    || in_parts(files, k, v) by {
                    crate::engine::maintain::tables_insert(now, p as int, live, v);
                    assert(in_tables(now, v) <==> in_tables(kept, v) || in_parts(files, k + 1, v));
                    if in_parts(files, k, v) {
                        let i = choose|i: int|
                            k <= i < files.len() && (#[trigger] files[i]).contains(v);
                        if i > k {
                            assert(in_parts(files, k + 1, v));
                        }
                    }
                    if in_parts(files, k + 1, v) {
                        let i = choose|i: int|
                            k + 1 <= i < files.len() && (#[trigger] files[i]).contains(v);
                        assert(in_parts(files, k, v));
                    }
                    if live.reader@.contains(v) {
                        assert(files[k].contains(v));
                    }
                }
                assert(left@ =~= all.take(k));
                assert(all.skip(k).skip(1) =~= all.skip(k + 1));
                assert(new_metas(all.skip(k)).skip(1) =~= new_metas(all.skip(k + 1)));
                assert(new_metas(all.skip(k))[0] == live.meta@);
                assert forall|i: int|
                    0 <= i < after.len() implies ids_of(before.catalog()).contains(
                    (#[trigger] after[i]).meta.id,
                ) || after[i].meta.id >= first_id + k by {
                    if i < p {
                        assert(after[i] == now[i]);
                    } else if i > p {
                        assert(after[i] == now[i - 1]);
                    }
                }
            }
        }
        proof {
            assert(all.skip(0) =~= all);
            exchange_done(before, *self, ids@, rule, files);
        }
    }
}

/// The next free table id once `n` tables numbered from `first_id` on are in the catalog.
pub open spec fn next_id_after(next: u64, first_id: u64, n: nat) -> u64 {
    if n == 0 {
        next
    } else {
        larger(next, (first_id + n) as u64)
    }
}

/// The exchange of a compaction's inputs for its outputs is complete.
proof fn exchange_done(
    before: Engine,
    after: Engine,
    ids: Seq<u64>,
    rule: DropRule,
    files: Seq<Seq<Version>>,
)
    requires
        before.wf(),
        after.layers.active == before.layers.active,
        after.layers.immutables == before.layers.immutables,
        after == (Engine {
            layers: after.layers,
            next_sstable_id: after.next_sstable_id,
            ..before
        }),
        numbered(after.layers.tables@, after.next_sstable_id),
        joined(files) == compacted(input_run(before.layers.tables@, ids), rule),
        mid_exchange(
            after.layers.tables@,
            tables_out(before.layers.tables@, ids),
            files,
            0,
            before.layers,
            before.seq@,
        ),
        drop_is_safe(
            rest_of(before.layers, ids),
            input_run(before.layers.tables@, ids),
            rule,
        ),
    ensures
        after.wf(),
        after.store() == rest_of(before.layers, ids).union(
            compacted(input_run(before.layers.tables@, ids), rule).to_set(),
        ),
        same_reads(before.store(), after.store(), rule.gc_watermark),
{
    let l = before.layers;
    let s = l.tables@;
    let run = input_run(s, ids);
    let c = compacted(run, rule);
    let rest = rest_of(l, ids);
    let kept = tables_out(s, ids);
    let now = after.layers.tables@;
    tables_cohere(l);
    input_run_facts(s, ids);
    store_splits(l, ids);
    compaction_keeps_survivors(run, rule);
    assert forall|v: Version| #[trigger] after.store().contains(v) <==> rest.union(
        c.to_set(),
    ).contains(v) by {
        store_cases(after.layers, v);
        assert(in_frozen(after.layers, v) == in_frozen(l, v));
        assert(in_tables(now, v) <==> in_tables(kept, v) || in_parts(files, 0, v));
        if in_parts(files, 0, v) {
            let i = choose|i: int| 0 <= i < files.len() && (#[trigger] files[i]).contains(v);
            part_contains(files, i, v);
        }
        if c.contains(v) {
            joined_contains(files, v);
            assert(in_parts(files, 0, v));
        }
    }
    assert(after.store() =~= rest.union(c.to_set()));
    assert forall|v: Version| #[trigger] after.store().contains(v) implies before.store().contains(
        v,
    ) by {
        if c.contains(v) {
            let i = choose|i: int| 0 <= i < run.len() && #[trigger] stays(run, rule, i) && run[i] == v;
            assert(run.contains(v));
        }
    }
    coherent_part(before.store(), after.store());
    let m = memtables_of(after.layers);
    assert(m =~= memtables_of(l));
    assert forall|i: int, j: int| 0 <= i < now.len() && 0 <= j < m.len() implies all_above(
        #[trigger] m[j],
        (#[trigger] now[i]).meta.max_seq,
    ) by {
        assert(lies_below(now[i], l, before.seq@));
        assert(memtables_of(l)[j] == m[j]);
    }
    assert forall|i: int| 0 <= i < now.len() implies (#[trigger] now[i]).meta.max_seq < after.seq@ by {
        assert(lies_below(now[i], l, before.seq@));
    }
    assert forall|key: Seq<u8>, upper: u64, now_ms: u64|
        upper >= rule.gc_watermark implies #[trigger] value_at(after.store(), key, upper, now_ms)
        == value_at(before.store(), key, upper, now_ms) by {
        let r = newest_exists(l.runs(), key, upper);
        lookup_is_newest(before.store(), key, upper, r);
        compaction_keeps_reads(rest, run, rule, key, upper, r);
    }
    if before.result_cache is Some {
        let slots = before.result_cache->0@.slots;
        assert forall|i: int| 0 <= i < slots.len() implies cached_result_holds(
            #[trigger] slots[i],
            after.store(),
        ) by {
            assert(cached_result_holds(slots[i], before.store()));
            let key = slots[i].key;
            let r = newest_exists(l.runs(), key, u64::MAX);
            lookup_is_newest(before.store(), key, u64::MAX, r);
            compaction_keeps_reads(rest, run, rule, key, u64::MAX, r);
        }
    }
}

} // verus!
