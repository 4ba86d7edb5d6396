//! Recovery from a compaction whose records reached the manifest in part.

use vstd::prelude::*;
use crate::compaction_worker::{
    compacted, compaction_keeps_survivors, output_holds_survivors, pack_start, packed_all,
    seen_covered, stays, tables_of, DropRule, NewTable,
};
use crate::engine::compact::{
    coherent_part, input_run, input_run_facts, joined_contains, new_metas, part_contains, same_reads,
    split_facts, tables_cohere, tables_in,
};
use crate::engine::durability::{
    catalog_with_all_has, is_replayed, kept_entries, manifest_agrees, manifest_follows_a_compaction,
    memtables_lie_above, recovered, recovered_cases, top_is_some,
};
use crate::engine::history::{in_memory, log_serves, log_writes, some_is_newest, some_table_holds};
use crate::engine::jobs::compaction_records;
use crate::engine::read::{ids_of, top_of};
use crate::engine::{catalog_of, in_tables, store_cases, Engine};
use crate::manifest::{applied_all, larger, MetaView, StateView};
use crate::records::{visible, Version};
use crate::snapshot::{table_runs, LiveTable};
use crate::store::{coherent, newest, newest_holds, newest_in, newest_is, union_of, value_at};
use crate::wal::WalView;

verus! {

/// Tables that stand in for those of an engine: they hold nothing that those do not hold
/// and nothing above them, and of what readers at or above the ceiling `w` find in those
/// they hold all.
pub open spec fn stand_in(e: Engine, tables: Seq<LiveTable>, w: u64) -> bool {
    let s = e.layers.tables@;
    &&& forall|v: Version| #[trigger] in_tables(tables, v) ==> in_tables(s, v)
    &&& top_of(catalog_of(tables), tables.len() as int) <= top_of(e.catalog(), s.len() as int)
    &&& forall|key: Seq<u8>, upper: u64|
        upper >= w ==> match #[trigger] newest(e.store(), key, upper) {
            Some(u) => in_tables(s, u) ==> in_tables(tables, u),
            None => true,
        }
}

/// A reader of what is recovered from tables that stand in finds the version that the
/// history has newest, or the one that the store had.
proof fn reader_is_served_again(
    e: Engine,
    tables: Seq<LiveTable>,
    history: Set<Version>,
    log: Seq<WalView>,
    start: u64,
    low: u64,
    w: u64,
    key: Seq<u8>,
    upper: u64,
)
    requires
        e.wf(),
        log_serves(e, history, log, start, low),
        stand_in(e, tables, w),
        upper >= w,
        coherent(recovered(tables, log, None)),
        forall|v: Version| #[trigger]
            recovered(tables, log, None).contains(v) ==> history.contains(v),
    ensures
        ({
            let n = newest(recovered(tables, log, None), key, upper);
            n == newest(history, key, upper) || n == newest(e.store(), key, upper)
        }),
{
    let s = e.layers.tables@;
    let r = recovered(tables, log, None);
    let top = top_of(catalog_of(tables), tables.len() as int);
    newest_holds(history, key, upper);
    newest_holds(r, key, upper);
    newest_holds(e.store(), key, upper);
    top_is_some(s, s.len() as int);
    match newest(history, key, upper) {
        None => {
            if let Some(v) = newest(r, key, upper) {
                assert(history.contains(v));
                some_is_newest(history, key, upper, v);
            }
        },
        Some(v) => {
            if r.contains(v) {
                assert(newest_in(r, key, upper, v));
                newest_is(r, key, upper, v);
            } else {
                recovered_cases(tables, log, None, v);
                if v.0.seq >= start {
                    assert(log_writes(log, v));
                }
                assert(v.0.seq <= top || v.0.seq < start);
                assert forall|x: Version| #[trigger] r.contains(x) && visible(
                    x,
                    key,
                    upper,
                ) implies e.store().contains(x) by {
                    recovered_cases(tables, log, None, x);
                    store_cases(e.layers, x);
                    if is_replayed(log, top, None, x) {
                        assert(log_writes(log, x));
                        assert(history.contains(x));
                    }
                }
                match newest(e.store(), key, upper) {
                    Some(u) => {
                        assert(r.contains(u)) by {
                            recovered_cases(tables, log, None, u);
                            store_cases(e.layers, u);
                            if in_memory(e.layers, u) {
                                assert(history.contains(u));
                                assert(log_writes(log, u));
                                memtables_lie_above(e, u);
                            }
                        }
                        assert(newest_in(r, key, upper, u));
                        newest_is(r, key, upper, u);
                    },
                    None => {
                        if let Some(x) = newest(r, key, upper) {
                            assert(e.store().contains(x));
                            some_is_newest(e.store(), key, upper, x);
                        }
                    },
                }
            }
        },
    }
}

/// An engine that is opened over tables that stand in for those of another, and over its
/// log, serves the same history.
pub proof fn stand_in_serves_the_history(
    e: Engine,
    tables: Seq<LiveTable>,
    history: Set<Version>,
    log: Seq<WalView>,
    start: u64,
    low: u64,
    w: u64,
)
    requires
        e.wf(),
        log_serves(e, history, log, start, low),
        stand_in(e, tables, w),
    ensures
        coherent(union_of(table_runs(tables))),
        same_reads(history, recovered(tables, log, None), larger(low, w)),
        same_reads(e.store(), recovered(tables, log, None), larger(low, w)),
{
    let r = recovered(tables, log, None);
    let top = top_of(catalog_of(tables), tables.len() as int);
    let runs = table_runs(tables);
    assert forall|v: Version| #[trigger] union_of(runs).contains(v) implies e.store().contains(v) by {
        let i = choose|i: int| 0 <= i < runs.len() && (#[trigger] runs[i]).contains(v);
        assert(tables[i].reader@.contains(v));
        assert(in_tables(tables, v));
        store_cases(e.layers, v);
    }
    coherent_part(e.store(), union_of(runs));
    assert forall|v: Version| #[trigger] r.contains(v) implies history.contains(v) by {
        recovered_cases(tables, log, None, v);
        store_cases(e.layers, v);
        if is_replayed(log, top, None, v) {
            assert(log_writes(log, v));
        }
    }
    coherent_part(history, r);
    assert forall|key: Seq<u8>, upper: u64, now_ms: u64|
        upper >= larger(low, w) implies #[trigger] value_at(r, key, upper, now_ms) == value_at(
        history,
        key,
        upper,
        now_ms,
    ) && value_at(e.store(), key, upper, now_ms) == value_at(history, key, upper, now_ms) by {
        reader_is_served_again(e, tables, history, log, start, low, w, key, upper);
    }
}

/// The tables that are opened after an append to the manifest: each stood in the catalog
/// or was made by the compaction, and their entries are the live ones.
pub open spec fn opened_from(
    tables: Seq<LiveTable>,
    s: Seq<LiveTable>,
    made: Seq<NewTable>,
    live: Seq<MetaView>,
) -> bool {
    &&& forall|i: int|
        0 <= i < tables.len() ==> live.contains((#[trigger] tables[i]).meta@) && (s.contains(
            tables[i],
        ) || is_made(tables[i], made))
    &&& forall|m: MetaView| #[trigger] live.contains(m) ==> catalog_of(tables).contains(m)
}

/// The table is one of those that were made.
pub open spec fn is_made(t: LiveTable, made: Seq<NewTable>) -> bool {
    exists|i: int|
        0 <= i < made.len() && t.meta@ == (#[trigger] made[i]).meta@ && t.reader@
            == made[i].reader@
}

/// What readers at or above the watermark find newest in the inputs of a compaction that
/// keeps tombstones stays in its output.
proof fn newest_survives(
    run: Seq<Version>,
    store: Set<Version>,
    rule: DropRule,
    key: Seq<u8>,
    upper: u64,
    u: Version,
)
    requires
        crate::records::sorted(run),
        !rule.drop_tombstones,
        upper >= rule.gc_watermark,
        coherent(store),
        forall|v: Version| #[trigger] run.contains(v) ==> store.contains(v),
        newest_in(store, key, upper, u),
        run.contains(u),
    ensures
        compacted(run, rule).contains(u),
{
    compaction_keeps_survivors(run, rule);
    let i = choose|i: int| 0 <= i < run.len() && run[i] == u;
    assert(!seen_covered(run, rule, i, key)) by {
        if seen_covered(run, rule, i, key) {
            let j = choose|j: int|
                0 <= j < i && (#[trigger] run[j]).0.user_key == key && rule.covers(run[j].0.seq);
            assert(run.contains(run[j]));
            assert(run[j].0.lt(run[i].0));
            crate::bytes::lex_lt_irreflexive(key);
            assert(run[j].0.seq == u.0.seq);
            assert(run[j] == u);
            crate::keys::key_lt_irreflexive(u.0);
        }
    }
    assert(stays(run, rule, i));
}

/// A crash in the middle of the append of a compaction's records loses no read: opened
/// over the tables that are live after any number `k` of the records, the engine serves
/// readers at or above the watermark as it did before the compaction. The later records
/// remove inputs; of those this holds where the compaction keeps tombstones.
pub proof fn torn_compaction_keeps_reads(
    before: Engine,
    made: Seq<NewTable>,
    inputs: Seq<MetaView>,
    rule: DropRule,
    first_id: u64,
    level: u8,
    st: StateView,
    k: int,
    tables: Seq<LiveTable>,
    history: Set<Version>,
    log: Seq<WalView>,
    start: u64,
    low: u64,
)
    requires
        before.wf(),
        log_serves(before, history, log, start, low),
        before.made_of(made, ids_of(inputs), rule, first_id, level),
        first_id + made.len() <= u64::MAX,
        manifest_agrees(st.live, before.catalog()),
        forall|i: int|
            0 <= i < made.len() ==> !ids_of(before.catalog()).contains(
                (#[trigger] made[i]).meta.id,
            ) && !ids_of(inputs).contains(made[i].meta.id),
        0 <= k <= made.len() + inputs.len(),
        k <= made.len() || !rule.drop_tombstones,
        opened_from(
            tables,
            before.layers.tables@,
            made,
            applied_all(st, compaction_records(new_metas(made), inputs).take(k)).live,
        ),
    ensures
        coherent(union_of(table_runs(tables))),
        same_reads(before.store(), recovered(tables, log, None), larger(low, rule.gc_watermark)),
        same_reads(history, recovered(tables, log, None), larger(low, rule.gc_watermark)),
{
    torn_tables_stand_in(before, made, inputs, rule, first_id, level, st, k, tables);
    stand_in_serves_the_history(before, tables, history, log, start, low, rule.gc_watermark);
}

/// A store that was opened again after such a crash serves the history on.
pub proof fn reopening_after_a_torn_append_keeps_the_history(
    before: Engine,
    after: Engine,
    made: Seq<NewTable>,
    inputs: Seq<MetaView>,
    rule: DropRule,
    first_id: u64,
    level: u8,
    st: StateView,
    k: int,
    history: Set<Version>,
    log: Seq<WalView>,
    start: u64,
    low: u64,
)
    requires
        before.wf(),
        log_serves(before, history, log, start, low),
        before.made_of(made, ids_of(inputs), rule, first_id, level),
        first_id + made.len() <= u64::MAX,
        manifest_agrees(st.live, before.catalog()),
        forall|i: int|
            0 <= i < made.len() ==> !ids_of(before.catalog()).contains(
                (#[trigger] made[i]).meta.id,
            ) && !ids_of(inputs).contains(made[i].meta.id),
        0 <= k <= made.len() + inputs.len(),
        k <= made.len() || !rule.drop_tombstones,
        opened_from(
            after.layers.tables@,
            before.layers.tables@,
            made,
            applied_all(st, compaction_records(new_metas(made), inputs).take(k)).live,
        ),
        after.store() == recovered(after.layers.tables@, log, None),
        forall|v: Version| #[trigger] in_memory(after.layers, v) ==> log_writes(log, v),
        forall|v: Version| #[trigger] history.contains(v) ==> v.0.seq < after.seq@,
        forall|i: int| 0 <= i < log.len() ==> (#[trigger] log[i]).seq < after.seq@,
    ensures
        log_serves(after, history, log, start, larger(low, rule.gc_watermark)),
{
    let tables = after.layers.tables@;
    let top = top_of(catalog_of(tables), tables.len() as int);
    torn_tables_stand_in(before, made, inputs, rule, first_id, level, st, k, tables);
    stand_in_serves_the_history(before, tables, history, log, start, low, rule.gc_watermark);
    assert forall|v: Version| #[trigger] after.store().contains(v) implies history.contains(v) by {
        recovered_cases(tables, log, None, v);
        store_cases(before.layers, v);
        if is_replayed(log, top, None, v) {
            assert(log_writes(log, v));
        }
    }
}

/// The entries that are live after `k` of a compaction's records.
proof fn live_after_records(
    st: StateView,
    s: Seq<LiveTable>,
    made: Seq<MetaView>,
    inputs: Seq<MetaView>,
    k: int,
    x: MetaView,
)
    requires
        manifest_agrees(st.live, catalog_of(s)),
        forall|i: int|
            0 <= i < made.len() ==> !ids_of(inputs).contains((#[trigger] made[i]).id),
        0 <= k <= made.len() + inputs.len(),
    ensures
        ({
            let n = made.len() as int;
            let added = if k < n {
                k
            } else {
                n
            };
            let gone = ids_of(inputs.take(k - added));
            applied_all(st, compaction_records(made, inputs).take(k)).live.contains(x) <==> (
            catalog_of(s).contains(x) && !gone.contains(x.id)) || made.take(added).contains(x)
        }),
{
    let n = made.len() as int;
    let added = if k < n {
        k
    } else {
        n
    };
    let a = made.take(added);
    let b = inputs.take(k - added);
    assert forall|i: int| 0 <= i < a.len() implies !ids_of(b).contains((#[trigger] a[i]).id) by {
        assert(a[i] == made[i]);
        if ids_of(b).contains(a[i].id) {
            let j = choose|j: int| 0 <= j < ids_of(b).len() && ids_of(b)[j] == a[i].id;
            assert(ids_of(inputs)[j] == a[i].id);
        }
    }
    assert(compaction_records(made, inputs).take(k) =~= compaction_records(a, b));
    manifest_follows_a_compaction(st, s, a, b);
    catalog_with_all_has(catalog_of(crate::engine::compact::tables_out(s, ids_of(b))), a, x);
    kept_entries(s, ids_of(b), x);
}

proof fn torn_tables_stand_in(
    before: Engine,
    made: Seq<NewTable>,
    inputs: Seq<MetaView>,
    rule: DropRule,
    first_id: u64,
    level: u8,
    st: StateView,
    k: int,
    tables: Seq<LiveTable>,
)
    requires
        before.wf(),
        before.made_of(made, ids_of(inputs), rule, first_id, level),
        first_id + made.len() <= u64::MAX,
        manifest_agrees(st.live, before.catalog()),
        forall|i: int|
            0 <= i < made.len() ==> !ids_of(before.catalog()).contains(
                (#[trigger] made[i]).meta.id,
            ) && !ids_of(inputs).contains(made[i].meta.id),
        0 <= k <= made.len() + inputs.len(),
        k <= made.len() || !rule.drop_tombstones,
        opened_from(
            tables,
            before.layers.tables@,
            made,
            applied_all(st, compaction_records(new_metas(made), inputs).take(k)).live,
        ),
    ensures
        stand_in(before, tables, rule.gc_watermark),
{
    let s = before.layers.tables@;
    let ids = ids_of(inputs);
    let run = input_run(s, ids);
    let target = before.cfg.compaction.target_file_bytes;
    let files = tables_of(packed_all(pack_start(), run, rule, target));
    let metas = new_metas(made);
    let live = applied_all(st, compaction_records(metas, inputs).take(k)).live;
    let top = top_of(before.catalog(), s.len() as int);
    tables_cohere(before.layers);
    input_run_facts(s, ids);
    split_facts(s, ids);
    output_holds_survivors(run, rule, target);
    compaction_keeps_survivors(run, rule);
    assert forall|i: int| 0 <= i < metas.len() implies !ids.contains((#[trigger] metas[i]).id) by {
        assert(!ids_of(inputs).contains(made[i].meta.id));
    }
    // What was made holds versions of the tables.
    assert forall|i: int, v: Version|
        0 <= i < made.len() && #[trigger] made[i].reader@.contains(v) implies in_tables(s, v) by {
        assert(files[i].contains(v));
        part_contains(files, i, v);
        let j = choose|j: int| 0 <= j < run.len() && #[trigger] stays(run, rule, j) && run[j] == v;
        assert(run.contains(v));
        some_table_holds(s, tables_in(s, ids), v);
    }
    assert forall|v: Version| #[trigger] in_tables(tables, v) implies in_tables(s, v) by {
        let i = choose|i: int| 0 <= i < tables.len() && (#[trigger] tables[i]).reader@.contains(v);
        if s.contains(tables[i]) {
            let j = choose|j: int| 0 <= j < s.len() && s[j] == tables[i];
            assert(s[j].reader@.contains(v));
        } else {
            let j = choose|j: int|
                0 <= j < made.len() && tables[i].meta@ == (#[trigger] made[j]).meta@
                    && tables[i].reader@ == made[j].reader@;
            assert(made[j].reader@.contains(v));
        }
    }
    // No entry reaches above the tables.
    crate::engine::durability::top_attained(s, s.len() as int, before.seq@);
    assert forall|i: int| 0 <= i < tables.len() implies (#[trigger] tables[i]).meta.max_seq <= top by {
        if s.contains(tables[i]) {
            let j = choose|j: int| 0 <= j < s.len() && s[j] == tables[i];
            assert(s[j].meta.max_seq <= top);
        } else {
            let j = choose|j: int|
                0 <= j < made.len() && tables[i].meta@ == (#[trigger] made[j]).meta@
                    && tables[i].reader@ == made[j].reader@;
            crate::engine::maintain::top_seq_attained(files[j]);
            let q = choose|q: int|
                0 <= q < files[j].len() && (#[trigger] files[j][q]).0.seq
                    == crate::sstable::top_seq(files[j]);
            assert(made[j].reader@ == files[j]);
            assert(files[j].contains(files[j][q]));
            assert(made[j].reader@.contains(files[j][q]));
            let x = choose|x: int| 0 <= x < s.len() && (#[trigger] s[x]).reader@.contains(files[j][q]);
            assert(s[x].wf());
            assert(s[x].meta.max_seq <= top);
        }
    }
    top_is_some(tables, tables.len() as int);
    if tables.len() > 0 {
        let i = choose|i: int|
            0 <= i < tables.len() && (#[trigger] tables[i]).meta.max_seq == top_of(
                catalog_of(tables),
                tables.len() as int,
            );
        assert(tables[i].meta.max_seq <= top);
    }
    assert forall|key: Seq<u8>, upper: u64|
        upper >= rule.gc_watermark implies match #[trigger] newest(before.store(), key, upper) {
        Some(u) => in_tables(s, u) ==> in_tables(tables, u),
        None => true,
    } by {
        newest_holds(before.store(), key, upper);
        if let Some(u) = newest(before.store(), key, upper) {
            if in_tables(s, u) {
                let j = choose|j: int| 0 <= j < s.len() && (#[trigger] s[j]).reader@.contains(u);
                let x = s[j].meta@;
                assert(catalog_of(s)[j] == x);
                live_after_records(st, s, metas, inputs, k, x);
                if live.contains(x) {
                    live_table_holds(before, made, first_id, level, files, tables, live, j, u);
                } else {
                    let n = made.len() as int;
                    assert(k > n);
                    let b = inputs.take(k - n);
                    assert(ids_of(b).contains(x.id));
                    let y = choose|y: int| 0 <= y < ids_of(b).len() && ids_of(b)[y] == x.id;
                    assert(ids[y] == x.id);
                    assert(s.contains(s[j]));
                    let q = choose|q: int|
                        0 <= q < tables_in(s, ids).len() && tables_in(s, ids)[q] == s[j];
                    assert(tables_in(s, ids)[q].reader@.contains(u));
                    assert(run.contains(u));
                    assert forall|v: Version| #[trigger] run.contains(v) implies before.store().contains(
                        v,
                    ) by {
                        some_table_holds(s, tables_in(s, ids), v);
                        store_cases(before.layers, v);
                    }
                    newest_survives(run, before.store(), rule, key, upper, u);
                    joined_contains(files, u);
                    let i = choose|i: int| 0 <= i < files.len() && (#[trigger] files[i]).contains(u);
                    assert(made[i].reader@ == files[i]);
                    let m = made[i].meta@;
                    assert(metas.take(n)[i] == m);
                    live_after_records(st, s, metas, inputs, k, m);
                    made_table_holds(before, made, first_id, level, files, tables, live, i, u);
                }
            }
        }
    }
}

/// A table of the catalog whose entry is live is among the opened ones.
proof fn live_table_holds(
    before: Engine,
    made: Seq<NewTable>,
    first_id: u64,
    level: u8,
    files: Seq<Seq<Version>>,
    tables: Seq<LiveTable>,
    live: Seq<MetaView>,
    j: int,
    u: Version,
)
    requires
        before.wf(),
        forall|i: int|
            0 <= i < made.len() ==> !ids_of(before.catalog()).contains(
                (#[trigger] made[i]).meta.id,
            ),
        opened_from(tables, before.layers.tables@, made, live),
        0 <= j < before.layers.tables@.len(),
        before.layers.tables@[j].reader@.contains(u),
        live.contains(before.layers.tables@[j].meta@),
    ensures
        in_tables(tables, u),
{
    let s = before.layers.tables@;
    let m = s[j].meta@;
    let i = choose|i: int| 0 <= i < catalog_of(tables).len() && catalog_of(tables)[i] == m;
    assert(tables[i].meta@ == m);
    assert(ids_of(before.catalog())[j] == m.id);
    if s.contains(tables[i]) {
        let q = choose|q: int| 0 <= q < s.len() && s[q] == tables[i];
        if q < j {
            assert(s[q].meta.id < s[j].meta.id);
        } else if q > j {
            assert(s[j].meta.id < s[q].meta.id);
        }
    } else {
        let q = choose|q: int|
            0 <= q < made.len() && tables[i].meta@ == (#[trigger] made[q]).meta@
                && tables[i].reader@ == made[q].reader@;
        assert(made[q].meta.id == m.id);
    }
    assert(tables[i].reader@.contains(u));
}

/// A table that was made and whose entry is live is among the opened ones.
proof fn made_table_holds(
    before: Engine,
    made: Seq<NewTable>,
    first_id: u64,
    level: u8,
    files: Seq<Seq<Version>>,
    tables: Seq<LiveTable>,
    live: Seq<MetaView>,
    j: int,
    u: Version,
)
    requires
        crate::compaction_worker::tables_match(made, files, first_id, level),
        first_id + made.len() <= u64::MAX,
        forall|i: int|
            0 <= i < made.len() ==> !ids_of(before.catalog()).contains(
                (#[trigger] made[i]).meta.id,
            ),
        opened_from(tables, before.layers.tables@, made, live),
        0 <= j < made.len(),
        made[j].reader@.contains(u),
        live.contains(made[j].meta@),
    ensures
        in_tables(tables, u),
{
    let s = before.layers.tables@;
    let m = made[j].meta@;
    let i = choose|i: int| 0 <= i < catalog_of(tables).len() && catalog_of(tables)[i] == m;
    assert(tables[i].meta@ == m);
    if s.contains(tables[i]) {
        let q = choose|q: int| 0 <= q < s.len() && s[q] == tables[i];
        assert(ids_of(before.catalog())[q] == m.id);
        assert(made[j].meta.id == m.id);
    } else {
        let q = choose|q: int|
            0 <= q < made.len() && tables[i].meta@ == (#[trigger] made[q]).meta@
                && tables[i].reader@ == made[q].reader@;
        assert(made[q].meta@.id == (first_id + q) as u64);
        assert(made[j].meta@.id == (first_id + j) as u64);
    }
    assert(tables[i].reader@.contains(u));
}

} // verus!
