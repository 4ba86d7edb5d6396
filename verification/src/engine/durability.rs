//! What the log and the manifest promise: an engine that is opened again over its
//! tables and its log holds what it held.

use vstd::prelude::*;
use crate::engine::compact::{catalog_with_all, tables_out};
use crate::engine::jobs::{compaction_records, flush_records, unpinned};
use crate::engine::maintain::{catalog_with, place_facts};
use crate::engine::open::{
    in_order_all_stays, log_in_order, replay_upto, replayed_log, replays, written_by,
};
use crate::engine::read::{ids_of, top_of};
use crate::engine::{
    all_above, catalog_of, in_frozen, in_tables, memtables_of, older, store_cases, Engine,
};
use crate::manifest::{applied, applied_all, without_id, MetaView, RecordView, StateView};
use crate::records::Version;
use crate::snapshot::{table_runs, LiveTable};
use crate::sorted_map::count_of;
use crate::sstable::top_seq;
use crate::store::{holds, union_of};
use crate::wal::{op_version, WalView};

verus! {

/// What an engine holds that is opened over the tables and the log: the versions of the
/// tables and those of the records above them, up to a ceiling where one is set.
pub open spec fn recovered(
    tables: Seq<LiveTable>,
    log: Seq<WalView>,
    ceiling: Option<u64>,
) -> Set<Version> {
    let catalog = catalog_of(tables);
    union_of(table_runs(tables)).union(
        written_by(replayed_log(log, top_of(catalog, catalog.len() as int), ceiling)),
    )
}

/// The log and the tables hold everything that the engine holds.
pub open spec fn log_holds(e: Engine, log: Seq<WalView>) -> bool {
    &&& log_in_order(log)
    &&& forall|i: int| 0 <= i < log.len() ==> (#[trigger] log[i]).seq < e.seq@
    &&& recovered(e.layers.tables@, log, None) == e.store()
}

/// What is replayed of records in order is in order.
proof fn replayed_in_order(log: Seq<WalView>, flushed: u64, ceiling: Option<u64>, n: int)
    requires
        0 <= n <= log.len(),
        log_in_order(log),
    ensures
        ({
            let r = replay_upto(log, flushed, ceiling, n);
            &&& log_in_order(r)
            &&& n < log.len() ==> forall|i: int| 0 <= i < r.len() ==> (#[trigger] r[i]).seq
                < log[n].seq
        }),
    decreases n,
{
    if n > 0 {
        replayed_in_order(log, flushed, ceiling, n - 1);
        let p = replay_upto(log, flushed, ceiling, n - 1);
        let r = replay_upto(log, flushed, ceiling, n);
        assert(crate::engine::write::keys_distinct(log[n - 1].ops));
        assert forall|i: int, j: int| 0 <= i < j < r.len() implies (#[trigger] r[i]).seq < (
        #[trigger] r[j]).seq by {
            if j < p.len() {
                assert(p[i].seq < p[j].seq);
            } else {
                assert(p[i].seq < log[n - 1].seq);
            }
        }
        assert forall|i: int| 0 <= i < r.len() implies crate::engine::write::keys_distinct(
            (#[trigger] r[i]).ops,
        ) by {
            if i < p.len() {
                assert(crate::engine::write::keys_distinct(p[i].ops));
            }
        }
        if n < log.len() {
            assert forall|i: int| 0 <= i < r.len() implies (#[trigger] r[i]).seq < log[n].seq by {
                assert(log[n - 1].seq < log[n].seq);
                if i < p.len() {
                    assert(p[i].seq < log[n - 1].seq);
                }
            }
        }
    }
}

proof fn replayed_are(log: Seq<WalView>, flushed: u64, ceiling: Option<u64>, n: int, v: Version)
    requires
        0 <= n <= log.len(),
        log_in_order(log),
    ensures
        written_by(replay_upto(log, flushed, ceiling, n)).contains(v) <==> exists|i: int|
            0 <= i < n && #[trigger] log[i].writes().contains(v) && log[i].seq > flushed && (
            ceiling matches Some(c) ==> log[i].seq <= c),
    decreases n,
{
    if n > 0 {
        replayed_are(log, flushed, ceiling, n - 1, v);
        let p = replay_upto(log, flushed, ceiling, n - 1);
        let e = log[n - 1];
        assert(p.push(e).drop_last() =~= p);
        assert(p.push(e).last() == e);
        if replays(e, flushed, ceiling) {
            replayed_in_order(log, flushed, ceiling, n);
            in_order_all_stays(p.push(e));
        }
        if e.writes().contains(v) {
            assert(log[n - 1].writes().contains(v));
        }
        if exists|i: int|
            0 <= i < n && #[trigger] log[i].writes().contains(v) && log[i].seq > flushed && (
            ceiling matches Some(c) ==> log[i].seq <= c) {
            let i = choose|i: int|
                0 <= i < n && #[trigger] log[i].writes().contains(v) && log[i].seq > flushed && (
                ceiling matches Some(c) ==> log[i].seq <= c);
            if i < n - 1 {
                assert(log[i].writes().contains(v));
            }
        }
    }
}

/// A record above the tables and up to the ceiling writes the version.
pub open spec fn is_replayed(
    log: Seq<WalView>,
    flushed: u64,
    ceiling: Option<u64>,
    v: Version,
) -> bool {
    &&& v.0.seq > flushed
    &&& ceiling matches Some(c) ==> v.0.seq <= c
    &&& exists|i: int| 0 <= i < log.len() && #[trigger] log[i].writes().contains(v)
}

pub(crate) proof fn writes_carry_seq(e: WalView, v: Version)
    requires
        e.writes().contains(v),
    ensures
        v.0.seq == e.seq,
{
    let k = choose|k: int| 0 <= k < e.writes().len() && e.writes()[k] == v;
    assert(e.writes()[k] == op_version(e.ops[k], e.seq));
}

pub(crate) proof fn recovered_cases(
    tables: Seq<LiveTable>,
    log: Seq<WalView>,
    ceiling: Option<u64>,
    v: Version,
)
    requires
        log_in_order(log),
    ensures
        recovered(tables, log, ceiling).contains(v) <==> in_tables(tables, v) || is_replayed(
            log,
            top_of(catalog_of(tables), tables.len() as int),
            ceiling,
            v,
        ),
{
    let top = top_of(catalog_of(tables), tables.len() as int);
    let runs = table_runs(tables);
    replayed_are(log, top, ceiling, log.len() as int, v);
    if holds(runs, v) {
        let i = choose|i: int| 0 <= i < runs.len() && (#[trigger] runs[i]).contains(v);
        assert(tables[i].reader@.contains(v));
    }
    if in_tables(tables, v) {
        let i = choose|i: int| 0 <= i < tables.len() && (#[trigger] tables[i]).reader@.contains(v);
        assert(runs[i].contains(v));
    }
    if is_replayed(log, top, ceiling, v) {
        let i = choose|i: int| 0 <= i < log.len() && #[trigger] log[i].writes().contains(v);
        writes_carry_seq(log[i], v);
        assert(log[i].writes().contains(v));
    }
    if written_by(replayed_log(log, top, ceiling)).contains(v) {
        let i = choose|i: int|
            0 <= i < log.len() && #[trigger] log[i].writes().contains(v) && log[i].seq > top && (
            ceiling matches Some(c) ==> log[i].seq <= c);
        writes_carry_seq(log[i], v);
    }
}

/// Once a write is in the log, the log and the tables hold it.
pub proof fn write_is_durable(before: Engine, after: Engine, log: Seq<WalView>, e: WalView)
    requires
        before.wf(),
        log_holds(before, log),
        0 < before.seq@,
        e.seq == before.seq@,
        crate::engine::write::keys_distinct(e.ops),
        after.seq@ > e.seq,
        after.wrote_record(&before, e),
    ensures
        log_holds(after, log.push(e)),
{
    let more = log.push(e);
    let tables = before.layers.tables@;
    let top = top_of(catalog_of(tables), tables.len() as int);
    top_attained(tables, tables.len() as int, before.seq@);
    assert forall|i: int, j: int| 0 <= i < j < more.len() implies (#[trigger] more[i]).seq < (
    #[trigger] more[j]).seq by {
        if j < log.len() {
            assert(log[i].seq < log[j].seq);
        } else {
            assert(log[i].seq < before.seq@);
        }
    }
    assert forall|i: int| 0 <= i < more.len() implies crate::engine::write::keys_distinct(
        (#[trigger] more[i]).ops,
    ) by {
        if i < log.len() {
            assert(crate::engine::write::keys_distinct(log[i].ops));
        }
    }
    assert forall|i: int| 0 <= i < more.len() implies (#[trigger] more[i]).seq < after.seq@ by {
        if i < log.len() {
            assert(log[i].seq < before.seq@);
        }
    }
    assert forall|v: Version| #[trigger] recovered(tables, more, None).contains(v)
        <==> after.store().contains(v) by {
        recovered_cases(tables, more, None, v);
        recovered_cases(tables, log, None, v);
        assert(recovered(tables, log, None).contains(v) == before.store().contains(v));
        if e.writes().contains(v) {
            writes_carry_seq(e, v);
            assert(more[log.len() as int].writes().contains(v));
        }
        if is_replayed(log, top, None, v) {
            let i = choose|i: int| 0 <= i < log.len() && #[trigger] log[i].writes().contains(v);
            assert(more[i].writes().contains(v));
        }
        if is_replayed(more, top, None, v) {
            let i = choose|i: int| 0 <= i < more.len() && #[trigger] more[i].writes().contains(v);
            if i < log.len() {
                assert(log[i].writes().contains(v));
            } else {
                assert(e.writes().contains(v));
            }
        }
    }
    assert(recovered(tables, more, None) =~= after.store());
}

/// The catalog names no sequence number as large as `next` where no table does.
pub(crate) proof fn top_attained(tables: Seq<LiveTable>, n: int, next: u64)
    requires
        0 <= n <= tables.len(),
        forall|i: int| 0 <= i < tables.len() ==> (#[trigger] tables[i]).meta.max_seq < next,
    ensures
        n > 0 ==> top_of(catalog_of(tables), n) < next,
        n == 0 ==> top_of(catalog_of(tables), n) == 0,
        top_of(catalog_of(tables), n) <= next,
        forall|i: int|
            0 <= i < n ==> (#[trigger] tables[i]).meta.max_seq <= top_of(catalog_of(tables), n),
    decreases n,
{
    if n > 0 {
        top_attained(tables, n - 1, next);
        assert(catalog_of(tables)[n - 1] == tables[n - 1].meta@);
        assert(tables[n - 1].meta.max_seq < next);
    }
}

/// Once a memtable is flushed, the log and the tables still hold everything, though
/// less of the log is needed.
pub proof fn flush_keeps_durability(
    before: Engine,
    after: Engine,
    log: Seq<WalView>,
    p: int,
    t: LiveTable,
)
    requires
        before.wf(),
        log_holds(before, log),
        before.layers.immutables@.len() > 0,
        t.reader@ == before.layers.immutables@[0]@,
        t.reader@.len() > 0,
        t.meta.max_seq == top_seq(t.reader@),
        0 <= p <= before.layers.tables@.len(),
        after.layers.tables@ == before.layers.tables@.insert(p, t),
        after.store() == before.store(),
        after.seq@ == before.seq@,
    ensures
        log_holds(after, log),
{
    let l = before.layers;
    let a = l.tables@;
    let b = after.layers.tables@;
    let m = memtables_of(l);
    let run = t.reader@;
    assert(m[0] == run);
    crate::engine::maintain::top_seq_attained(run);
    let k = choose|k: int| 0 <= k < run.len() && (#[trigger] run[k]).0.seq == top_seq(run);
    let last = run[k];
    assert(run.contains(last));
    store_cases(l, last);
    assert(l.immutables@[0]@.contains(last));
    assert(before.store().contains(last));
    top_attained(a, a.len() as int, before.seq@);
    assert forall|i: int| 0 <= i < b.len() implies (#[trigger] b[i]).meta.max_seq < before.seq@ by {
        if i < p {
            assert(a[i].meta.max_seq < before.seq@);
        } else if i > p {
            assert(a[i - 1].meta.max_seq < before.seq@);
        }
    }
    top_attained(b, b.len() as int, before.seq@);
    let top_a = top_of(catalog_of(a), a.len() as int);
    let top_b = top_of(catalog_of(b), b.len() as int);
    top_is_some(b, b.len() as int);
    assert(b[p] == t);
    assert(t.meta.max_seq <= top_b);
    assert(top_a <= top_b) by {
        top_is_some(a, a.len() as int);
        if a.len() > 0 {
            let i = choose|i: int| 0 <= i < a.len() && (#[trigger] a[i]).meta.max_seq == top_a;
            if i < p {
                assert(b[i] == a[i]);
            } else {
                assert(b[i + 1] == a[i]);
            }
        }
    }
    assert forall|v: Version| #[trigger] recovered(b, log, None).contains(v)
        <==> after.store().contains(v) by {
        recovered_cases(b, log, None, v);
        recovered_cases(a, log, None, v);
        assert(recovered(a, log, None).contains(v) == before.store().contains(v));
        crate::engine::maintain::tables_insert(a, p, t, v);
        store_cases(l, v);
        if run.contains(v) {
            assert(l.immutables@[0]@.contains(v));
            assert(in_frozen(l, v));
        }
        if before.store().contains(v) && !in_tables(b, v) {
            let i = choose|i: int| 0 <= i < b.len() && (#[trigger] b[i]).meta.max_seq == top_b;
            let j = newer_memtable(l, v);
            assert(m[j].contains(v));
            if i == p {
                assert(older(m[0], m[j]));
                assert(last.0.seq < v.0.seq);
            } else {
                let q = if i < p {
                    i
                } else {
                    i - 1
                };
                assert(b[i] == a[q]);
                assert(all_above(m[j], a[q].meta.max_seq));
            }
            assert(v.0.seq > top_b);
        }
    }
    assert(recovered(b, log, None) =~= after.store());
}

/// Where a version is neither in a table nor in the oldest frozen memtable, a later
/// memtable holds it.
proof fn newer_memtable(l: crate::snapshot::Layers, v: Version) -> (j: int)
    requires
        l.immutables@.len() > 0,
        l.active@.contains(v) || in_frozen(l, v),
        !l.immutables@[0]@.contains(v),
    ensures
        0 < j < memtables_of(l).len(),
        memtables_of(l)[j].contains(v),
{
    let m = memtables_of(l);
    if l.active@.contains(v) {
        assert(m[m.len() - 1] == l.active@);
        m.len() - 1
    } else {
        let q = choose|q: int|
            0 <= q < l.immutables@.len() && (#[trigger] l.immutables@[q])@.contains(v);
        assert(m[q] == l.immutables@[q]@);
        q
    }
}

/// The largest sequence number of the catalog is that of some table.
pub(crate) proof fn top_is_some(tables: Seq<LiveTable>, n: int)
    requires
        0 <= n <= tables.len(),
    ensures
        n > 0 ==> exists|i: int|
            0 <= i < n && (#[trigger] tables[i]).meta.max_seq == top_of(catalog_of(tables), n),
        n == 0 ==> top_of(catalog_of(tables), n) == 0,
    decreases n,
{
    if n > 0 {
        top_is_some(tables, n - 1);
        let c = catalog_of(tables);
        assert(c[n - 1] == tables[n - 1].meta@);
        if top_of(c, n) == tables[n - 1].meta.max_seq {
        } else {
            assert(n > 1);
            let i = choose|i: int|
                0 <= i < n - 1 && (#[trigger] tables[i]).meta.max_seq == top_of(c, n - 1);
            assert(tables[i].meta.max_seq == top_of(c, n));
        }
    }
}

/// Once tables are exchanged in a compaction that keeps the largest sequence number of
/// the catalog, the log and the tables still hold everything.
pub proof fn compaction_keeps_durability(before: Engine, after: Engine, log: Seq<WalView>)
    requires
        before.wf(),
        after.wf(),
        log_holds(before, log),
        after.layers.active == before.layers.active,
        after.layers.immutables == before.layers.immutables,
        after.seq@ == before.seq@,
        top_of(after.catalog(), after.catalog().len() as int) == top_of(
            before.catalog(),
            before.catalog().len() as int,
        ),
    ensures
        log_holds(after, log),
{
    let a = before.layers.tables@;
    let b = after.layers.tables@;
    let top = top_of(catalog_of(a), a.len() as int);
    top_attained(a, a.len() as int, before.seq@);
    top_attained(b, b.len() as int, before.seq@);
    top_is_some(a, a.len() as int);
    assert forall|v: Version| #[trigger] recovered(b, log, None).contains(v)
        <==> after.store().contains(v) by {
        recovered_cases(b, log, None, v);
        recovered_cases(a, log, None, v);
        assert(recovered(a, log, None).contains(v) == before.store().contains(v));
        store_cases(before.layers, v);
        store_cases(after.layers, v);
        assert(in_frozen(after.layers, v) == in_frozen(before.layers, v));
        if in_tables(a, v) {
            let i = choose|i: int| 0 <= i < a.len() && (#[trigger] a[i]).reader@.contains(v);
            assert(a[i].wf());
            assert(v.0.seq <= top);
        }
        if before.layers.active@.contains(v) || in_frozen(before.layers, v) {
            memtables_lie_above(before, v);
        }
    }
    assert(recovered(b, log, None) =~= after.store());
}

/// What a memtable holds lies above the tables.
pub(crate) proof fn memtables_lie_above(e: Engine, v: Version)
    requires
        e.wf(),
        e.layers.active@.contains(v) || in_frozen(e.layers, v),
    ensures
        e.layers.tables@.len() > 0 ==> v.0.seq > top_of(e.catalog(), e.catalog().len() as int),
{
    let l = e.layers;
    let m = memtables_of(l);
    let j = if l.active@.contains(v) {
        m.len() - 1
    } else {
        choose|q: int| 0 <= q < l.immutables@.len() && (#[trigger] l.immutables@[q])@.contains(v)
    };
    assert(m[j].contains(v)) by {
        if l.active@.contains(v) {
            assert(m[m.len() - 1] == l.active@);
        } else {
            assert(m[j] == l.immutables@[j]@);
        }
    }
    top_is_some(l.tables@, l.tables@.len() as int);
    if l.tables@.len() > 0 {
        let i = choose|i: int|
            0 <= i < l.tables@.len() && (#[trigger] l.tables@[i]).meta.max_seq == top_of(
                e.catalog(),
                e.catalog().len() as int,
            );
        assert(all_above(m[j], l.tables@[i].meta.max_seq));
    }
}

/// Log records that the tables cover can go: the rest of the log and the tables still
/// hold everything.
pub proof fn covered_log_can_go(e: Engine, log: Seq<WalView>, k: int)
    requires
        log_holds(e, log),
        0 <= k <= log.len(),
        forall|i: int|
            0 <= i < k ==> (#[trigger] log[i]).seq <= top_of(
                e.catalog(),
                e.catalog().len() as int,
            ),
    ensures
        log_holds(e, log.skip(k)),
{
    let rest = log.skip(k);
    let tables = e.layers.tables@;
    let top = top_of(e.catalog(), e.catalog().len() as int);
    assert forall|i: int, j: int| 0 <= i < j < rest.len() implies (#[trigger] rest[i]).seq < (
    #[trigger] rest[j]).seq by {
        assert(log[k + i].seq < log[k + j].seq);
    }
    assert forall|i: int| 0 <= i < rest.len() implies crate::engine::write::keys_distinct(
        (#[trigger] rest[i]).ops,
    ) by {
        assert(crate::engine::write::keys_distinct(log[k + i].ops));
    }
    assert forall|i: int| 0 <= i < rest.len() implies (#[trigger] rest[i]).seq < e.seq@ by {
        assert(log[k + i].seq < e.seq@);
    }
    assert forall|v: Version| #[trigger] recovered(tables, rest, None).contains(v)
        <==> e.store().contains(v) by {
        recovered_cases(tables, rest, None, v);
        recovered_cases(tables, log, None, v);
        assert(recovered(tables, log, None).contains(v) == e.store().contains(v));
        if is_replayed(log, top, None, v) {
            let i = choose|i: int| 0 <= i < log.len() && #[trigger] log[i].writes().contains(v);
            writes_carry_seq(log[i], v);
            assert(i >= k);
            assert(rest[i - k].writes().contains(v));
        }
        if is_replayed(rest, top, None, v) {
            let i = choose|i: int| 0 <= i < rest.len() && #[trigger] rest[i].writes().contains(v);
            assert(log[k + i].writes().contains(v));
        }
    }
    assert(recovered(tables, rest, None) =~= e.store());
}

/// A restore to a sequence number at or above the tables brings back exactly the
/// versions up to it.
pub proof fn restore_stops_at_the_ceiling(e: Engine, log: Seq<WalView>, ceiling: u64, v: Version)
    requires
        e.wf(),
        log_holds(e, log),
        top_of(e.catalog(), e.catalog().len() as int) <= ceiling,
    ensures
        recovered(e.layers.tables@, log, Some(ceiling)).contains(v) <==> e.store().contains(v)
            && v.0.seq <= ceiling,
{
    let tables = e.layers.tables@;
    recovered_cases(tables, log, None, v);
    recovered_cases(tables, log, Some(ceiling), v);
    assert(recovered(tables, log, None).contains(v) == e.store().contains(v));
    if in_tables(tables, v) {
        let i = choose|i: int| 0 <= i < tables.len() && (#[trigger] tables[i]).reader@.contains(v);
        assert(tables[i].wf());
        top_attained(tables, tables.len() as int, e.seq@);
    }
}

/// The file of a pinned table is never among those that may go.
pub proof fn pinned_files_stay(counts: Map<u64, u64>, ids: Seq<u64>, id: u64)
    ensures
        unpinned(counts, ids).contains(id) ==> ids.contains(id) && count_of(counts, id) == 0,
    decreases ids.len(),
{
    if ids.len() > 0 {
        let p = ids.drop_last();
        pinned_files_stay(counts, p, id);
        if unpinned(counts, ids).contains(id) {
            let u = unpinned(counts, ids);
            let i = choose|i: int| 0 <= i < u.len() && u[i] == id;
            if unpinned(counts, p).contains(id) {
                let j = choose|j: int| 0 <= j < p.len() && p[j] == id;
                assert(ids[j] == id);
            } else if count_of(counts, ids.last()) == 0 {
                assert(u == unpinned(counts, p).push(ids.last()));
                if i < unpinned(counts, p).len() {
                    assert(unpinned(counts, p)[i] == id);
                }
                assert(ids[ids.len() - 1] == id);
            }
        }
    }
}

/// The manifest's list and the catalog have the same entries.
pub open spec fn manifest_agrees(live: Seq<MetaView>, catalog: Seq<MetaView>) -> bool {
    forall|m: MetaView| #[trigger] live.contains(m) <==> catalog.contains(m)
}

pub(crate) proof fn catalog_with_has(s: Seq<MetaView>, m: MetaView, x: MetaView)
    ensures
        catalog_with(s, m).contains(x) <==> s.contains(x) || x == m,
{
    place_facts(s, m.id, s.len() as int);
    let p = crate::engine::maintain::place_of(s, m.id, s.len() as int);
    let t = s.insert(p, m);
    if t.contains(x) {
        let i = choose|i: int| 0 <= i < t.len() && t[i] == x;
        if i < p {
            assert(s[i] == x);
        } else if i > p {
            assert(s[i - 1] == x);
        }
    }
    if s.contains(x) {
        let i = choose|i: int| 0 <= i < s.len() && s[i] == x;
        if i < p {
            assert(t[i] == x);
        } else {
            assert(t[i + 1] == x);
        }
    }
    assert(t[p] == m);
}

/// The manifest records of a flush say what the flush does to the catalog.
pub proof fn manifest_follows_a_flush(
    st: StateView,
    catalog: Seq<MetaView>,
    m: MetaView,
    covered: u64,
)
    requires
        manifest_agrees(st.live, catalog),
    ensures
        manifest_agrees(
            applied_all(st, flush_records(m, covered)).live,
            catalog_with(catalog, m),
        ),
{
    let rs = flush_records(m, covered);
    let one = applied(st, rs[0]);
    reveal_with_fuel(applied_all, 3);
    assert(applied_all(st, rs).live == st.live.push(m)) by {
        if covered > 0 {
            assert(rs.skip(1)[0] == rs[1]);
            assert(rs.skip(1).skip(1) =~= Seq::<RecordView>::empty());
        } else {
            assert(rs.skip(1) =~= Seq::<RecordView>::empty());
        }
    }
    assert forall|x: MetaView| #[trigger] applied_all(st, rs).live.contains(x)
        <==> catalog_with(catalog, m).contains(x) by {
        catalog_with_has(catalog, m, x);
        let live = st.live.push(m);
        if live.contains(x) {
            let i = choose|i: int| 0 <= i < live.len() && live[i] == x;
            if i < st.live.len() {
                assert(st.live[i] == x);
            }
        }
        if st.live.contains(x) {
            let i = choose|i: int| 0 <= i < st.live.len() && st.live[i] == x;
            assert(live[i] == x);
        }
        assert(live[st.live.len() as int] == m);
    }
}

proof fn adds_applied(st: StateView, made: Seq<MetaView>, rest: Seq<RecordView>, k: int)
    requires
        0 <= k <= made.len(),
    ensures
        ({
            let adds = Seq::new(made.len(), |i: int| RecordView::SstableAdd(made[i]));
            exists|mid: StateView| #[trigger]
                applied_all(mid, rest) == applied_all(st, adds.skip(k) + rest) && mid.live
                == st.live + made.skip(k)
        }),
    decreases made.len() - k,
{
    let adds = Seq::new(made.len(), |i: int| RecordView::SstableAdd(made[i]));
    if k == made.len() {
        assert(adds.skip(k) + rest =~= rest);
        assert(st.live + made.skip(k) =~= st.live);
        assert(applied_all(st, rest) == applied_all(st, adds.skip(k) + rest));
    } else {
        let all = adds.skip(k) + rest;
        let next = applied(st, all[0]);
        assert(all[0] == RecordView::SstableAdd(made[k]));
        assert(all.skip(1) =~= adds.skip(k + 1) + rest);
        adds_applied(next, made, rest, k + 1);
        let mid = choose|mid: StateView| #[trigger]
            applied_all(mid, rest) == applied_all(next, adds.skip(k + 1) + rest) && mid.live
                == next.live + made.skip(k + 1);
        assert(next.live + made.skip(k + 1) =~= st.live + made.skip(k));
        assert(applied_all(mid, rest) == applied_all(st, all));
    }
}

proof fn without_id_has(s: Seq<MetaView>, id: u64, x: MetaView)
    ensures
        without_id(s, id).contains(x) <==> s.contains(x) && x.id != id,
    decreases s.len(),
{
    reveal(Seq::filter);
    if s.len() > 0 {
        let p = s.drop_last();
        without_id_has(p, id, x);
        let f = without_id(s, id);
        let fp = without_id(p, id);
        if s.last().id != id {
            assert(f == fp.push(s.last()));
            if f.contains(x) {
                let i = choose|i: int| 0 <= i < f.len() && f[i] == x;
                if i < fp.len() {
                    assert(fp[i] == x);
                }
            }
            if fp.contains(x) {
                let i = choose|i: int| 0 <= i < fp.len() && fp[i] == x;
                assert(f[i] == x);
            }
            assert(f[fp.len() as int] == s.last());
        }
        if s.contains(x) {
            let i = choose|i: int| 0 <= i < s.len() && s[i] == x;
            if i < p.len() {
                assert(p[i] == x);
            }
        }
        if p.contains(x) {
            let i = choose|i: int| 0 <= i < p.len() && p[i] == x;
            assert(s[i] == x);
        }
        assert(s[s.len() - 1] == s.last());
    }
}

proof fn removes_applied(st: StateView, ids: Seq<u64>, k: int, x: MetaView)
    requires
        0 <= k <= ids.len(),
    ensures
        applied_all(
            st,
            Seq::new(ids.len(), |i: int| RecordView::SstableRemove { id: ids[i] }).skip(k),
        ).live.contains(x) <==> st.live.contains(x) && !ids.skip(k).contains(x.id),
    decreases ids.len() - k,
{
    let rs = Seq::new(ids.len(), |i: int| RecordView::SstableRemove { id: ids[i] });
    if k == ids.len() {
        assert(rs.skip(k) =~= Seq::<RecordView>::empty());
        assert(!ids.skip(k).contains(x.id));
    } else {
        let all = rs.skip(k);
        let id = ids[k];
        let next = applied(st, all[0]);
        assert(all[0] == (RecordView::SstableRemove { id }));
        assert(all.skip(1) =~= rs.skip(k + 1));
        removes_applied(next, ids, k + 1, x);
        without_id_has(st.live, id, x);
        let a = ids.skip(k);
        let b = ids.skip(k + 1);
        if a.contains(x.id) {
            let i = choose|i: int| 0 <= i < a.len() && a[i] == x.id;
            if i > 0 {
                assert(b[i - 1] == x.id);
            }
        }
        if b.contains(x.id) {
            let i = choose|i: int| 0 <= i < b.len() && b[i] == x.id;
            assert(a[i + 1] == x.id);
        }
        assert(a[0] == id);
    }
}

pub(crate) proof fn catalog_with_all_has(s: Seq<MetaView>, metas: Seq<MetaView>, x: MetaView)
    ensures
        catalog_with_all(s, metas).contains(x) <==> s.contains(x) || metas.contains(x),
    decreases metas.len(),
{
    if metas.len() > 0 {
        let t = metas.skip(1);
        catalog_with_all_has(s, t, x);
        catalog_with_has(catalog_with_all(s, t), metas[0], x);
        if metas.contains(x) {
            let i = choose|i: int| 0 <= i < metas.len() && metas[i] == x;
            if i > 0 {
                assert(t[i - 1] == x);
            }
        }
        if t.contains(x) {
            let i = choose|i: int| 0 <= i < t.len() && t[i] == x;
            assert(metas[i + 1] == x);
        }
        assert(metas[0] == metas[0]);
    }
}

pub(crate) proof fn kept_entries(tables: Seq<LiveTable>, ids: Seq<u64>, x: MetaView)
    ensures
        catalog_of(tables_out(tables, ids)).contains(x) <==> catalog_of(tables).contains(x)
            && !ids.contains(x.id),
    decreases tables.len(),
{
    if tables.len() > 0 {
        let p = tables.drop_last();
        let n = tables.len() - 1;
        kept_entries(p, ids, x);
        let c = catalog_of(tables);
        let k = catalog_of(tables_out(tables, ids));
        let kp = catalog_of(tables_out(p, ids));
        assert(c[n] == tables.last().meta@);
        if c.contains(x) {
            let i = choose|i: int| 0 <= i < c.len() && c[i] == x;
            if i < n {
                assert(catalog_of(p)[i] == x);
            }
        }
        if catalog_of(p).contains(x) {
            let i = choose|i: int| 0 <= i < p.len() && catalog_of(p)[i] == x;
            assert(c[i] == x);
        }
        if !ids.contains(tables.last().meta.id) {
            assert(k =~= kp.push(tables.last().meta@));
            if k.contains(x) {
                let i = choose|i: int| 0 <= i < k.len() && k[i] == x;
                if i < kp.len() {
                    assert(kp[i] == x);
                }
            }
            if kp.contains(x) {
                let i = choose|i: int| 0 <= i < kp.len() && kp[i] == x;
                assert(k[i] == x);
            }
            assert(k[kp.len() as int] == tables.last().meta@);
        }
    } else {
        assert(catalog_of(tables_out(tables, ids)) =~= catalog_of(tables));
    }
}

/// The manifest records of a compaction say what the compaction does to the catalog.
pub proof fn manifest_follows_a_compaction(
    st: StateView,
    tables: Seq<LiveTable>,
    made: Seq<MetaView>,
    inputs: Seq<MetaView>,
)
    requires
        manifest_agrees(st.live, catalog_of(tables)),
        forall|i: int|
            0 <= i < made.len() ==> !ids_of(inputs).contains((#[trigger] made[i]).id),
    ensures
        manifest_agrees(
            applied_all(st, compaction_records(made, inputs)).live,
            catalog_with_all(catalog_of(tables_out(tables, ids_of(inputs))), made),
        ),
{
    let ids = ids_of(inputs);
    let adds = Seq::new(made.len(), |i: int| RecordView::SstableAdd(made[i]));
    let removes = Seq::new(ids.len(), |i: int| RecordView::SstableRemove { id: ids[i] });
    let rs = compaction_records(made, inputs);
    assert(rs =~= adds + removes);
    adds_applied(st, made, removes, 0);
    assert(adds.skip(0) =~= adds);
    let mid = choose|mid: StateView| #[trigger]
        applied_all(mid, removes) == applied_all(st, adds.skip(0) + removes) && mid.live == st.live
            + made.skip(0);
    assert(made.skip(0) =~= made);
    assert(removes.skip(0) =~= removes);
    assert(ids.skip(0) =~= ids);
    let out = applied_all(st, rs).live;
    let want = catalog_with_all(catalog_of(tables_out(tables, ids)), made);
    assert forall|x: MetaView| #[trigger] out.contains(x) <==> want.contains(x) by {
        removes_applied(mid, ids, 0, x);
        catalog_with_all_has(catalog_of(tables_out(tables, ids)), made, x);
        kept_entries(tables, ids, x);
        assert(st.live.contains(x) <==> catalog_of(tables).contains(x));
        let live = st.live + made;
        if live.contains(x) {
            let i = choose|i: int| 0 <= i < live.len() && live[i] == x;
            if i < st.live.len() {
                assert(st.live[i] == x);
            } else {
                assert(made[i - st.live.len()] == x);
            }
        }
        if st.live.contains(x) {
            let i = choose|i: int| 0 <= i < st.live.len() && st.live[i] == x;
            assert(live[i] == x);
        }
        if made.contains(x) {
            let i = choose|i: int| 0 <= i < made.len() && made[i] == x;
            assert(live[st.live.len() + i] == x);
            assert(!ids.contains(made[i].id));
        }
    }
}

} // verus!
