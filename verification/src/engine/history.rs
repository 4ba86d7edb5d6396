//! Durability over the whole life of a store: whatever was flushed, compacted, trimmed
//! or recovered, readers get what the history of writes says.

use vstd::prelude::*;
use crate::compaction_worker::{compacted, compaction_keeps_survivors, stays};
use crate::engine::compact::{
    input_run, input_run_facts, same_reads, split_facts, tables_cohere, tables_in, tables_out,
};
use crate::engine::durability::{
    is_replayed, memtables_lie_above, recovered, recovered_cases, top_attained, top_is_some,
    writes_carry_seq,
};
use crate::engine::jobs::next_job;
use crate::engine::laws::record_changes_its_keys;
use crate::engine::ops::key_occurs;
use crate::engine::open::log_in_order;
use crate::engine::read::{ids_of, top_of};
use crate::engine::write::keys_distinct;
use crate::engine::{
    all_below, catalog_of, in_frozen, in_tables, newest_depends_on_key, store_cases, Engine,
};
use crate::manifest::larger;
use crate::records::{visible, Version};
use crate::snapshot::{Layers, LiveTable};
use crate::store::{coherent, newest, newest_holds, newest_in, newest_is, value_at};
use crate::wal::WalView;

verus! {

/// A record of the log writes the version.
pub open spec fn log_writes(log: Seq<WalView>, v: Version) -> bool {
    exists|i: int| 0 <= i < log.len() && #[trigger] log[i].writes().contains(v)
}

/// A memtable holds the version.
pub open spec fn in_memory(l: Layers, v: Version) -> bool {
    l.active@.contains(v) || in_frozen(l, v)
}

/// The store and its log serve a history of writes: readers at or above the ceiling
/// `low` get from the store what the history says, the log holds just the part of the
/// history from `start` on, and the memtables lie in that part.
pub open spec fn log_serves(
    e: Engine,
    history: Set<Version>,
    log: Seq<WalView>,
    start: u64,
    low: u64,
) -> bool {
    &&& coherent(history)
    &&& forall|v: Version| #[trigger] history.contains(v) ==> 0 < v.0.seq < e.seq@
    &&& forall|v: Version| #[trigger] e.store().contains(v) ==> history.contains(v)
    &&& same_reads(history, e.store(), low)
    &&& log_in_order(log)
    &&& forall|i: int| 0 <= i < log.len() ==> (#[trigger] log[i]).seq < e.seq@
    &&& forall|v: Version| #[trigger]
        log_writes(log, v) <==> history.contains(v) && v.0.seq >= start
    &&& forall|v: Version| #[trigger] in_memory(e.layers, v) ==> v.0.seq >= start
}

/// Of the versions that a reader sees one is the newest.
pub(crate) proof fn some_is_newest(s: Set<Version>, key: Seq<u8>, upper: u64, v: Version)
    requires
        s.contains(v),
        visible(v, key, upper),
    ensures
        newest(s, key, upper) is Some,
    decreases upper - v.0.seq,
{
    if newest_in(s, key, upper, v) {
    } else {
        let w = choose|w: Version|
            #[trigger] s.contains(w) && visible(w, key, upper) && w.0.seq > v.0.seq;
        some_is_newest(s, key, upper, w);
    }
}

/// Opening the tables and the log again serves the same history.
pub proof fn recovery_serves_the_history(
    e: Engine,
    history: Set<Version>,
    log: Seq<WalView>,
    start: u64,
    low: u64,
)
    requires
        e.wf(),
        log_serves(e, history, log, start, low),
    ensures
        same_reads(history, recovered(e.layers.tables@, log, None), low),
        forall|v: Version| #[trigger]
            recovered(e.layers.tables@, log, None).contains(v) ==> history.contains(v),
{
    let tables = e.layers.tables@;
    let r = recovered(tables, log, None);
    let top = top_of(catalog_of(tables), tables.len() as int);
    assert forall|v: Version| #[trigger] r.contains(v) implies history.contains(v) by {
        recovered_cases(tables, log, None, v);
        store_cases(e.layers, v);
        if is_replayed(log, top, None, v) {
            assert(log_writes(log, v));
        }
    }
    assert(coherent(r)) by {
        assert forall|v: Version, w: Version|
            #![trigger r.contains(v), r.contains(w)]
            r.contains(v) && r.contains(w) && v.0.user_key == w.0.user_key && v.0.seq
                == w.0.seq implies v == w by {
            assert(history.contains(v) && history.contains(w));
        }
    }
    assert forall|key: Seq<u8>, upper: u64, now_ms: u64| upper >= low implies #[trigger] value_at(
        r,
        key,
        upper,
        now_ms,
    ) == value_at(history, key, upper, now_ms) by {
        reader_is_served(e, history, log, start, low, key, upper);
        assert(value_at(e.store(), key, upper, now_ms) == value_at(history, key, upper, now_ms));
    }
}

/// A reader of the recovered store finds the version that the history has newest, or
/// looks at just the tables that the store had.
proof fn reader_is_served(
    e: Engine,
    history: Set<Version>,
    log: Seq<WalView>,
    start: u64,
    low: u64,
    key: Seq<u8>,
    upper: u64,
)
    requires
        e.wf(),
        log_serves(e, history, log, start, low),
        coherent(recovered(e.layers.tables@, log, None)),
        forall|v: Version| #[trigger]
            recovered(e.layers.tables@, log, None).contains(v) ==> history.contains(v),
    ensures
        ({
            let n = newest(recovered(e.layers.tables@, log, None), key, upper);
            n == newest(history, key, upper) || n == newest(e.store(), key, upper)
        }),
{
    let tables = e.layers.tables@;
    let r = recovered(tables, log, None);
    let top = top_of(catalog_of(tables), tables.len() as int);
    newest_holds(history, key, upper);
    newest_holds(r, key, upper);
    top_is_some(tables, tables.len() as int);
    match newest(history, key, upper) {
        None => {
            if let Some(v) = newest(r, key, upper) {
                assert(history.contains(v));
                some_is_newest(history, key, upper, v);
            }
        },
        Some(v) => {
            if r.contains(v) {
                assert(newest_in(r, key, upper, v));
                newest_is(r, key, upper, v);
            } else {
                recovered_cases(tables, log, None, v);
                if v.0.seq >= start {
                    assert(log_writes(log, v));
                }
                assert(v.0.seq <= top || v.0.seq < start);
                assert forall|w: Version| visible(w, key, upper) implies (#[trigger] r.contains(w)
                    <==> e.store().contains(w)) by {
                    recovered_cases(tables, log, None, w);
                    store_cases(e.layers, w);
                    if is_replayed(log, top, None, w) {
                        assert(log_writes(log, w));
                        assert(history.contains(w));
                    }
                    if in_memory(e.layers, w) {
                        assert(e.store().contains(w));
                        assert(history.contains(w));
                        memtables_lie_above(e, w);
                    }
                }
                newest_depends_on_key(r, e.store(), key, upper);
            }
        },
    }
}

/// A store that holds nothing serves the empty history.
pub proof fn fresh_store_serves(e: Engine)
    requires
        e.store() == Set::<Version>::empty(),
    ensures
        log_serves(e, Set::empty(), Seq::empty(), e.seq@, 0),
{
    assert forall|v: Version| #[trigger] in_memory(e.layers, v) implies v.0.seq >= e.seq@ by {
        store_cases(e.layers, v);
        assert(e.store().contains(v));
    }
}

/// A write extends the history, and the log with it.
pub proof fn write_extends_the_history(
    before: Engine,
    after: Engine,
    history: Set<Version>,
    log: Seq<WalView>,
    start: u64,
    low: u64,
    e: WalView,
)
    requires
        before.wf(),
        after.wf(),
        log_serves(before, history, log, start, low),
        e.seq == before.seq@,
        0 < e.seq,
        start <= e.seq,
        keys_distinct(e.ops),
        after.seq@ > e.seq,
        after.wrote_record(&before, e),
    ensures
        log_serves(after, history.union(e.writes().to_set()), log.push(e), start, low),
{
    let w = e.writes().to_set();
    let h = history.union(w);
    let more = log.push(e);
    assert forall|v: Version| #[trigger] w.contains(v) implies v.0.seq == e.seq
        && after.store().contains(v) by {
        writes_carry_seq(e, v);
    }
    assert(coherent(h)) by {
        assert forall|v: Version, x: Version|
            #![trigger h.contains(v), h.contains(x)]
            h.contains(v) && h.contains(x) && v.0.user_key == x.0.user_key && v.0.seq
                == x.0.seq implies v == x by {
            if w.contains(v) != w.contains(x) {
                if w.contains(v) {
                    assert(history.contains(x));
                } else {
                    assert(history.contains(v));
                }
            }
        }
        assert forall|v: Version| #[trigger] h.contains(v) implies crate::store::proper(v) by {
            if w.contains(v) {
                assert(after.store().contains(v));
            }
        }
    }
    assert(all_below(history, e.seq));
    assert forall|key: Seq<u8>, upper: u64, now_ms: u64| upper >= low implies #[trigger] value_at(
        after.store(),
        key,
        upper,
        now_ms,
    ) == value_at(h, key, upper, now_ms) by {
        record_changes_its_keys(before.store(), e, key, upper);
        record_changes_its_keys(history, e, key, upper);
        assert(value_at(before.store(), key, upper, now_ms) == value_at(
            history,
            key,
            upper,
            now_ms,
        ));
        if upper >= e.seq && key_occurs(e.ops, e.ops.len() as int, key) {
            let i = choose|i: int| 0 <= i < e.ops.len() && (#[trigger] e.ops[i]).key == key;
            assert(e.ops[i].key == key);
        }
    }
    assert forall|v: Version| #[trigger] log_writes(more, v) <==> h.contains(v) && v.0.seq
        >= start by {
        if log_writes(log, v) {
            let i = choose|i: int| 0 <= i < log.len() && #[trigger] log[i].writes().contains(v);
            assert(more[i].writes().contains(v));
        }
        if w.contains(v) {
            assert(more[log.len() as int].writes().contains(v));
        }
        if log_writes(more, v) {
            let i = choose|i: int| 0 <= i < more.len() && #[trigger] more[i].writes().contains(v);
            if i < log.len() {
                assert(log[i].writes().contains(v));
                assert(log_writes(log, v));
            }
        }
    }
    assert forall|v: Version| #[trigger] in_memory(after.layers, v) implies v.0.seq >= start by {
        store_cases(after.layers, v);
        store_cases(before.layers, v);
        assert(after.store().contains(v));
        if w.contains(v) {
            assert(v.0.seq == e.seq);
        } else {
            assert(before.store().contains(v));
            if in_tables(before.layers.tables@, v) {
                let tables = after.layers.tables@;
                let i = choose|i: int|
                    0 <= i < tables.len() && (#[trigger] tables[i]).reader@.contains(v);
                assert(tables[i].wf());
                assert(v.0.seq <= tables[i].meta.max_seq);
                memtables_lie_above(after, v);
                top_attained(tables, tables.len() as int, after.seq@);
                assert(tables[i].meta.max_seq <= top_of(catalog_of(tables), tables.len() as int));
            }
            assert(in_memory(before.layers, v));
        }
    }
}

/// Freezing memtables and writing them out leaves the history served.
pub proof fn flush_keeps_the_history(
    before: Engine,
    after: Engine,
    history: Set<Version>,
    log: Seq<WalView>,
    start: u64,
    low: u64,
)
    requires
        log_serves(before, history, log, start, low),
        after.store() == before.store(),
        after.seq == before.seq,
        forall|v: Version| #[trigger]
            in_memory(after.layers, v) ==> in_memory(before.layers, v),
    ensures
        log_serves(after, history, log, start, low),
{
}

/// A compaction leaves the history served, to readers at or above its watermark.
pub proof fn compaction_keeps_the_history(
    before: Engine,
    after: Engine,
    history: Set<Version>,
    log: Seq<WalView>,
    start: u64,
    low: u64,
)
    requires
        before.wf(),
        log_serves(before, history, log, start, low),
        after.compacted_once(&before),
    ensures
        log_serves(
            after,
            history,
            log,
            start,
            larger(low, before.pins.watermark(before.synced_seq)),
        ),
{
    let job = next_job(before.catalog(), before.cfg.compaction);
    let ids = ids_of((job->0).1);
    let rule = before.job_rule((job->0).0.output_level, ids);
    let tables = before.layers.tables@;
    let run = input_run(tables, ids);
    tables_cohere(before.layers);
    input_run_facts(tables, ids);
    compaction_keeps_survivors(run, rule);
    split_facts(tables, ids);
    assert forall|v: Version| #[trigger] after.store().contains(v) implies before.store().contains(
        v,
    ) by {
        store_cases(before.layers, v);
        if compacted(run, rule).contains(v) {
            let i = choose|i: int| 0 <= i < run.len() && #[trigger] stays(run, rule, i) && run[i]
                == v;
            assert(run.contains(v));
            some_table_holds(tables, tables_in(tables, ids), v);
        } else if in_tables(tables_out(tables, ids), v) {
            some_table_holds(tables, tables_out(tables, ids), v);
        }
    }
    assert forall|key: Seq<u8>, upper: u64, now_ms: u64|
        upper >= larger(low, rule.gc_watermark) implies #[trigger] value_at(
        after.store(),
        key,
        upper,
        now_ms,
    ) == value_at(history, key, upper, now_ms) by {
        assert(value_at(before.store(), key, upper, now_ms) == value_at(
            history,
            key,
            upper,
            now_ms,
        ));
    }
    assert(rule.gc_watermark == before.pins.watermark(before.synced_seq));
    assert forall|v: Version| #[trigger] in_memory(after.layers, v) implies v.0.seq >= start by {
        if in_frozen(after.layers, v) {
            assert(in_frozen(before.layers, v));
        }
        assert(in_memory(before.layers, v));
    }
}

pub(crate) proof fn some_table_holds(all: Seq<LiveTable>, part: Seq<LiveTable>, v: Version)
    requires
        in_tables(part, v),
        forall|i: int| 0 <= i < part.len() ==> all.contains(#[trigger] part[i]),
    ensures
        in_tables(all, v),
{
    let i = choose|i: int| 0 <= i < part.len() && (#[trigger] part[i]).reader@.contains(v);
    let j = choose|j: int| 0 <= j < all.len() && all[j] == part[i];
    assert(all[j].reader@.contains(v));
}

/// Records that the tables cover can go, from the front of the log on.
pub proof fn trimming_keeps_the_history(
    e: Engine,
    history: Set<Version>,
    log: Seq<WalView>,
    start: u64,
    low: u64,
    k: int,
)
    requires
        e.wf(),
        log_serves(e, history, log, start, low),
        0 < k <= log.len(),
        forall|i: int|
            0 <= i < k ==> (#[trigger] log[i]).seq <= top_of(
                e.catalog(),
                e.catalog().len() as int,
            ),
    ensures
        log_serves(
            e,
            history,
            log.skip(k),
            larger(start, (log[k - 1].seq + 1) as u64),
            low,
        ),
{
    let rest = log.skip(k);
    let cut = log[k - 1].seq;
    let next = larger(start, (cut + 1) as u64);
    top_is_some(e.layers.tables@, e.layers.tables@.len() as int);
    assert forall|i: int, j: int| 0 <= i < j < rest.len() implies (#[trigger] rest[i]).seq < (
    #[trigger] rest[j]).seq by {
        assert(log[k + i].seq < log[k + j].seq);
    }
    assert forall|i: int| 0 <= i < rest.len() implies keys_distinct((#[trigger] rest[i]).ops) by {
        assert(rest[i] == log[k + i]);
    }
    assert forall|v: Version| #[trigger] log_writes(rest, v) <==> history.contains(v) && v.0.seq
        >= next by {
        if log_writes(rest, v) {
            let i = choose|i: int| 0 <= i < rest.len() && #[trigger] rest[i].writes().contains(v);
            assert(log[k + i].writes().contains(v));
            assert(log_writes(log, v));
            writes_carry_seq(rest[i], v);
            assert(log[k - 1].seq < log[k + i].seq);
        }
        if history.contains(v) && v.0.seq >= next {
            assert(log_writes(log, v));
            let i = choose|i: int| 0 <= i < log.len() && #[trigger] log[i].writes().contains(v);
            writes_carry_seq(log[i], v);
            if i < k - 1 {
                assert(log[i].seq < log[k - 1].seq);
            }
            assert(i >= k);
            assert(rest[i - k].writes().contains(v));
        }
    }
    assert forall|v: Version| #[trigger] in_memory(e.layers, v) implies v.0.seq >= next by {
        store_cases(e.layers, v);
        assert(e.store().contains(v));
        memtables_lie_above(e, v);
    }
}

/// A store that was opened again over its tables and its log serves the history on.
pub proof fn reopening_keeps_the_history(
    before: Engine,
    after: Engine,
    history: Set<Version>,
    log: Seq<WalView>,
    start: u64,
    low: u64,
)
    requires
        before.wf(),
        log_serves(before, history, log, start, low),
        after.store() == recovered(before.layers.tables@, log, None),
        forall|v: Version| #[trigger] in_memory(after.layers, v) ==> log_writes(log, v),
        forall|v: Version| #[trigger] history.contains(v) ==> v.0.seq < after.seq@,
        forall|i: int| 0 <= i < log.len() ==> (#[trigger] log[i]).seq < after.seq@,
    ensures
        log_serves(after, history, log, start, low),
{
    recovery_serves_the_history(before, history, log, start, low);
}

} // verus!
