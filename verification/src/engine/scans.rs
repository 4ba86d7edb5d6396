//! What scans list: the bounds of the user keyspace, and how scans and lookups agree.

use vstd::prelude::*;
use crate::bytes::{
    bytes_le, copy_bytes, has_prefix, lex_le, lex_lt, lex_lt_irreflexive, lex_lt_transitive,
    lex_le_lt, lex_lt_le, lex_lt_total,
};
use crate::compaction_worker::{compacted, compaction_keeps_survivors, stays};
use crate::engine::compact::{
    input_run, input_run_facts, rest_of, split_facts, tables_cohere, tables_in, tables_out,
};
use crate::engine::history::some_table_holds;
use crate::engine::jobs::{compaction_chain, next_job};
use crate::engine::read::ids_of;
use crate::engine::{in_tables, store_cases, Engine};
use crate::iter::ScanDirection;
use crate::keys::{system_key_ok, user_key_ok, KS_USER};
use crate::records::Version;
use crate::snapshot::{after_prefix, prefix_range_is_tight};
use crate::store::{key_in, listing, lists, value_at, with_versions};
use crate::wal::WalView;

verus! {

/// The first key of the user keyspace.
pub open spec fn user_start() -> Seq<u8> {
    seq![KS_USER]
}

/// The end of the user keyspace.
pub open spec fn user_end() -> Seq<u8> {
    seq![(KS_USER + 1) as u8]
}

/// The key lies in the user keyspace.
pub open spec fn in_user_space(key: Seq<u8>) -> bool {
    key.len() > 0 && key[0] == KS_USER
}

/// The lower bound of the part of a range that lies in the user keyspace.
pub open spec fn user_lo(lo: Seq<u8>) -> Seq<u8> {
    if lex_le(user_start(), lo) {
        lo
    } else {
        user_start()
    }
}

/// The upper bound of the part of a range that lies in the user keyspace, the lower bound
/// where there is no such part.
pub open spec fn user_hi(lo: Seq<u8>, hi: Seq<u8>) -> Seq<u8> {
    let end = if hi.len() > 0 && lex_le(hi, user_end()) {
        hi
    } else {
        user_end()
    };
    if lex_le(user_lo(lo), end) {
        end
    } else {
        user_lo(lo)
    }
}

proof fn user_space_is_a_range(key: Seq<u8>)
    ensures
        in_user_space(key) <==> lex_le(user_start(), key) && lex_lt(key, user_end()),
{
    let a = user_start();
    let b = user_end();
    if key.len() > 0 {
        assert(a.skip(1) =~= Seq::<u8>::empty());
        assert(b.skip(1) =~= Seq::<u8>::empty());
        if key[0] == KS_USER {
            if key.len() == 1 {
                assert(key =~= a);
            } else {
                assert(key.skip(1).len() > 0);
                reveal_with_fuel(lex_lt, 2);
            }
        } else if key[0] == b[0] {
            assert(!lex_lt(key.skip(1), b.skip(1)));
        }
    }
}

/// The bounds part the user keys of a range from the others.
pub proof fn user_range(lo: Seq<u8>, hi: Seq<u8>, key: Seq<u8>)
    ensures
        key_in(key, user_lo(lo), user_hi(lo, hi)) <==> key_in(key, lo, hi) && in_user_space(key),
{
    let a = user_lo(lo);
    let b = user_hi(lo, hi);
    user_space_is_a_range(key);
    lex_lt_total(user_start(), lo);
    assert(lex_le(a, key) <==> lex_le(lo, key) && lex_le(user_start(), key)) by {
        if lex_le(user_start(), lo) {
            if lex_le(lo, key) && user_start() != lo {
                lex_lt_le(user_start(), lo, key);
            }
        } else if lex_le(user_start(), key) {
            lex_lt_le(lo, user_start(), key);
        }
    }
    let end = if hi.len() > 0 && lex_le(hi, user_end()) {
        hi
    } else {
        user_end()
    };
    assert(lex_lt(key, end) <==> (hi.len() == 0 || lex_lt(key, hi)) && lex_lt(key, user_end())) by {
        if hi.len() > 0 {
            lex_lt_total(hi, user_end());
            if lex_le(hi, user_end()) {
                if lex_lt(key, hi) {
                    lex_lt_le(key, hi, user_end());
                }
            } else if lex_lt(key, user_end()) {
                lex_lt_transitive(key, user_end(), hi);
            }
        }
    }
    if !lex_le(a, end) {
        lex_lt_total(a, end);
        if lex_le(a, key) && lex_lt(key, end) {
            lex_le_lt(a, key, end);
        }
        if lex_le(a, key) && lex_lt(key, a) {
            lex_le_lt(a, key, a);
            lex_lt_irreflexive(a);
        }
    }
}

/// Bounds within the user keyspace stay as they are.
pub proof fn user_bounds_stay(lo: Seq<u8>, hi: Seq<u8>)
    requires
        in_user_space(lo),
        in_user_space(hi) || hi == user_end(),
        lex_le(lo, hi),
    ensures
        user_lo(lo) == lo,
        user_hi(lo, hi) == hi,
{
    user_space_is_a_range(lo);
    user_space_is_a_range(hi);
}

/// The bounds of the part of a range that lies in the user keyspace.
pub(crate) fn user_bounds(lo: &[u8], hi: &[u8]) -> (r: (Vec<u8>, Vec<u8>))
    ensures
        r.0@ == user_lo(lo@),
        r.1@ == user_hi(lo@, hi@),
        r.1@.len() > 0,
        lex_le(r.0@, r.1@),
{
    let start: Vec<u8> = vec![KS_USER];
    let end: Vec<u8> = vec![KS_USER + 1];
    assert(start@ =~= user_start());
    assert(end@ =~= user_end());
    let a: Vec<u8> = if bytes_le(start.as_slice(), lo) {
        copy_bytes(lo)
    } else {
        start
    };
    let b: Vec<u8> = if hi.len() > 0 && bytes_le(hi, end.as_slice()) {
        copy_bytes(hi)
    } else {
        end
    };
    if bytes_le(a.as_slice(), b.as_slice()) {
        (a, b)
    } else {
        let top: Vec<u8> = copy_bytes(a.as_slice());
        proof {
            user_space_is_a_range(a@);
            if a@.len() == 0 {
                assert(!lex_lt(user_start(), a@));
            }
        }
        (a, top)
    }
}

/// Every key of a store can be asked for.
pub open spec fn keys_valid(s: Set<Version>) -> bool {
    forall|v: Version| #[trigger]
        s.contains(v) ==> user_key_ok(v.0.user_key) || system_key_ok(v.0.user_key)
}

/// What a lookup of a user or system key finds.
pub open spec fn found(s: Set<Version>, key: Seq<u8>, upper: u64, now_ms: u64) -> Option<Seq<u8>> {
    if user_key_ok(key) || system_key_ok(key) {
        value_at(s, key, upper, now_ms)
    } else {
        None
    }
}

/// The keys of a list ascend.
pub open spec fn keys_ascend(r: Seq<(Seq<u8>, Seq<u8>)>) -> bool {
    forall|i: int, j: int| 0 <= i < j < r.len() ==> lex_lt((#[trigger] r[i]).0, (#[trigger] r[j]).0)
}

/// A list holds, by ascending key, exactly the pairs of a range that lookups find.
pub open spec fn lists_found(
    s: Set<Version>,
    lo: Seq<u8>,
    hi: Seq<u8>,
    upper: u64,
    now_ms: u64,
    r: Seq<(Seq<u8>, Seq<u8>)>,
) -> bool {
    &&& keys_ascend(r)
    &&& forall|key: Seq<u8>, x: Seq<u8>| #[trigger]
        r.contains((key, x)) <==> key_in(key, lo, hi) && found(s, key, upper, now_ms) == Some(x)
}

/// A list holds, by ascending key, exactly the pairs that lookups find of the keys with a
/// prefix.
pub open spec fn lists_found_under(
    s: Set<Version>,
    prefix: Seq<u8>,
    upper: u64,
    now_ms: u64,
    r: Seq<(Seq<u8>, Seq<u8>)>,
) -> bool {
    &&& keys_ascend(r)
    &&& forall|key: Seq<u8>, x: Seq<u8>| #[trigger]
        r.contains((key, x)) <==> has_prefix(key, prefix) && found(s, key, upper, now_ms) == Some(x)
}

/// A list holds, by ascending key, exactly the pairs of a range that lookups of user keys
/// find, and nothing where the range lies outside the user keyspace.
pub open spec fn lists_user_keys(
    s: Set<Version>,
    lo: Seq<u8>,
    hi: Seq<u8>,
    upper: u64,
    now_ms: u64,
    r: Seq<(Seq<u8>, Seq<u8>)>,
) -> bool {
    &&& keys_ascend(r)
    &&& forall|key: Seq<u8>, x: Seq<u8>| #[trigger]
        r.contains((key, x)) <==> key_in(key, lo, hi) && user_key_ok(key) && value_at(
            s,
            key,
            upper,
            now_ms,
        ) == Some(x)
    &&& (forall|key: Seq<u8>| key_in(key, lo, hi) ==> !in_user_space(key)) ==> r.len() == 0
}

/// A scan lists, by ascending key, exactly the pairs of a range that lookups find.
pub proof fn scan_lists_what_get_finds(
    s: Set<Version>,
    lo: Seq<u8>,
    hi: Seq<u8>,
    upper: u64,
    now_ms: u64,
    r: Seq<(Seq<u8>, Seq<u8>)>,
)
    requires
        keys_valid(s),
        listing(s, lo, hi, upper, now_ms, ScanDirection::Forward, r),
    ensures
        lists_found(s, lo, hi, upper, now_ms, r),
{
    assert(keys_ascend(r)) by {
        assert forall|i: int, j: int| 0 <= i < j < r.len() implies lex_lt(
            (#[trigger] r[i]).0,
            (#[trigger] r[j]).0,
        ) by {
            assert(crate::iter::key_ahead(ScanDirection::Forward, r[i].0, r[j].0));
        }
    }
    assert forall|key: Seq<u8>, x: Seq<u8>| #[trigger] r.contains((key, x)) <==> key_in(
        key,
        lo,
        hi,
    ) && found(s, key, upper, now_ms) == Some(x) by {
        found_is_value(s, key, upper, now_ms);
        if r.contains((key, x)) {
            let i = choose|i: int| 0 <= i < r.len() && r[i] == (key, x);
            assert(value_at(s, r[i].0, upper, now_ms) == Some(r[i].1));
        }
        if key_in(key, lo, hi) && found(s, key, upper, now_ms) == Some(x) {
            assert(lists(r, key));
            let i = choose|i: int| 0 <= i < r.len() && (#[trigger] r[i]).0 == key;
            assert(r[i] == (key, x));
        }
    }
}

proof fn found_is_value(s: Set<Version>, key: Seq<u8>, upper: u64, now_ms: u64)
    requires
        keys_valid(s),
    ensures
        found(s, key, upper, now_ms) == value_at(s, key, upper, now_ms),
{
    crate::store::newest_holds(s, key, upper);
}

/// A prefix scan lists, by ascending key, exactly the pairs that lookups find of the keys
/// with the prefix, whatever bytes the prefix ends in.
pub proof fn prefix_scan_lists_what_get_finds(
    s: Set<Version>,
    prefix: Seq<u8>,
    upper: u64,
    now_ms: u64,
    r: Seq<(Seq<u8>, Seq<u8>)>,
)
    requires
        keys_valid(s),
        listing(s, prefix, after_prefix(prefix), upper, now_ms, ScanDirection::Forward, r),
    ensures
        lists_found_under(s, prefix, upper, now_ms, r),
{
    scan_lists_what_get_finds(s, prefix, after_prefix(prefix), upper, now_ms, r);
    assert forall|key: Seq<u8>, x: Seq<u8>| #[trigger] r.contains((key, x)) <==> has_prefix(
        key,
        prefix,
    ) && found(s, key, upper, now_ms) == Some(x) by {
        prefix_range_is_tight(prefix, key);
    }
}

/// A scan of the engine lists, by ascending key, exactly the pairs of a range that lookups
/// of user keys find. A range outside the user keyspace lists nothing.
pub proof fn engine_scan_lists_what_get_finds(
    s: Set<Version>,
    lo: Seq<u8>,
    hi: Seq<u8>,
    upper: u64,
    now_ms: u64,
    r: Seq<(Seq<u8>, Seq<u8>)>,
)
    requires
        keys_valid(s),
        listing(s, user_lo(lo), user_hi(lo, hi), upper, now_ms, ScanDirection::Forward, r),
    ensures
        lists_user_keys(s, lo, hi, upper, now_ms, r),
{
    scan_lists_what_get_finds(s, user_lo(lo), user_hi(lo, hi), upper, now_ms, r);
    assert forall|key: Seq<u8>, x: Seq<u8>| #[trigger] r.contains((key, x)) <==> key_in(
        key,
        lo,
        hi,
    ) && user_key_ok(key) && value_at(s, key, upper, now_ms) == Some(x) by {
        user_range(lo, hi, key);
        found_is_value(s, key, upper, now_ms);
    }
    if r.len() > 0 {
        assert(r.contains((r[0].0, r[0].1)));
        user_range(lo, hi, r[0].0);
        assert(key_in(r[0].0, lo, hi));
    }
}

/// The keys of all operations of a record can be asked for.
pub open spec fn record_valid(e: WalView) -> bool {
    forall|i: int|
        0 <= i < e.ops.len() ==> user_key_ok((#[trigger] e.ops[i]).key) || system_key_ok(
            e.ops[i].key,
        )
}

proof fn writes_are_valid(e: WalView, v: Version)
    requires
        record_valid(e),
        e.writes().contains(v),
    ensures
        user_key_ok(v.0.user_key) || system_key_ok(v.0.user_key),
{
    let i = choose|i: int| 0 <= i < e.writes().len() && e.writes()[i] == v;
    assert(v.0.user_key == e.ops[i].key);
}

/// A record of valid keys keeps the keys of the store valid.
pub proof fn writes_keep_keys_valid(before: Engine, after: Engine, e: WalView)
    requires
        keys_valid(before.store()),
        record_valid(e),
        after.wrote_record(&before, e),
    ensures
        keys_valid(after.store()),
{
    assert forall|v: Version| #[trigger] after.store().contains(v) implies user_key_ok(
        v.0.user_key,
    ) || system_key_ok(v.0.user_key) by {
        if !before.store().contains(v) {
            writes_are_valid(e, v);
        }
    }
}

/// Forced flushes and compactions keep the keys of the store valid.
pub proof fn flush_keeps_keys_valid(before: Engine, after: Engine)
    requires
        keys_valid(before.store()),
        before.wf(),
        after.flushed_from(&before),
    ensures
        keys_valid(after.store()),
{
    if crate::engine::settle::in_memtables(&before) {
        let (mid, n) = choose|mid: Engine, n: nat|
            #![trigger compaction_chain(mid, after, n)]
            mid.wf() && mid.flushed_all(&before) && compaction_chain(mid, after, n)
                && after.at_rest();
        compactions_keep_keys_valid(mid, after, n);
    }
}

proof fn compaction_adds_nothing(before: Engine, after: Engine)
    requires
        before.wf(),
        after.compacted_once(&before),
    ensures
        forall|v: Version| #[trigger] after.store().contains(v) ==> before.store().contains(v),
{
    let job = next_job(before.catalog(), before.cfg.compaction);
    let ids = ids_of((job->0).1);
    let rule = before.job_rule((job->0).0.output_level, ids);
    let s = before.layers.tables@;
    let run = input_run(s, ids);
    tables_cohere(before.layers);
    input_run_facts(s, ids);
    split_facts(s, ids);
    compaction_keeps_survivors(run, rule);
    assert forall|v: Version| #[trigger] after.store().contains(v) implies before.store().contains(
        v,
    ) by {
        store_cases(before.layers, v);
        if rest_of(before.layers, ids).contains(v) {
            if in_tables(tables_out(s, ids), v) {
                some_table_holds(s, tables_out(s, ids), v);
            }
        } else {
            assert(compacted(run, rule).contains(v));
            let i = choose|i: int| 0 <= i < run.len() && #[trigger] stays(run, rule, i) && run[i]
                == v;
            assert(run.contains(v));
            some_table_holds(s, tables_in(s, ids), v);
        }
    }
}

proof fn chain_keeps_wf(before: Engine, after: Engine, n: nat)
    requires
        before.wf(),
        compaction_chain(before, after, n),
    ensures
        after.wf(),
{
    if n > 0 {
        let mid = choose|mid: Engine|
            compaction_chain(before, mid, (n - 1) as nat) && #[trigger] after.compacted_once(&mid);
        assert(after.compacted_once(&mid));
    }
}

/// Compactions keep the keys of the store valid.
pub proof fn compactions_keep_keys_valid(before: Engine, after: Engine, n: nat)
    requires
        before.wf(),
        keys_valid(before.store()),
        compaction_chain(before, after, n),
    ensures
        keys_valid(after.store()),
    decreases n,
{
    if n > 0 {
        let mid = choose|mid: Engine|
            compaction_chain(before, mid, (n - 1) as nat) && #[trigger] after.compacted_once(&mid);
        compactions_keep_keys_valid(before, mid, (n - 1) as nat);
        chain_keeps_wf(before, mid, (n - 1) as nat);
        compaction_adds_nothing(mid, after);
    }
}

proof fn added_or_there(s: Set<Version>, added: Seq<Version>, v: Version)
    ensures
        with_versions(s, added).contains(v) ==> s.contains(v) || added.contains(v),
    decreases added.len(),
{
    if added.len() > 0 {
        let front = added.drop_last();
        added_or_there(s, front, v);
        if front.contains(v) {
            let i = choose|i: int| 0 <= i < front.len() && front[i] == v;
            assert(added[i] == v);
        }
        assert(added[added.len() - 1] == added.last());
    }
}

/// What is replayed of a log of valid keys is valid.
pub proof fn replay_keeps_keys_valid(s: Set<Version>, log: Seq<WalView>)
    requires
        keys_valid(s),
        forall|i: int| 0 <= i < log.len() ==> record_valid(#[trigger] log[i]),
    ensures
        keys_valid(s.union(crate::engine::open::written_by(log))),
    decreases log.len(),
{
    let w = crate::engine::open::written_by(log);
    if log.len() > 0 {
        let front = log.drop_last();
        assert forall|i: int| 0 <= i < front.len() implies record_valid(#[trigger] front[i]) by {
            assert(log[i] == front[i]);
        }
        replay_keeps_keys_valid(s, front);
        let e = log[log.len() - 1];
        assert(record_valid(e));
        assert forall|v: Version| #[trigger] s.union(w).contains(v) implies user_key_ok(
            v.0.user_key,
        ) || system_key_ok(v.0.user_key) by {
            if e.writes().contains(v) {
                writes_are_valid(e, v);
            } else {
                added_or_there(crate::engine::open::written_by(front), e.writes(), v);
                assert(s.union(crate::engine::open::written_by(front)).contains(v));
            }
        }
    }
}

} // verus!
