//! Reads: the order of keys, what a reader gets, and what a scan lists.

use vstd::prelude::*;
use crate::bytes::lex_lt;
use crate::codec::{be_bytes, be_value};
use crate::engine::read::{last_seq, snapshot_answer, successor, top_of};
use crate::engine::scans::{user_hi, user_lo};
use crate::entry::EntryView;
use crate::errors::EngineResult;
use crate::iter::{key_ahead, ScanDirection};
use crate::keys::{EntryKind, KeyView};
use crate::manifest::MetaView;
use crate::records::Version;
use crate::snapshot::{after_prefix, Layers};
use crate::store::{
    coherent, key_in, listing, lists, newest_holds, newest_in, newest_is, value_and_seq_at,
    value_at,
};

verus! {

/// The first place at which two byte strings differ: either one ends there, or their bytes
/// differ.
pub open spec fn differ_first_at(a: Seq<u8>, b: Seq<u8>, n: int) -> bool {
    &&& 0 <= n <= a.len() && n <= b.len()
    &&& forall|i: int| 0 <= i < n ==> #[trigger] a[i] == b[i]
}

/// Byte strings are ordered by the first byte in which they differ, and a string comes
/// before those that it begins.
pub proof fn the_first_difference_orders(a: Seq<u8>, b: Seq<u8>)
    ensures
        lex_lt(a, b) <==> exists|n: int| #[trigger]
            differ_first_at(a, b, n) && n < b.len() && (n == a.len() || a[n] < b[n]),
    decreases a.len(),
{
    if lex_lt(a, b) {
        if a.len() == 0 {
            assert(differ_first_at(a, b, 0));
        } else if a[0] != b[0] {
            assert(differ_first_at(a, b, 0));
        } else {
            the_first_difference_orders(a.skip(1), b.skip(1));
            let m = choose|m: int| #[trigger]
                differ_first_at(a.skip(1), b.skip(1), m) && m < b.skip(1).len() && (m == a.skip(
                    1,
                ).len() || a.skip(1)[m] < b.skip(1)[m]);
            assert forall|i: int| 0 <= i < m + 1 implies #[trigger] a[i] == b[i] by {
                if i > 0 {
                    assert(a.skip(1)[i - 1] == b.skip(1)[i - 1]);
                }
            }
            assert(differ_first_at(a, b, m + 1));
        }
    }
    if exists|n: int| #[trigger]
        differ_first_at(a, b, n) && n < b.len() && (n == a.len() || a[n] < b[n]) {
        let n = choose|n: int| #[trigger]
            differ_first_at(a, b, n) && n < b.len() && (n == a.len() || a[n] < b[n]);
        if n > 0 {
            assert(a[0] == b[0]);
            the_first_difference_orders(a.skip(1), b.skip(1));
            assert forall|i: int| 0 <= i < n - 1 implies #[trigger] a.skip(1)[i] == b.skip(
                1,
            )[i] by {
                assert(a[i + 1] == b[i + 1]);
            }
            assert(differ_first_at(a.skip(1), b.skip(1), n - 1));
        }
    }
}

/// Versions are ordered by key, then the newer first, then values before deletions.
pub proof fn newer_versions_come_first(a: KeyView, b: KeyView)
    ensures
        lex_lt(a.user_key, b.user_key) ==> a.lt(b),
        a.user_key == b.user_key && a.seq > b.seq ==> a.lt(b),
        a.user_key == b.user_key && a.seq == b.seq ==> (a.lt(b) <==> a.kind == EntryKind::Value
            && b.kind == EntryKind::Tombstone),
        a.user_key == b.user_key && a.seq < b.seq ==> !a.lt(b),
        lex_lt(b.user_key, a.user_key) ==> !a.lt(b),
{
    crate::bytes::lex_lt_irreflexive(a.user_key);
    if lex_lt(b.user_key, a.user_key) {
        crate::bytes::lex_lt_asymmetric(b.user_key, a.user_key);
    }
}

/// Numbers are written with their most significant byte first.
pub proof fn numbers_are_written_most_significant_first(n: nat, b: Seq<u8>)
    ensures
        b.len() == 2 ==> be_value(b) == b[0] * 0x100 + b[1],
        b.len() == 4 ==> be_value(b) == b[0] * 0x100_0000 + b[1] * 0x1_0000 + b[2] * 0x100 + b[3],
        b.len() == 8 ==> be_value(b) == b[0] * 0x100_0000_0000_0000 + b[1] * 0x1_0000_0000_0000
            + b[2] * 0x100_0000_0000 + b[3] * 0x1_0000_0000 + b[4] * 0x100_0000 + b[5] * 0x1_0000
            + b[6] * 0x100 + b[7],
        be_bytes(n, 2).len() == 2 && be_bytes(n, 4).len() == 4 && be_bytes(n, 8).len() == 8,
        n < 0x1_0000 ==> be_value(be_bytes(n, 2)) == n,
        n < 0x1_0000_0000 ==> be_value(be_bytes(n, 4)) == n,
        n < 0x1_0000_0000_0000_0000 ==> be_value(be_bytes(n, 8)) == n,
{
    reveal_with_fuel(be_value, 9);
    if b.len() == 8 {
        let c = b.drop_last();
        let d = c.drop_last();
        let e = d.drop_last();
        let f = e.drop_last();
        let g = f.drop_last();
        let h = g.drop_last();
        let i = h.drop_last();
        assert(be_value(i) == b[0]);
        assert(be_value(h) == b[0] * 0x100 + b[1]);
        assert(be_value(g) == b[0] * 0x1_0000 + b[1] * 0x100 + b[2]);
        assert(be_value(f) == b[0] * 0x100_0000 + b[1] * 0x1_0000 + b[2] * 0x100 + b[3]);
    }
    crate::codec::be_bytes_len(n, 2);
    crate::codec::be_bytes_len(n, 4);
    crate::codec::be_bytes_len(n, 8);
    crate::codec::be_limits();
    assert(crate::codec::be_limit(2) == 0x1_0000) by {
        reveal_with_fuel(crate::codec::be_limit, 3);
    }
    if n < 0x1_0000 {
        crate::codec::be_value_of_bytes(n, 2);
    }
    if n < 0x1_0000_0000 {
        crate::codec::be_value_of_bytes(n, 4);
    }
    if n < 0x1_0000_0000_0000_0000 {
        crate::codec::be_value_of_bytes(n, 8);
    }
}

/// An entry is expired from the millisecond after its expiry on.
pub open spec fn over(e: EntryView, now_ms: u64) -> bool {
    match e.expires_at {
        Some(t) => 0 < t < now_ms,
        None => false,
    }
}

/// A reader gets the value of the version of a key that is newest at or below the ceiling,
/// unless that version is a deletion or expired. Nothing older is read in its place.
pub proof fn readers_get_the_newest_value(
    s: Set<Version>,
    key: Seq<u8>,
    upper: u64,
    now_ms: u64,
    v: Version,
)
    requires
        coherent(s),
        s.contains(v),
        v.0.user_key == key,
        v.0.seq <= upper,
        forall|w: Version| #[trigger]
            s.contains(w) && w.0.user_key == key && w.0.seq <= upper ==> w.0.seq <= v.0.seq,
    ensures
        value_at(s, key, upper, now_ms) == (if over(v.1, now_ms) {
            None
        } else {
            v.1.value
        }),
        value_and_seq_at(s, key, upper, now_ms) matches Some((x, n)) ==> n == v.0.seq
            && v.1.value == Some(x) && !over(v.1, now_ms),
        value_and_seq_at(s, key, upper, now_ms) is None <==> over(v.1, now_ms) || v.1.value is None,
{
    assert(newest_in(s, key, upper, v));
    newest_is(s, key, upper, v);
}

/// A key without a version at or below the ceiling has no value.
pub proof fn readers_get_nothing_of_unwritten_keys(
    s: Set<Version>,
    key: Seq<u8>,
    upper: u64,
    now_ms: u64,
)
    requires
        forall|w: Version| #[trigger] s.contains(w) && w.0.user_key == key ==> w.0.seq > upper,
    ensures
        value_at(s, key, upper, now_ms) is None,
        value_and_seq_at(s, key, upper, now_ms) is None,
{
    newest_holds(s, key, upper);
}

/// A scan lists each key of its range that has a value, once, with the value that a reader
/// gets, by ascending key forward and by descending key in reverse. An empty upper bound is
/// none.
pub proof fn scans_list_every_value_once(
    s: Set<Version>,
    lo: Seq<u8>,
    hi: Seq<u8>,
    upper: u64,
    now_ms: u64,
    dir: ScanDirection,
    r: Seq<(Seq<u8>, Seq<u8>)>,
)
    requires
        listing(s, lo, hi, upper, now_ms, dir, r),
    ensures
        forall|key: Seq<u8>, x: Seq<u8>| #[trigger]
            r.contains((key, x)) <==> {
                &&& key == lo || lex_lt(lo, key)
                &&& hi.len() == 0 || lex_lt(key, hi)
                &&& value_at(s, key, upper, now_ms) == Some(x)
            },
        dir == ScanDirection::Forward ==> forall|i: int, j: int|
            0 <= i < j < r.len() ==> lex_lt((#[trigger] r[i]).0, (#[trigger] r[j]).0),
        dir == ScanDirection::Reverse ==> forall|i: int, j: int|
            0 <= i < j < r.len() ==> lex_lt((#[trigger] r[j]).0, (#[trigger] r[i]).0),
{
    assert forall|key: Seq<u8>, x: Seq<u8>| #[trigger] r.contains((key, x)) <==> {
        &&& key == lo || lex_lt(lo, key)
        &&& hi.len() == 0 || lex_lt(key, hi)
        &&& value_at(s, key, upper, now_ms) == Some(x)
    } by {
        if r.contains((key, x)) {
            let i = choose|i: int| 0 <= i < r.len() && r[i] == (key, x);
            assert(key_in(r[i].0, lo, hi));
        }
        if key_in(key, lo, hi) && value_at(s, key, upper, now_ms) == Some(x) {
            assert(lists(r, key));
            let i = choose|i: int| 0 <= i < r.len() && (#[trigger] r[i]).0 == key;
            assert(r[i] == (key, x));
        }
    }
    if dir == ScanDirection::Forward {
        assert forall|i: int, j: int| 0 <= i < j < r.len() implies lex_lt(
            (#[trigger] r[i]).0,
            (#[trigger] r[j]).0,
        ) by {
            assert(key_ahead(dir, r[i].0, r[j].0));
        }
    } else {
        assert forall|i: int, j: int| 0 <= i < j < r.len() implies lex_lt(
            (#[trigger] r[j]).0,
            (#[trigger] r[i]).0,
        ) by {
            assert(key_ahead(dir, r[i].0, r[j].0));
        }
    }
}

/// A scan of the engine stays within the keys that begin with a one.
pub proof fn engine_scans_list_user_keys(
    s: Set<Version>,
    lo: Seq<u8>,
    hi: Seq<u8>,
    upper: u64,
    now_ms: u64,
    r: Seq<(Seq<u8>, Seq<u8>)>,
)
    requires
        listing(s, user_lo(lo), user_hi(lo, hi), upper, now_ms, ScanDirection::Forward, r),
    ensures
        forall|key: Seq<u8>, x: Seq<u8>| #[trigger]
            r.contains((key, x)) <==> {
                &&& key.len() > 0 && key[0] == 1
                &&& key == lo || lex_lt(lo, key)
                &&& hi.len() == 0 || lex_lt(key, hi)
                &&& value_at(s, key, upper, now_ms) == Some(x)
            },
{
    scans_list_every_value_once(
        s,
        user_lo(lo),
        user_hi(lo, hi),
        upper,
        now_ms,
        ScanDirection::Forward,
        r,
    );
    assert forall|key: Seq<u8>, x: Seq<u8>| #[trigger] r.contains((key, x)) <==> {
        &&& key.len() > 0 && key[0] == 1
        &&& key == lo || lex_lt(lo, key)
        &&& hi.len() == 0 || lex_lt(key, hi)
        &&& value_at(s, key, upper, now_ms) == Some(x)
    } by {
        crate::engine::scans::user_range(lo, hi, key);
        assert(key_in(key, lo, hi) <==> (key == lo || lex_lt(lo, key)) && (hi.len() == 0 || lex_lt(
            key,
            hi,
        )));
        assert(key_in(key, user_lo(lo), user_hi(lo, hi)) <==> (key == user_lo(lo) || lex_lt(
            user_lo(lo),
            key,
        )) && (user_hi(lo, hi).len() == 0 || lex_lt(key, user_hi(lo, hi))));
    }
}

/// The range of a prefix scan holds just the keys that begin with the prefix.
pub proof fn prefix_scans_list_what_begins_with_the_prefix(prefix: Seq<u8>, key: Seq<u8>)
    ensures
        ({
            let hi = after_prefix(prefix);
            (key == prefix || lex_lt(prefix, key)) && (hi.len() == 0 || lex_lt(key, hi))
        }) <==> prefix.len() <= key.len() && forall|i: int|
            0 <= i < prefix.len() ==> #[trigger] key[i] == prefix[i],
{
    crate::snapshot::prefix_range_is_tight(prefix, key);
    let hi = after_prefix(prefix);
    assert(key_in(key, prefix, hi) <==> (key == prefix || lex_lt(prefix, key)) && (hi.len() == 0
        || lex_lt(key, hi)));
    if prefix.len() <= key.len() {
        if key.take(prefix.len() as int) == prefix {
            assert forall|i: int| 0 <= i < prefix.len() implies #[trigger] key[i] == prefix[i] by {
                assert(key.take(prefix.len() as int)[i] == key[i]);
            }
        }
        if forall|i: int| 0 <= i < prefix.len() ==> #[trigger] key[i] == prefix[i] {
            assert(key.take(prefix.len() as int) =~= prefix);
        }
    }
}

/// Nothing lies between a key and its successor.
pub proof fn the_next_key_is_the_least_greater_one(key: Seq<u8>, other: Seq<u8>)
    ensures
        lex_lt(key, successor(key)),
        lex_lt(key, other) ==> other == successor(key) || lex_lt(successor(key), other),
{
    crate::engine::read::successor_is_next(key, other);
    the_first_difference_orders(key, successor(key));
    assert(differ_first_at(key, successor(key), key.len() as int));
}

/// What a store holds: the versions of its memtables and tables, no more and no less.
pub proof fn a_store_holds_what_its_layers_hold(l: Layers, v: Version)
    ensures
        l.store().contains(v) <==> {
            ||| l.active@.contains(v)
            ||| exists|i: int|
                0 <= i < l.immutables@.len() && (#[trigger] l.immutables@[i])@.contains(v)
            ||| exists|i: int|
                0 <= i < l.tables@.len() && (#[trigger] l.tables@[i]).reader@.contains(v)
        },
{
    crate::engine::store_cases(l, v);
}

/// The last number that was given out is one before the next, and zero where none was.
pub proof fn the_last_number_is_before_the_next(next: u64)
    ensures
        next > 0 ==> last_seq(next) + 1 == next,
        next == 0 ==> last_seq(next) == 0,
{
}

/// The largest number of a catalog bounds all of its tables and is that of one of them.
pub proof fn the_largest_number_of_a_catalog(s: Seq<MetaView>, n: int)
    requires
        0 <= n <= s.len(),
    ensures
        forall|i: int| 0 <= i < n ==> (#[trigger] s[i]).max_seq <= top_of(s, n),
        n > 0 ==> exists|i: int| 0 <= i < n && (#[trigger] s[i]).max_seq == top_of(s, n),
        n == 0 ==> top_of(s, n) == 0,
    decreases n,
{
    if n > 0 {
        the_largest_number_of_a_catalog(s, n - 1);
        if top_of(s, n) == s[n - 1].max_seq {
            assert(s[n - 1].max_seq == top_of(s, n));
        } else {
            let i = choose|i: int| 0 <= i < n - 1 && (#[trigger] s[i]).max_seq == top_of(s, n - 1);
            assert(s[i].max_seq == top_of(s, n));
        }
    }
}

/// A read at a ceiling answers with the value that a reader there gets, for every key that
/// can be stored: of one to 65 536 bytes that start with 0 or 1. It refuses the others.
pub proof fn reads_at_a_ceiling_answer(
    s: Set<Version>,
    key: Seq<u8>,
    upper: u64,
    now_ms: u64,
    r: EngineResult<Option<Vec<u8>>>,
)
    requires
        snapshot_answer(s, key, upper, now_ms, r),
    ensures
        r is Ok <==> 1 <= key.len() <= 65_536 && (key[0] == 0 || key[0] == 1),
        r matches Ok(x) ==> match value_at(s, key, upper, now_ms) {
            Some(v) => x is Some && x->0@ == v,
            None => x is None,
        },
        r matches Err(e) ==> e is InvalidKey,
{
}

} // verus!
