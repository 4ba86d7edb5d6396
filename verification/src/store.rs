//! What a store of versions means to its readers.
//!
//! A store is a set of versions, spread over layers. A reader sees, of each key,
//! the version with the largest sequence number that is not above the reader's
//! ceiling.

use vstd::prelude::*;
use crate::bytes::{lex_le, lex_lt, lex_lt_asymmetric, lex_lt_irreflexive};
use crate::iter::{
    ahead, at_or_below, dedup_keeps_live_heads, dedup_yields_each_key_once, is_head, key_ahead,
    live_heads, merge_is_ordered, merge_keeps_every_version, merged, ordered, ScanDirection,
};
use crate::keys::EntryKind;
use crate::memtable::same_slot;
use crate::records::{found_newest, in_range, visible, Version};

verus! {

/// All versions of the layers.
pub open spec fn union_of(layers: Seq<Seq<Version>>) -> Set<Version> {
    Set::new(|v: Version| holds(layers, v))
}

/// Some layer holds the version.
pub open spec fn holds(layers: Seq<Seq<Version>>, v: Version) -> bool {
    exists|i: int| 0 <= i < layers.len() && (#[trigger] layers[i]).contains(v)
}

/// A tombstone has no value, and everything else has one.
pub open spec fn proper(v: Version) -> bool {
    v.0.kind == EntryKind::Tombstone <==> v.1.value is None
}

/// A key and a sequence number determine a version, and versions are proper.
pub open spec fn coherent(s: Set<Version>) -> bool {
    &&& forall|v: Version| #[trigger] s.contains(v) ==> proper(v)
    &&& forall|v: Version, w: Version|
        #![trigger s.contains(v), s.contains(w)]
        s.contains(v) && s.contains(w) && v.0.user_key == w.0.user_key && v.0.seq == w.0.seq
            ==> v == w
}

/// The store with a version in place of the one of the same key and sequence number. Of a
/// value and a tombstone with one key and one number, too, only the later one stays.
pub open spec fn with_version(s: Set<Version>, new: Version) -> Set<Version> {
    Set::new(|v: Version| v == new || (s.contains(v) && !same_slot(v.0, new.0)))
}

/// The store with some versions, a later one in place of an earlier one of the same key
/// and sequence number.
pub open spec fn with_versions(s: Set<Version>, added: Seq<Version>) -> Set<Version>
    decreases added.len(),
{
    if added.len() == 0 {
        s
    } else {
        with_version(with_versions(s, added.drop_last()), added.last())
    }
}

/// Versions of other keys and numbers stay apart from those that are added.
pub proof fn added_apart(a: Set<Version>, b: Set<Version>, added: Seq<Version>)
    requires
        forall|v: Version, i: int|
            #![trigger a.contains(v), added[i]]
            a.contains(v) && 0 <= i < added.len() ==> !same_slot(v.0, added[i].0),
    ensures
        with_versions(a.union(b), added) == a.union(with_versions(b, added)),
    decreases added.len(),
{
    if added.len() > 0 {
        let front = added.drop_last();
        let new = added.last();
        assert forall|v: Version, i: int|
            #![trigger a.contains(v), front[i]]
            a.contains(v) && 0 <= i < front.len() implies !same_slot(v.0, front[i].0) by {
            assert(front[i] == added[i]);
        }
        added_apart(a, b, front);
        assert(added[added.len() - 1] == new);
        assert(with_versions(a.union(b), added) =~= a.union(with_versions(b, added)));
    }
}

/// What is added or was there is what is there.
pub proof fn added_cases(s: Set<Version>, added: Seq<Version>, v: Version)
    ensures
        with_versions(s, added).contains(v) ==> s.contains(v) || added.contains(v),
    decreases added.len(),
{
    if added.len() > 0 {
        added_cases(s, added.drop_last(), v);
        if added.drop_last().contains(v) {
            let i = choose|i: int| 0 <= i < added.drop_last().len() && added.drop_last()[i] == v;
            assert(added[i] == v);
        }
        if v == added.last() {
            assert(added[added.len() - 1] == v);
        }
    }
}

/// Versions of other keys are not touched by what is added.
pub proof fn added_elsewhere(s: Set<Version>, added: Seq<Version>, v: Version)
    requires
        forall|i: int| 0 <= i < added.len() ==> (#[trigger] added[i]).0.user_key != v.0.user_key,
    ensures
        with_versions(s, added).contains(v) <==> s.contains(v),
    decreases added.len(),
{
    if added.len() > 0 {
        assert(added[added.len() - 1].0.user_key != v.0.user_key);
        assert forall|i: int| 0 <= i < added.drop_last().len() implies (
        #[trigger] added.drop_last()[i]).0.user_key != v.0.user_key by {
            assert(added[i].0.user_key != v.0.user_key);
        }
        added_elsewhere(s, added.drop_last(), v);
    }
}

/// A version that is added stands, alone under its key and sequence number, where no
/// later one of them is added.
pub proof fn last_added_stays(s: Set<Version>, added: Seq<Version>, i: int)
    requires
        0 <= i < added.len(),
        forall|j: int| i < j < added.len() ==> !same_slot((#[trigger] added[j]).0, added[i].0),
    ensures
        with_versions(s, added).contains(added[i]),
        forall|v: Version| #[trigger]
            with_versions(s, added).contains(v) && same_slot(v.0, added[i].0) ==> v == added[i],
    decreases added.len(),
{
    let n = added.len() - 1;
    if i < n {
        let front = added.drop_last();
        assert(front[i] == added[i]);
        assert forall|j: int| i < j < front.len() implies !same_slot(
            (#[trigger] front[j]).0,
            front[i].0,
        ) by {
            assert(added[j] == front[j]);
        }
        last_added_stays(s, front, i);
        assert(!same_slot(added[n].0, added[i].0));
    }
}

/// Proper versions can be added to a coherent store.
pub proof fn added_coherent(s: Set<Version>, added: Seq<Version>)
    requires
        coherent(s),
        forall|i: int| 0 <= i < added.len() ==> proper(#[trigger] added[i]),
    ensures
        coherent(with_versions(s, added)),
    decreases added.len(),
{
    if added.len() > 0 {
        let front = added.drop_last();
        assert forall|i: int| 0 <= i < front.len() implies proper(#[trigger] front[i]) by {
            assert(added[i] == front[i]);
        }
        added_coherent(s, front);
        let t = with_versions(s, front);
        let u = with_versions(s, added);
        assert(proper(added[added.len() - 1]));
        assert forall|v: Version| #[trigger] u.contains(v) implies proper(v) by {
            if v != added.last() {
                assert(t.contains(v));
            }
        }
        assert forall|v: Version, w: Version|
            #![trigger u.contains(v), u.contains(w)]
            u.contains(v) && u.contains(w) && v.0.user_key == w.0.user_key && v.0.seq
                == w.0.seq implies v == w by {
            if v != added.last() && w != added.last() {
                assert(t.contains(v) && t.contains(w));
            }
        }
    }
}

/// Versions of one sequence number that the store does not hold, with one for each key,
/// join what it holds.
pub proof fn added_join(s: Set<Version>, added: Seq<Version>)
    requires
        forall|v: Version, i: int|
            #![trigger s.contains(v), added[i]]
            s.contains(v) && 0 <= i < added.len() ==> !same_slot(v.0, added[i].0),
        forall|i: int, j: int|
            0 <= i < j < added.len() ==> !same_slot((#[trigger] added[i]).0, (#[trigger] added[j]).0),
    ensures
        with_versions(s, added) == s.union(added.to_set()),
    decreases added.len(),
{
    if added.len() > 0 {
        let front = added.drop_last();
        let new = added.last();
        assert forall|v: Version, i: int|
            #![trigger s.contains(v), front[i]]
            s.contains(v) && 0 <= i < front.len() implies !same_slot(v.0, front[i].0) by {
            assert(front[i] == added[i]);
        }
        assert forall|i: int, j: int| 0 <= i < j < front.len() implies !same_slot(
            (#[trigger] front[i]).0,
            (#[trigger] front[j]).0,
        ) by {
            assert(front[i] == added[i] && front[j] == added[j]);
        }
        added_join(s, front);
        assert(added[added.len() - 1] == new);
        assert forall|v: Version| #[trigger]
            with_versions(s, added).contains(v) <==> s.union(added.to_set()).contains(v) by {
            if front.contains(v) {
                let i = choose|i: int| 0 <= i < front.len() && front[i] == v;
                assert(added[i] == v);
                assert(!same_slot(added[i].0, added[added.len() - 1].0));
            }
            if added.contains(v) {
                let i = choose|i: int| 0 <= i < added.len() && added[i] == v;
                if i < front.len() {
                    assert(front[i] == v);
                }
            }
        }
        assert(with_versions(s, added) =~= s.union(added.to_set()));
    } else {
        assert(s.union(added.to_set()) =~= s);
    }
}

/// `v` is the newest version of `key` that a reader with ceiling `upper` sees.
pub open spec fn newest_in(s: Set<Version>, key: Seq<u8>, upper: u64, v: Version) -> bool {
    &&& s.contains(v)
    &&& visible(v, key, upper)
    &&& forall|w: Version| #[trigger] s.contains(w) && visible(w, key, upper) ==> w.0.seq <= v.0.seq
}

/// The newest version of `key` that a reader with ceiling `upper` sees.
pub open spec fn newest(s: Set<Version>, key: Seq<u8>, upper: u64) -> Option<Version> {
    if exists|v: Version| newest_in(s, key, upper, v) {
        Some(choose|v: Version| newest_in(s, key, upper, v))
    } else {
        None
    }
}

/// What a reader with ceiling `upper` gets for `key` at time `now_ms`.
pub open spec fn value_at(s: Set<Version>, key: Seq<u8>, upper: u64, now_ms: u64) -> Option<Seq<u8>> {
    match newest(s, key, upper) {
        Some(v) => v.1.read_at(now_ms),
        None => None,
    }
}

/// What a reader gets for `key`, with the sequence number of the version.
pub open spec fn value_and_seq_at(s: Set<Version>, key: Seq<u8>, upper: u64, now_ms: u64) -> Option<
    (Seq<u8>, u64),
> {
    match newest(s, key, upper) {
        Some(v) => match v.1.read_at(now_ms) {
            Some(x) => Some((x, v.0.seq)),
            None => None,
        },
        None => None,
    }
}

/// `key` lies in the range from `lo` up to but not including `hi`. An empty `hi`
/// stands for no upper bound.
pub open spec fn key_in(key: Seq<u8>, lo: Seq<u8>, hi: Seq<u8>) -> bool {
    lex_le(lo, key) && (hi.len() == 0 || lex_lt(key, hi))
}

/// `r` lists what a reader gets in a range: every key with a value, once, in the
/// direction of the scan.
pub open spec fn listing(
    s: Set<Version>,
    lo: Seq<u8>,
    hi: Seq<u8>,
    upper: u64,
    now_ms: u64,
    dir: ScanDirection,
    r: Seq<(Seq<u8>, Seq<u8>)>,
) -> bool {
    &&& forall|i: int, j: int|
        0 <= i < j < r.len() ==> key_ahead(dir, (#[trigger] r[i]).0, (#[trigger] r[j]).0)
    &&& forall|i: int|
        0 <= i < r.len() ==> key_in((#[trigger] r[i]).0, lo, hi) && value_at(
            s,
            r[i].0,
            upper,
            now_ms,
        ) == Some(r[i].1)
    &&& forall|key: Seq<u8>|
        key_in(key, lo, hi) && (#[trigger] value_at(s, key, upper, now_ms)) is Some ==> lists(r, key)
}

/// The list holds the key.
pub open spec fn lists(r: Seq<(Seq<u8>, Seq<u8>)>, key: Seq<u8>) -> bool {
    exists|i: int| 0 <= i < r.len() && (#[trigger] r[i]).0 == key
}

/// In a coherent store at most one version is the newest.
pub proof fn newest_is(s: Set<Version>, key: Seq<u8>, upper: u64, v: Version)
    requires
        coherent(s),
        newest_in(s, key, upper, v),
    ensures
        newest(s, key, upper) == Some(v),
{
    let w = choose|w: Version| newest_in(s, key, upper, w);
    assert(newest_in(s, key, upper, w));
}

/// A key of which nothing is visible has no newest version.
pub proof fn newest_is_none(s: Set<Version>, key: Seq<u8>, upper: u64)
    requires
        forall|w: Version| #[trigger] s.contains(w) ==> !visible(w, key, upper),
    ensures
        newest(s, key, upper) is None,
{
}

/// The newest version that the store names is the newest.
pub proof fn newest_holds(s: Set<Version>, key: Seq<u8>, upper: u64)
    ensures
        newest(s, key, upper) matches Some(v) ==> newest_in(s, key, upper, v),
{
}

/// Two lists of one range are equal.
pub proof fn listing_is_unique(
    s: Set<Version>,
    lo: Seq<u8>,
    hi: Seq<u8>,
    upper: u64,
    now_ms: u64,
    dir: ScanDirection,
    a: Seq<(Seq<u8>, Seq<u8>)>,
    b: Seq<(Seq<u8>, Seq<u8>)>,
)
    requires
        listing(s, lo, hi, upper, now_ms, dir, a),
        listing(s, lo, hi, upper, now_ms, dir, b),
    ensures
        a == b,
{
    listing_prefix(s, lo, hi, upper, now_ms, dir, a, b, a.len() as int);
    listing_prefix(s, lo, hi, upper, now_ms, dir, b, a, b.len() as int);
    assert(a =~= b);
}

proof fn key_ahead_irreflexive(dir: ScanDirection, a: Seq<u8>)
    ensures
        !key_ahead(dir, a, a),
{
    lex_lt_irreflexive(a);
}

proof fn listing_prefix(
    s: Set<Version>,
    lo: Seq<u8>,
    hi: Seq<u8>,
    upper: u64,
    now_ms: u64,
    dir: ScanDirection,
    a: Seq<(Seq<u8>, Seq<u8>)>,
    b: Seq<(Seq<u8>, Seq<u8>)>,
    n: int,
)
    requires
        listing(s, lo, hi, upper, now_ms, dir, a),
        listing(s, lo, hi, upper, now_ms, dir, b),
        0 <= n <= a.len(),
    ensures
        n <= b.len(),
        forall|i: int| 0 <= i < n ==> a[i] == #[trigger] b[i],
    decreases n,
{
    if n > 0 {
        listing_prefix(s, lo, hi, upper, now_ms, dir, a, b, n - 1);
        let k = a[n - 1].0;
        assert(value_at(s, k, upper, now_ms) is Some);
        assert(lists(b, k));
        let j = choose|j: int| 0 <= j < b.len() && (#[trigger] b[j]).0 == k;
        key_ahead_irreflexive(dir, k);
        if j < n - 1 {
            assert(a[j] == b[j]);
            assert(key_ahead(dir, a[j].0, a[n - 1].0));
        }
        if j > n - 1 {
            let m = b[n - 1].0;
            assert(value_at(s, m, upper, now_ms) is Some);
            assert(lists(a, m));
            let i = choose|i: int| 0 <= i < a.len() && (#[trigger] a[i]).0 == m;
            key_ahead_irreflexive(dir, m);
            assert(key_ahead(dir, b[n - 1].0, b[j].0));
            if i < n - 1 {
                assert(a[i] == b[i]);
                assert(key_ahead(dir, b[i].0, b[n - 1].0));
            } else if i > n - 1 {
                assert(key_ahead(dir, a[n - 1].0, a[i].0));
                match dir {
                    ScanDirection::Forward => lex_lt_asymmetric(k, m),
                    ScanDirection::Reverse => lex_lt_asymmetric(m, k),
                }
            }
        }
        assert(b[n - 1] == a[n - 1]);
    }
}

/// The newer of two results, the first where they tie.
pub open spec fn better(a: Option<Version>, b: Option<Version>) -> Option<Version> {
    match (a, b) {
        (Some(v), Some(w)) => if w.0.seq > v.0.seq {
            b
        } else {
            a
        },
        (None, _) => b,
        (_, None) => a,
    }
}

/// Looking a key up in two stores and taking the newer result looks it up in both
/// together.
pub proof fn newest_of_two(
    a: Set<Version>,
    b: Set<Version>,
    key: Seq<u8>,
    upper: u64,
    x: Option<Version>,
    y: Option<Version>,
)
    requires
        newest_or_none(a, key, upper, x),
        newest_or_none(b, key, upper, y),
    ensures
        newest_or_none(a.union(b), key, upper, better(x, y)),
{
    let u = a.union(b);
    match better(x, y) {
        Some(v) => {
            assert(u.contains(v));
            assert forall|w: Version| #[trigger] u.contains(w) && visible(w, key, upper) implies
                w.0.seq <= v.0.seq by {
                if a.contains(w) {
                } else {
                    assert(b.contains(w));
                }
            }
        },
        None => {
            assert forall|w: Version| #[trigger] u.contains(w) implies !visible(w, key, upper) by {
                if a.contains(w) {
                } else {
                    assert(b.contains(w));
                }
            }
        },
    }
}

/// The result of a lookup in a store.
pub open spec fn newest_or_none(s: Set<Version>, key: Seq<u8>, upper: u64, r: Option<Version>) -> bool {
    match r {
        Some(v) => newest_in(s, key, upper, v),
        None => forall|w: Version| #[trigger] s.contains(w) ==> !visible(w, key, upper),
    }
}

/// A lookup in a layer is a lookup in the set of its versions.
pub proof fn layer_lookup(l: Seq<Version>, key: Seq<u8>, upper: u64, r: Option<Version>)
    requires
        found_newest(l, key, upper, r),
    ensures
        newest_or_none(l.to_set(), key, upper, r),
{
    if let Some(v) = r {
        assert(l.contains(v));
        assert forall|w: Version| #[trigger] l.to_set().contains(w) && visible(w, key, upper) implies
            w.0.seq <= v.0.seq by {
            assert(l.contains(w));
            lex_lt_irreflexive(key);
        }
    } else {
        assert forall|w: Version| #[trigger] l.to_set().contains(w) implies !visible(w, key, upper) by {
            assert(l.contains(w));
        }
    }
}

/// The result of a lookup is what the store names.
pub proof fn lookup_is_newest(s: Set<Version>, key: Seq<u8>, upper: u64, r: Option<Version>)
    requires
        coherent(s),
        newest_or_none(s, key, upper, r),
    ensures
        r == newest(s, key, upper),
{
    if let Some(v) = r {
        newest_is(s, key, upper, v);
    } else {
        newest_is_none(s, key, upper);
    }
}

/// What a reader gets from the versions that a scan yields.
pub open spec fn readable(s: Seq<Version>, now_ms: u64) -> Seq<(Seq<u8>, Seq<u8>)>
    decreases s.len(),
{
    if s.len() == 0 {
        Seq::empty()
    } else {
        match s[0].1.read_at(now_ms) {
            Some(x) => seq![(s[0].0.user_key, x)] + readable(s.skip(1), now_ms),
            None => readable(s.skip(1), now_ms),
        }
    }
}

/// Every readable item comes from a version, in the same order.
pub proof fn readable_facts(s: Seq<Version>, now_ms: u64, dir: ScanDirection)
    requires
        forall|i: int, j: int|
            0 <= i < j < s.len() ==> key_ahead(
                dir,
                (#[trigger] s[i]).0.user_key,
                (#[trigger] s[j]).0.user_key,
            ),
    ensures
        ({
            let r = readable(s, now_ms);
            &&& forall|i: int, j: int|
                0 <= i < j < r.len() ==> key_ahead(dir, (#[trigger] r[i]).0, (#[trigger] r[j]).0)
            &&& forall|i: int| 0 <= i < r.len() ==> yielded(s, now_ms, #[trigger] r[i])
            &&& forall|j: int, p: (Seq<u8>, Seq<u8>)| #[trigger]
                yields(s, j, now_ms, p) ==> r.contains(p)
        }),
    decreases s.len(),
{
    let r = readable(s, now_ms);
    if s.len() > 0 {
        let t = s.skip(1);
        assert forall|i: int, j: int| 0 <= i < j < t.len() implies key_ahead(
            dir,
            (#[trigger] t[i]).0.user_key,
            (#[trigger] t[j]).0.user_key,
        ) by {
            assert(t[i] == s[i + 1] && t[j] == s[j + 1]);
        }
        readable_facts(t, now_ms, dir);
        let u = readable(t, now_ms);
        let kept = s[0].1.read_at(now_ms) is Some;
        assert forall|i: int| 0 <= i < r.len() implies yielded(s, now_ms, #[trigger] r[i]) by {
            if kept && i == 0 {
                assert(yields(s, 0, now_ms, r[0]));
            } else {
                let k = if kept {
                    i - 1
                } else {
                    i
                };
                assert(r[i] == u[k]);
                let j = choose|j: int| #[trigger] yields(t, j, now_ms, u[k]);
                assert(yields(s, j + 1, now_ms, r[i]));
            }
        }
        assert forall|j: int, p: (Seq<u8>, Seq<u8>)| #[trigger] yields(s, j, now_ms, p) implies r.contains(
            p,
        ) by {
            if j == 0 {
                assert(r[0] == p);
            } else {
                assert(yields(t, j - 1, now_ms, p));
                let k = choose|k: int| 0 <= k < u.len() && u[k] == p;
                if kept {
                    assert(r[k + 1] == p);
                } else {
                    assert(r[k] == p);
                }
            }
        }
        if kept {
            assert forall|i: int, j: int| 0 <= i < j < r.len() implies key_ahead(
                dir,
                (#[trigger] r[i]).0,
                (#[trigger] r[j]).0,
            ) by {
                assert(r[j] == u[j - 1]);
                if i > 0 {
                    assert(r[i] == u[i - 1]);
                } else {
                    let m = choose|m: int| #[trigger] yields(t, m, now_ms, u[j - 1]);
                    assert(t[m] == s[m + 1]);
                    assert(key_ahead(dir, s[0].0.user_key, s[m + 1].0.user_key));
                }
            }
        }
    }
}

/// Some version yields the item `p` at time `now_ms`.
pub open spec fn yielded(s: Seq<Version>, now_ms: u64, p: (Seq<u8>, Seq<u8>)) -> bool {
    exists|j: int| #[trigger] yields(s, j, now_ms, p)
}

/// Version `j` yields the item `p` at time `now_ms`.
pub open spec fn yields(s: Seq<Version>, j: int, now_ms: u64, p: (Seq<u8>, Seq<u8>)) -> bool {
    0 <= j < s.len() && s[j].0.user_key == p.0 && s[j].1.read_at(now_ms) == Some(p.1)
}

/// The runs that a scan merges hold, of the store, the versions of the range at or
/// below the ceiling.
pub open spec fn runs_cover(
    store: Set<Version>,
    runs: Seq<Seq<Version>>,
    lo: Seq<u8>,
    hi: Seq<u8>,
    upper: u64,
    dir: ScanDirection,
) -> bool {
    &&& forall|i: int| 0 <= i < runs.len() ==> ordered(dir, #[trigger] runs[i])
    &&& forall|v: Version| #[trigger]
        holds(runs, v) <==> store.contains(v) && in_range(v, lo, hi) && v.0.seq <= upper
}

/// Merging the layers, keeping of each key the newest version, and leaving out what
/// is deleted or expired gives what a reader gets.
pub proof fn scan_is_listing(
    store: Set<Version>,
    runs: Seq<Seq<Version>>,
    lo: Seq<u8>,
    hi: Seq<u8>,
    upper: u64,
    now_ms: u64,
    dir: ScanDirection,
)
    requires
        coherent(store),
        runs_cover(store, runs, lo, hi, upper, dir),
    ensures
        listing(
            store,
            lo,
            hi,
            upper,
            now_ms,
            dir,
            readable(live_heads(merged(runs, dir), None), now_ms),
        ),
{
    let m = merged(runs, dir);
    let h = live_heads(m, None);
    let r = readable(h, now_ms);
    merge_keeps_every_version(runs, dir);
    merge_is_ordered(runs, dir);
    dedup_keeps_live_heads(dir, m);
    dedup_yields_each_key_once(dir, m, None);
    readable_facts(h, now_ms, dir);
    assert forall|v: Version| m.contains(v) <==> store.contains(v) && in_range(v, lo, hi) && v.0.seq
        <= upper by {
        assert(holds(runs, v) <==> m.contains(v));
    }
    assert forall|i: int| #[trigger] is_head(m, i) implies newest(store, m[i].0.user_key, upper)
        == Some(m[i]) && in_range(m[i], lo, hi) by {
        head_is_newest(store, m, lo, hi, upper, dir, i);
    }
    assert forall|i: int| 0 <= i < r.len() implies key_in((#[trigger] r[i]).0, lo, hi) && value_at(
        store,
        r[i].0,
        upper,
        now_ms,
    ) == Some(r[i].1) by {
        let j = choose|j: int| #[trigger] yields(h, j, now_ms, r[i]);
        assert(h.contains(h[j]));
        let k = choose|k: int| #[trigger] is_head(m, k) && m[k] == h[j] && h[j].0.kind
            == EntryKind::Value;
        assert(newest(store, m[k].0.user_key, upper) == Some(m[k]));
    }
    assert forall|key: Seq<u8>|
        key_in(key, lo, hi) && (#[trigger] value_at(store, key, upper, now_ms)) is Some implies lists(
        r,
        key,
    ) by {
        newest_holds(store, key, upper);
        let v = newest(store, key, upper)->0;
        assert(store.contains(v));
        assert(m.contains(v));
        let j = choose|j: int| 0 <= j < m.len() && m[j] == v;
        let k = first_of_key(m, j);
        head_is_newest(store, m, lo, hi, upper, dir, k);
        assert(m[k] == v);
        assert(proper(v));
        assert(is_head(m, k));
        assert(h.contains(v));
        let n = choose|n: int| 0 <= n < h.len() && h[n] == v;
        let p = (key, value_at(store, key, upper, now_ms)->0);
        assert(yields(h, n, now_ms, p));
        assert(r.contains(p));
        let q = choose|q: int| 0 <= q < r.len() && r[q] == p;
        assert(r[q].0 == key);
    }
}

proof fn first_of_key(m: Seq<Version>, j: int) -> (k: int)
    requires
        0 <= j < m.len(),
    ensures
        0 <= k <= j,
        is_head(m, k),
        m[k].0.user_key == m[j].0.user_key,
    decreases j,
{
    if is_head(m, j) {
        j
    } else {
        let i = choose|i: int| 0 <= i < j && (#[trigger] m[i]).0.user_key == m[j].0.user_key;
        first_of_key(m, i)
    }
}

proof fn head_is_newest(
    store: Set<Version>,
    m: Seq<Version>,
    lo: Seq<u8>,
    hi: Seq<u8>,
    upper: u64,
    dir: ScanDirection,
    i: int,
)
    requires
        coherent(store),
        ordered(dir, m),
        forall|v: Version|
            m.contains(v) <==> store.contains(v) && in_range(v, lo, hi) && v.0.seq <= upper,
        is_head(m, i),
    ensures
        newest(store, m[i].0.user_key, upper) == Some(m[i]),
        in_range(m[i], lo, hi),
{
    let key = m[i].0.user_key;
    assert(m.contains(m[i]));
    assert forall|w: Version| #[trigger] store.contains(w) && visible(w, key, upper) implies w.0.seq
        <= m[i].0.seq by {
        assert(m.contains(w));
        let j = choose|j: int| 0 <= j < m.len() && m[j] == w;
        if j < i {
            assert(m[j].0.user_key != m[i].0.user_key);
        } else if i < j {
            assert(!ahead(dir, m[j].0, m[i].0));
            lex_lt_irreflexive(key);
        }
    }
    newest_is(store, key, upper, m[i]);
}

/// The versions at or below a ceiling.
pub proof fn at_or_below_contains(s: Seq<Version>, upper: u64, v: Version)
    ensures
        at_or_below(s, upper).contains(v) <==> s.contains(v) && v.0.seq <= upper,
    decreases s.len(),
{
    let r = at_or_below(s, upper);
    if s.len() > 0 {
        let t = at_or_below(s.skip(1), upper);
        at_or_below_contains(s.skip(1), upper, v);
        let kept = s[0].0.seq <= upper;
        if r.contains(v) {
            let i = choose|i: int| 0 <= i < r.len() && r[i] == v;
            if kept && i == 0 {
                assert(s[0] == v);
            } else {
                let k = if kept {
                    i - 1
                } else {
                    i
                };
                assert(t[k] == v);
                let j = choose|j: int| 0 <= j < s.skip(1).len() && s.skip(1)[j] == v;
                assert(s[j + 1] == v);
            }
        }
        if s.contains(v) && v.0.seq <= upper {
            let i = choose|i: int| 0 <= i < s.len() && s[i] == v;
            if i == 0 {
                assert(r[0] == v);
            } else {
                assert(s.skip(1)[i - 1] == v);
                let j = choose|j: int| 0 <= j < t.len() && t[j] == v;
                if kept {
                    assert(r[j + 1] == v);
                } else {
                    assert(r[j] == v);
                }
            }
        }
    }
}

pub proof fn at_or_below_ordered(dir: ScanDirection, s: Seq<Version>, upper: u64)
    requires
        ordered(dir, s),
    ensures
        ordered(dir, at_or_below(s, upper)),
    decreases s.len(),
{
    if s.len() > 0 {
        let t = s.skip(1);
        assert forall|i: int, j: int| 0 <= i < j < t.len() implies !ahead(
            dir,
            (#[trigger] t[j]).0,
            (#[trigger] t[i]).0,
        ) by {
            assert(t[i] == s[i + 1] && t[j] == s[j + 1]);
        }
        at_or_below_ordered(dir, t, upper);
        let u = at_or_below(t, upper);
        let r = at_or_below(s, upper);
        if s[0].0.seq <= upper {
            assert forall|i: int, j: int| 0 <= i < j < r.len() implies !ahead(
                dir,
                (#[trigger] r[j]).0,
                (#[trigger] r[i]).0,
            ) by {
                assert(r[j] == u[j - 1]);
                if i > 0 {
                    assert(r[i] == u[i - 1]);
                } else {
                    at_or_below_contains(t, upper, u[j - 1]);
                    assert(u.contains(u[j - 1]));
                    let k = choose|k: int| 0 <= k < t.len() && t[k] == u[j - 1];
                    assert(t[k] == s[k + 1]);
                    assert(!ahead(dir, s[k + 1].0, s[0].0));
                }
            }
        }
    }
}

} // verus!
