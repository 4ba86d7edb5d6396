//! Sequences of versions: a version is an internal key with its entry.

use vstd::prelude::*;
use crate::bytes::{
    copy_bytes, lex_le, lex_lt, lex_lt_asymmetric, lex_lt_irreflexive, lex_lt_le, lex_lt_total,
};
use crate::entry::{Entry, EntryView};
use crate::keys::{
    key_lt_asymmetric, key_lt_irreflexive, key_lt_transitive, EntryKind, InternalKey, KeyView,
};

verus! {

/// One version of one key.
pub type Version = (KeyView, EntryView);

/// The versions that a sequence of stored pairs holds.
pub open spec fn versions(v: Seq<(InternalKey, Entry)>) -> Seq<Version> {
    Seq::new(v.len(), |i: int| (v[i].0@, v[i].1@))
}

/// Strictly ascending in the order of versions.
pub open spec fn sorted(s: Seq<Version>) -> bool {
    forall|i: int, j: int| 0 <= i < j < s.len() ==> (#[trigger] s[i]).0.lt((#[trigger] s[j]).0)
}

/// The versions of the user keys from `lo` up to but not including `hi`, in their order.
pub open spec fn range_of(s: Seq<Version>, lo: Seq<u8>, hi: Seq<u8>) -> Seq<Version>
    decreases s.len(),
{
    if s.len() == 0 {
        s
    } else if lex_le(lo, s.last().0.user_key) && lex_lt(s.last().0.user_key, hi) {
        range_of(s.drop_last(), lo, hi).push(s.last())
    } else {
        range_of(s.drop_last(), lo, hi)
    }
}

/// A range of a sorted run is sorted, and holds what of the run lies in the range.
proof fn range_facts(s: Seq<Version>, lo: Seq<u8>, hi: Seq<u8>)
    requires
        sorted(s),
    ensures
        sorted(range_of(s, lo, hi)),
        forall|v: Version| #[trigger]
            range_of(s, lo, hi).contains(v) <==> s.contains(v) && lex_le(lo, v.0.user_key)
                && lex_lt(v.0.user_key, hi),
    decreases s.len(),
{
    if s.len() > 0 {
        let front = s.drop_last();
        let p = range_of(front, lo, hi);
        let r = range_of(s, lo, hi);
        assert(sorted(front)) by {
            assert forall|i: int, j: int| 0 <= i < j < front.len() implies (
            #[trigger] front[i]).0.lt((#[trigger] front[j]).0) by {
                assert(s[i].0.lt(s[j].0));
            }
        }
        range_facts(front, lo, hi);
        assert forall|v: Version| #[trigger] r.contains(v) <==> s.contains(v) && lex_le(
            lo,
            v.0.user_key,
        ) && lex_lt(v.0.user_key, hi) by {
            if p.contains(v) {
                let i = choose|i: int| 0 <= i < p.len() && p[i] == v;
                assert(r[i] == v);
                let k = choose|k: int| 0 <= k < front.len() && front[k] == v;
                assert(s[k] == v);
            }
            if r.contains(v) && !p.contains(v) {
                let i = choose|i: int| 0 <= i < r.len() && r[i] == v;
                if i < p.len() {
                    assert(p[i] == v);
                }
                assert(v == s[s.len() - 1]);
            }
            if s.contains(v) {
                let k = choose|k: int| 0 <= k < s.len() && s[k] == v;
                if k < front.len() {
                    assert(front[k] == v);
                } else if lex_le(lo, v.0.user_key) && lex_lt(v.0.user_key, hi) {
                    assert(r[r.len() - 1] == v);
                }
            }
        }
        assert forall|i: int, j: int| 0 <= i < j < r.len() implies (#[trigger] r[i]).0.lt(
            (#[trigger] r[j]).0,
        ) by {
            if j < p.len() {
                assert(p[i].0.lt(p[j].0));
            } else {
                assert(p.contains(p[i]));
                let k = choose|k: int| 0 <= k < front.len() && front[k] == p[i];
                assert(s[k].0.lt(s[s.len() - 1].0));
            }
        }
    }
}

/// A sorted run is determined by what it holds.
pub proof fn sorted_runs_agree(a: Seq<Version>, b: Seq<Version>)
    requires
        sorted(a),
        sorted(b),
        forall|v: Version| #[trigger] a.contains(v) <==> b.contains(v),
    ensures
        a == b,
    decreases a.len(),
{
    if a.len() == 0 {
        if b.len() > 0 {
            assert(b.contains(b[0]));
            assert(a.contains(b[0]));
        }
        assert(a =~= b);
    } else {
        let n = a.len() - 1;
        assert(a.contains(a[n]));
        let m = b.len() - 1;
        assert(b.contains(a[n]));
        assert(b.contains(b[m]));
        let i = choose|i: int| 0 <= i < b.len() && b[i] == a[n];
        assert(a.contains(b[m]));
        let j = choose|j: int| 0 <= j < a.len() && a[j] == b[m];
        assert(a[n] == b[m]) by {
            if i < m && j < n {
                assert(b[i].0.lt(b[m].0));
                assert(a[j].0.lt(a[n].0));
                crate::keys::key_lt_asymmetric(a[n].0, b[m].0);
            }
        }
        let x = a.drop_last();
        let y = b.drop_last();
        assert(sorted(x)) by {
            assert forall|p: int, q: int| 0 <= p < q < x.len() implies (#[trigger] x[p]).0.lt(
                (#[trigger] x[q]).0,
            ) by {
                assert(a[p].0.lt(a[q].0));
            }
        }
        assert(sorted(y)) by {
            assert forall|p: int, q: int| 0 <= p < q < y.len() implies (#[trigger] y[p]).0.lt(
                (#[trigger] y[q]).0,
            ) by {
                assert(b[p].0.lt(b[q].0));
            }
        }
        assert forall|v: Version| #[trigger] x.contains(v) <==> y.contains(v) by {
            crate::keys::key_lt_irreflexive(v.0);
            if x.contains(v) {
                let p = choose|p: int| 0 <= p < x.len() && x[p] == v;
                assert(a[p].0.lt(a[n].0));
                assert(a.contains(v));
                assert(b.contains(v));
                let q = choose|q: int| 0 <= q < b.len() && b[q] == v;
                assert(y[q] == v);
            }
            if y.contains(v) {
                let q = choose|q: int| 0 <= q < y.len() && y[q] == v;
                assert(b[q].0.lt(b[m].0));
                assert(b.contains(v));
                assert(a.contains(v));
                let p = choose|p: int| 0 <= p < a.len() && a[p] == v;
                assert(x[p] == v);
            }
        }
        sorted_runs_agree(x, y);
        assert(a =~= x.push(a[n]));
        assert(b =~= y.push(b[m]));
    }
}

/// A run that holds what of a sorted run lies in a range is that range.
pub proof fn is_range_of(part: Seq<Version>, s: Seq<Version>, lo: Seq<u8>, hi: Seq<u8>)
    requires
        sorted(s),
        sorted(part),
        forall|v: Version| #[trigger]
            part.contains(v) <==> s.contains(v) && lex_le(lo, v.0.user_key) && lex_lt(
                v.0.user_key,
                hi,
            ),
    ensures
        part == range_of(s, lo, hi),
{
    range_facts(s, lo, hi);
    sorted_runs_agree(part, range_of(s, lo, hi));
}

/// `v` is a version of `key` that a reader with sequence ceiling `upper` sees.
pub open spec fn visible(v: Version, key: Seq<u8>, upper: u64) -> bool {
    v.0.user_key == key && v.0.seq <= upper
}

/// `v` is the version of `key` in `s` that comes first among those visible
/// under the ceiling `upper`: the newest.
pub open spec fn is_newest(s: Seq<Version>, key: Seq<u8>, upper: u64, v: Version) -> bool {
    &&& s.contains(v)
    &&& visible(v, key, upper)
    &&& forall|w: Version| #[trigger] s.contains(w) && visible(w, key, upper) ==> v.0.le(w.0)
}

/// No version of `key` in `s` is visible under the ceiling `upper`.
pub open spec fn none_visible(s: Seq<Version>, key: Seq<u8>, upper: u64) -> bool {
    forall|w: Version| #[trigger] s.contains(w) ==> !visible(w, key, upper)
}

/// A lookup result: the newest version of `key` under the ceiling, or nothing
/// where none is visible.
pub open spec fn found_newest(s: Seq<Version>, key: Seq<u8>, upper: u64, r: Option<Version>) -> bool {
    match r {
        Some(v) => is_newest(s, key, upper, v),
        None => none_visible(s, key, upper),
    }
}

/// A sorted sequence holds at most one version for each internal key.
pub proof fn sorted_keys_are_unique(s: Seq<Version>, a: Version, b: Version)
    requires
        sorted(s),
        s.contains(a),
        s.contains(b),
        a.0 == b.0,
    ensures
        a == b,
{
    let i = choose|i: int| 0 <= i < s.len() && s[i] == a;
    let j = choose|j: int| 0 <= j < s.len() && s[j] == b;
    key_lt_irreflexive(a.0);
    if i < j {
        assert(s[i].0.lt(s[j].0));
    }
    if j < i {
        assert(s[j].0.lt(s[i].0));
    }
}

/// At most one version is the newest.
pub proof fn newest_is_unique(s: Seq<Version>, key: Seq<u8>, upper: u64, a: Version, b: Version)
    requires
        sorted(s),
        is_newest(s, key, upper, a),
        is_newest(s, key, upper, b),
    ensures
        a == b,
{
    if a.0 != b.0 {
        key_lt_asymmetric(a.0, b.0);
    }
    sorted_keys_are_unique(s, a, b);
}

/// The index of the first stored pair whose key does not come before `key`.
pub fn lower_bound(v: &[(InternalKey, Entry)], key: &InternalKey) -> (i: usize)
    requires
        sorted(versions(v@)),
    ensures
        i <= v@.len(),
        forall|j: int| 0 <= j < i ==> (#[trigger] v@[j]).0@.lt(key@),
        forall|j: int| i <= j < v@.len() ==> !(#[trigger] v@[j]).0@.lt(key@),
{
    let ghost s = versions(v@);
    let mut lo: usize = 0;
    let mut hi: usize = v.len();
    while lo < hi
        invariant
            lo <= hi <= v@.len(),
            s == versions(v@),
            sorted(s),
            forall|j: int| 0 <= j < lo ==> (#[trigger] v@[j]).0@.lt(key@),
            forall|j: int| hi <= j < v@.len() ==> !(#[trigger] v@[j]).0@.lt(key@),
        decreases hi - lo,
    {
        let mid: usize = lo + (hi - lo) / 2;
        if v[mid].0.precedes(key) {
            assert forall|j: int| 0 <= j < mid + 1 implies (#[trigger] v@[j]).0@.lt(key@) by {
                if j < mid {
                    assert(s[j].0.lt(s[mid as int].0));
                    key_lt_transitive(v@[j].0@, v@[mid as int].0@, key@);
                }
            }
            lo = mid + 1;
        } else {
            assert forall|j: int| mid <= j < v@.len() implies !(#[trigger] v@[j]).0@.lt(key@) by {
                if j > mid {
                    assert(s[mid as int].0.lt(s[j].0));
                    if v@[j].0@.lt(key@) {
                        key_lt_transitive(v@[mid as int].0@, v@[j].0@, key@);
                    }
                }
            }
            hi = mid;
        }
    }
    lo
}

/// A copy of a stored pair.
pub fn copy_pair(p: &(InternalKey, Entry)) -> (r: (InternalKey, Entry))
    ensures
        r.0@ == p.0@,
        r.1@ == p.1@,
{
    (p.0.clone(), p.1.clone())
}

/// `v` lies in the user-key range from `lo` up to but not including `hi`. An
/// empty `hi` stands for no upper bound.
pub open spec fn in_range(v: Version, lo: Seq<u8>, hi: Seq<u8>) -> bool {
    lex_le(lo, v.0.user_key) && (hi.len() == 0 || lex_lt(v.0.user_key, hi))
}

/// The first possible version of a user key.
pub open spec fn first_version_of(key: Seq<u8>) -> KeyView {
    KeyView { user_key: key, seq: u64::MAX, kind: EntryKind::Value }
}

/// A version lies before the first possible version of `key` exactly where its
/// user key comes before `key`.
pub proof fn before_first_version(v: KeyView, key: Seq<u8>)
    ensures
        v.lt(first_version_of(key)) <==> lex_lt(v.user_key, key),
{
    lex_lt_irreflexive(key);
}

/// At the first version that does not come before the bound for `key` and
/// `upper` stands the newest visible version of `key`, if there is one.
pub proof fn newest_at_bound(s: Seq<Version>, key: Seq<u8>, upper: u64, i: int)
    requires
        sorted(s),
        0 <= i <= s.len(),
        forall|j: int|
            0 <= j < s.len() ==> (#[trigger] s[j]).0.lt(
                KeyView { user_key: key, seq: upper, kind: EntryKind::Value },
            ) == (j < i),
    ensures
        i < s.len() && s[i].0.user_key == key ==> is_newest(s, key, upper, s[i]),
        !(i < s.len() && s[i].0.user_key == key) ==> none_visible(s, key, upper),
{
    let bound = KeyView { user_key: key, seq: upper, kind: EntryKind::Value };
    assert forall|w: Version| #[trigger] s.contains(w) && visible(w, key, upper) implies i < s.len()
        && s[i].0.user_key == key && s[i].0.le(w.0) by {
        let j = choose|j: int| 0 <= j < s.len() && s[j] == w;
        lex_lt_irreflexive(key);
        assert(!s[j].0.lt(bound));
        assert(j >= i);
        if i < j {
            assert(s[i].0.lt(s[j].0));
        }
        lex_lt_total(s[i].0.user_key, key);
        if lex_lt(s[i].0.user_key, key) {
            assert(s[i].0.lt(bound));
        }
        if lex_lt(key, s[i].0.user_key) {
            lex_lt_asymmetric(key, s[i].0.user_key);
        }
    }
    if i < s.len() && s[i].0.user_key == key {
        assert(!s[i].0.lt(bound));
        assert(s.contains(s[i]));
    }
}

proof fn subrange_is_range(s: Seq<Version>, lo: int, hi: int, start: Seq<u8>, end: Seq<u8>)
    requires
        sorted(s),
        0 <= lo <= hi <= s.len(),
        forall|j: int| 0 <= j < s.len() ==> lex_lt((#[trigger] s[j]).0.user_key, start) == (j < lo),
        forall|j: int| 0 <= j < s.len() ==> lex_lt((#[trigger] s[j]).0.user_key, end) == (j < hi),
    ensures
        sorted(s.subrange(lo, hi)),
        forall|v: Version|
            #[trigger] s.subrange(lo, hi).contains(v) <==> s.contains(v) && lex_le(
                start,
                v.0.user_key,
            ) && lex_lt(v.0.user_key, end),
{
    let part = s.subrange(lo, hi);
    assert forall|v: Version| #[trigger] part.contains(v) <==> s.contains(v) && lex_le(
        start,
        v.0.user_key,
    ) && lex_lt(v.0.user_key, end) by {
        lex_lt_total(v.0.user_key, start);
        lex_lt_irreflexive(start);
        if lex_lt(v.0.user_key, start) {
            lex_lt_asymmetric(v.0.user_key, start);
        }
        if part.contains(v) {
            let j = choose|j: int| 0 <= j < part.len() && part[j] == v;
            assert(s[j + lo] == v);
        }
        if s.contains(v) {
            let j = choose|j: int| 0 <= j < s.len() && s[j] == v;
            if lo <= j < hi {
                assert(part[j - lo] == v);
            }
        }
    }
}


/// The index of the newest version of `user_key` in a sorted run whose sequence
/// number is at most `seq_upper`.
pub fn find_visible(v: &[(InternalKey, Entry)], user_key: &[u8], seq_upper: u64) -> (r: Option<
    usize,
>)
    requires
        sorted(versions(v@)),
    ensures
        match r {
            Some(i) => i < v@.len() && is_newest(
                versions(v@),
                user_key@,
                seq_upper,
                (v@[i as int].0@, v@[i as int].1@),
            ),
            None => none_visible(versions(v@), user_key@, seq_upper),
        },
{
    let bound = InternalKey::new(copy_bytes(user_key), seq_upper, EntryKind::Value);
    let i: usize = lower_bound(v, &bound);
    let ghost s = versions(v@);
    proof {
        newest_at_bound(s, user_key@, seq_upper, i as int);
    }
    if i < v.len() && v[i].0.is_version_of(user_key) {
        Some(i)
    } else {
        None
    }
}

/// The number of versions in a sorted run whose user key comes before `key`.
fn position_of(v: &[(InternalKey, Entry)], key: &[u8]) -> (i: usize)
    requires
        sorted(versions(v@)),
    ensures
        i <= v@.len(),
        forall|j: int|
            0 <= j < v@.len() ==> lex_lt((#[trigger] versions(v@)[j]).0.user_key, key@) == (j < i),
{
    let bound = InternalKey::new(copy_bytes(key), u64::MAX, EntryKind::Value);
    let i: usize = lower_bound(v, &bound);
    let ghost s = versions(v@);
    assert forall|j: int| 0 <= j < v@.len() implies lex_lt((#[trigger] s[j]).0.user_key, key@) == (j
        < i) by {
        before_first_version(s[j].0, key@);
        assert(s[j].0 == v@[j].0@);
    }
    i
}

/// The part of a sorted run with the user keys from `start` up to but not
/// including `end`.
pub fn run_range<'a>(v: &'a [(InternalKey, Entry)], start: &[u8], end: &[u8]) -> (r: &'a [(
    InternalKey,
    Entry,
)])
    requires
        sorted(versions(v@)),
        lex_le(start@, end@),
    ensures
        sorted(versions(r@)),
        forall|x: Version|
            #[trigger] versions(r@).contains(x) <==> versions(v@).contains(x) && lex_le(
                start@,
                x.0.user_key,
            ) && lex_lt(x.0.user_key, end@),
{
    let lo: usize = position_of(v, start);
    let hi: usize = position_of(v, end);
    let ghost s = versions(v@);
    proof {
        if lo > hi {
            lex_lt_le(s[hi as int].0.user_key, start@, end@);
        }
        subrange_is_range(s, lo as int, hi as int, start@, end@);
    }
    let r: &'a [(InternalKey, Entry)] = vstd::slice::slice_subrange(v, lo, hi);
    assert(versions(r@) =~= s.subrange(lo as int, hi as int));
    r
}

/// The part of a sorted run with the user keys from `start` on.
pub fn run_range_from<'a>(v: &'a [(InternalKey, Entry)], start: &[u8]) -> (r: &'a [(
    InternalKey,
    Entry,
)])
    requires
        sorted(versions(v@)),
    ensures
        sorted(versions(r@)),
        forall|x: Version|
            #[trigger] versions(r@).contains(x) <==> versions(v@).contains(x) && lex_le(
                start@,
                x.0.user_key,
            ),
{
    let lo: usize = position_of(v, start);
    let n: usize = v.len();
    let ghost s = versions(v@);
    let r: &'a [(InternalKey, Entry)] = vstd::slice::slice_subrange(v, lo, n);
    proof {
        let part = s.subrange(lo as int, n as int);
        assert(versions(r@) =~= part);
        assert forall|x: Version| #[trigger] part.contains(x) <==> s.contains(x) && lex_le(
            start@,
            x.0.user_key,
        ) by {
            lex_lt_total(x.0.user_key, start@);
            lex_lt_irreflexive(start@);
            if lex_lt(x.0.user_key, start@) {
                lex_lt_asymmetric(x.0.user_key, start@);
            }
            if part.contains(x) {
                let j = choose|j: int| 0 <= j < part.len() && part[j] == x;
                assert(s[j + lo] == x);
            }
            if s.contains(x) {
                let j = choose|j: int| 0 <= j < s.len() && s[j] == x;
                if j >= lo {
                    assert(part[j - lo] == x);
                }
            }
        }
    }
    r
}

} // verus!
