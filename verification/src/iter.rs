//! Ordered streams of versions and the merge of many of them. Reads, scans and
//! compaction share these.
//!
//! A source yields versions by user key, newest version of a key first. The
//! merge depends on it.

use vstd::prelude::*;
use crate::bytes::{
    bytes_eq, bytes_lt, lex_le, lex_lt, lex_lt_asymmetric, lex_lt_irreflexive, lex_lt_total,
    lex_lt_transitive,
};
use crate::entry::Entry;
use crate::errors::EngineResult;
use crate::keys::{
    key_lt_asymmetric, key_lt_irreflexive, key_lt_total, key_lt_transitive, EntryKind, InternalKey,
    KeyView,
};
use crate::memtable::Memtable;
use crate::records::{copy_pair, is_range_of, range_of, sorted, versions, Version};

verus! {

/// A stream of versions that may fail.
pub trait EntryIterator {
    /// The state is consistent.
    spec fn wf(&self) -> bool;

    /// The versions still to come.
    spec fn pending(&self) -> Seq<Version>;

    /// The stream cannot fail.
    spec fn reliable(&self) -> bool;

    /// The next version, or `None` at the end. After an error the stream is to
    /// be treated as exhausted.
    fn next(&mut self) -> (r: EngineResult<Option<(InternalKey, Entry)>>)
        requires
            old(self).wf(),
        ensures
            final(self).wf(),
            old(self).reliable() ==> r is Ok && final(self).reliable(),
            match r {
                Ok(Some((k, e))) => {
                    &&& old(self).pending().len() > 0
                    &&& (k@, e@) == old(self).pending()[0]
                    &&& final(self).pending() == old(self).pending().skip(1)
                },
                Ok(None) => {
                    &&& old(self).pending().len() == 0
                    &&& final(self).pending() == old(self).pending()
                },
                Err(_) => true,
            },
    ;
}

/// What a merge does with the versions of one key.
#[derive(Debug, Clone, Copy, PartialEq, Eq, Structural)]
pub enum MergeMode {
    /// Keep the newest version of each key, and drop it if it is a tombstone.
    Dedup,
    /// Keep every version of every key.
    Raw,
}

/// Whether user keys ascend or descend. Either way the newest version of a key
/// comes first.
#[derive(Debug, Clone, Copy, PartialEq, Eq, Structural)]
pub enum ScanDirection {
    Forward,
    Reverse,
}

/// A merge in direction `dir` yields a version with key `a` ahead of one with
/// key `b`, whatever sources they come from.
pub open spec fn ahead(dir: ScanDirection, a: KeyView, b: KeyView) -> bool {
    match dir {
        ScanDirection::Forward => a.lt(b),
        ScanDirection::Reverse => lex_lt(b.user_key, a.user_key) || (a.user_key == b.user_key
            && a.seq > b.seq),
    }
}

/// No version stands behind one that it should be ahead of.
pub open spec fn ordered(dir: ScanDirection, s: Seq<Version>) -> bool {
    forall|i: int, j: int|
        0 <= i < j < s.len() ==> !ahead(dir, (#[trigger] s[j]).0, (#[trigger] s[i]).0)
}

/// The index among the first `n` runs of the one whose head comes next, or -1.
/// Of heads that tie, the one of the earlier run.
pub open spec fn next_run(runs: Seq<Seq<Version>>, dir: ScanDirection, n: int) -> int
    decreases n,
{
    if n <= 0 {
        -1
    } else {
        let b = next_run(runs, dir, n - 1);
        if runs[n - 1].len() == 0 {
            b
        } else if b < 0 || ahead(dir, runs[n - 1][0].0, runs[b][0].0) {
            n - 1
        } else {
            b
        }
    }
}

/// The number of versions in all runs.
pub open spec fn total_len(runs: Seq<Seq<Version>>) -> nat
    decreases runs.len(),
{
    if runs.len() == 0 {
        0
    } else {
        total_len(runs.drop_last()) + runs.last().len()
    }
}

/// The runs without the head of run `i`.
pub open spec fn advance(runs: Seq<Seq<Version>>, i: int) -> Seq<Seq<Version>> {
    runs.update(i, runs[i].skip(1))
}

/// All versions of all runs in the order of the merge.
pub open spec fn merged(runs: Seq<Seq<Version>>, dir: ScanDirection) -> Seq<Version>
    decreases total_len(runs),
{
    let i = next_run(runs, dir, runs.len() as int);
    if i < 0 {
        Seq::empty()
    } else {
        proof {
            next_run_is_a_run(runs, dir, runs.len() as int);
            advance_shortens(runs, i);
        }
        if 0 <= i < runs.len() && runs[i].len() > 0 {
            seq![runs[i][0]] + merged(advance(runs, i), dir)
        } else {
            Seq::empty()
        }
    }
}

/// Of a grouped sequence, the first version of each user key other than `last`,
/// without the tombstones among them.
pub open spec fn live_heads(s: Seq<Version>, last: Option<Seq<u8>>) -> Seq<Version>
    decreases s.len(),
{
    if s.len() == 0 {
        Seq::empty()
    } else if last == Some(s[0].0.user_key) {
        live_heads(s.skip(1), last)
    } else if s[0].0.kind == EntryKind::Tombstone {
        live_heads(s.skip(1), Some(s[0].0.user_key))
    } else {
        seq![s[0]] + live_heads(s.skip(1), Some(s[0].0.user_key))
    }
}

/// The versions whose sequence number is at most `upper`.
pub open spec fn at_or_below(s: Seq<Version>, upper: u64) -> Seq<Version>
    decreases s.len(),
{
    if s.len() == 0 {
        Seq::empty()
    } else if s[0].0.seq > upper {
        at_or_below(s.skip(1), upper)
    } else {
        seq![s[0]] + at_or_below(s.skip(1), upper)
    }
}

pub proof fn next_run_is_a_run(runs: Seq<Seq<Version>>, dir: ScanDirection, n: int)
    requires
        n <= runs.len(),
    ensures
        next_run(runs, dir, n) < n || n <= 0,
        next_run(runs, dir, n) >= -1,
        next_run(runs, dir, n) >= 0 ==> runs[next_run(runs, dir, n)].len() > 0,
        next_run(runs, dir, n) < 0 ==> forall|j: int|
            0 <= j < n ==> (#[trigger] runs[j]).len() == 0,
    decreases n,
{
    if n > 0 {
        next_run_is_a_run(runs, dir, n - 1);
    }
}

/// Replacing one run changes the total by the difference of the lengths.
pub proof fn total_len_update(runs: Seq<Seq<Version>>, i: int, run: Seq<Version>)
    requires
        0 <= i < runs.len(),
    ensures
        total_len(runs.update(i, run)) + runs[i].len() == total_len(runs) + run.len(),
    decreases runs.len(),
{
    if i == runs.len() - 1 {
        assert(runs.update(i, run).drop_last() =~= runs.drop_last());
    } else {
        assert(runs.update(i, run).drop_last() =~= runs.drop_last().update(i, run));
        total_len_update(runs.drop_last(), i, run);
    }
}

pub proof fn advance_shortens(runs: Seq<Seq<Version>>, i: int)
    ensures
        0 <= i < runs.len() && runs[i].len() > 0 ==> total_len(advance(runs, i)) == total_len(runs)
            - 1,
{
    if 0 <= i < runs.len() && runs[i].len() > 0 {
        total_len_update(runs, i, runs[i].skip(1));
    }
}

proof fn ahead_irreflexive(dir: ScanDirection, a: KeyView)
    ensures
        !ahead(dir, a, a),
{
    key_lt_irreflexive(a);
    lex_lt_irreflexive(a.user_key);
}

proof fn behind_is_transitive(dir: ScanDirection, a: KeyView, b: KeyView, c: KeyView)
    requires
        !ahead(dir, b, a),
        !ahead(dir, c, b),
    ensures
        !ahead(dir, c, a),
{
    match dir {
        ScanDirection::Forward => {
            key_lt_total(a, b);
            key_lt_total(b, c);
            if c.lt(a) {
                if a == b {
                } else if b == c {
                } else {
                    key_lt_transitive(a, b, c);
                    key_lt_asymmetric(a, c);
                }
            }
        },
        ScanDirection::Reverse => {
            lex_lt_total(a.user_key, b.user_key);
            lex_lt_total(b.user_key, c.user_key);
            lex_lt_irreflexive(a.user_key);
            if lex_lt(b.user_key, a.user_key) && lex_lt(c.user_key, b.user_key) {
                lex_lt_transitive(c.user_key, b.user_key, a.user_key);
            }
            if lex_lt(a.user_key, c.user_key) && lex_lt(c.user_key, a.user_key) {
                lex_lt_asymmetric(a.user_key, c.user_key);
            }
        },
    }
}

proof fn ahead_asymmetric(dir: ScanDirection, a: KeyView, b: KeyView)
    requires
        ahead(dir, a, b),
    ensures
        !ahead(dir, b, a),
{
    match dir {
        ScanDirection::Forward => key_lt_asymmetric(a, b),
        ScanDirection::Reverse => {
            lex_lt_irreflexive(a.user_key);
            if lex_lt(b.user_key, a.user_key) {
                lex_lt_asymmetric(b.user_key, a.user_key);
            }
        },
    }
}

/// The head that the merge picks is not behind any other head.
proof fn next_run_is_least(runs: Seq<Seq<Version>>, dir: ScanDirection, n: int, j: int)
    requires
        0 <= j < n <= runs.len(),
        runs[j].len() > 0,
    ensures
        0 <= next_run(runs, dir, n) < n,
        !ahead(dir, runs[j][0].0, runs[next_run(runs, dir, n)][0].0),
    decreases n,
{
    next_run_is_a_run(runs, dir, n);
    next_run_is_a_run(runs, dir, n - 1);
    let b = next_run(runs, dir, n - 1);
    let r = next_run(runs, dir, n);
    ahead_irreflexive(dir, runs[j][0].0);
    if j < n - 1 {
        next_run_is_least(runs, dir, n - 1, j);
        if r == n - 1 {
            if ahead(dir, runs[n - 1][0].0, runs[b][0].0) {
                ahead_asymmetric(dir, runs[n - 1][0].0, runs[b][0].0);
                behind_is_transitive(dir, runs[r][0].0, runs[b][0].0, runs[j][0].0);
            }
        }
    }
}

/// The merge loses nothing and adds nothing: it has as many versions as the
/// runs together, and a version comes out exactly where some run holds it.
pub proof fn merge_keeps_every_version(runs: Seq<Seq<Version>>, dir: ScanDirection)
    ensures
        merged(runs, dir).len() == total_len(runs),
        forall|v: Version|
            #[trigger] merged(runs, dir).contains(v) <==> exists|i: int|
                0 <= i < runs.len() && (#[trigger] runs[i]).contains(v),
    decreases total_len(runs),
{
    let n = runs.len() as int;
    let i = next_run(runs, dir, n);
    next_run_is_a_run(runs, dir, n);
    advance_shortens(runs, i);
    let out = merged(runs, dir);
    if i < 0 {
        all_empty(runs);
        assert forall|v: Version| #[trigger] out.contains(v) <==> exists|j: int|
            0 <= j < runs.len() && (#[trigger] runs[j]).contains(v) by {}
    } else {
        let rest = advance(runs, i);
        let tail = merged(rest, dir);
        merge_keeps_every_version(rest, dir);
        assert(out == seq![runs[i][0]] + tail);
        assert forall|v: Version| #[trigger] out.contains(v) <==> exists|j: int|
            0 <= j < runs.len() && (#[trigger] runs[j]).contains(v) by {
            if out.contains(v) {
                let k = choose|k: int| 0 <= k < out.len() && out[k] == v;
                if k == 0 {
                    assert(runs[i][0] == v);
                    assert(runs[i].contains(v));
                } else {
                    assert(tail[k - 1] == v);
                    assert(tail.contains(v));
                    let j = choose|j: int| 0 <= j < rest.len() && (#[trigger] rest[j]).contains(v);
                    if j == i {
                        let m = choose|m: int| 0 <= m < rest[i].len() && rest[i][m] == v;
                        assert(runs[i][m + 1] == v);
                    }
                    assert(runs[j].contains(v));
                }
            }
            if exists|j: int| 0 <= j < runs.len() && (#[trigger] runs[j]).contains(v) {
                let j = choose|j: int| 0 <= j < runs.len() && (#[trigger] runs[j]).contains(v);
                if j == i {
                    let m = choose|m: int| 0 <= m < runs[i].len() && runs[i][m] == v;
                    if m == 0 {
                        assert(out[0] == v);
                    } else {
                        assert(rest[i][m - 1] == v);
                        assert(rest[i].contains(v));
                        assert(tail.contains(v));
                        let k = choose|k: int| 0 <= k < tail.len() && tail[k] == v;
                        assert(out[k + 1] == v);
                    }
                } else {
                    assert(rest[j].contains(v));
                    assert(tail.contains(v));
                    let k = choose|k: int| 0 <= k < tail.len() && tail[k] == v;
                    assert(out[k + 1] == v);
                }
            }
        }
    }
}

proof fn all_empty(runs: Seq<Seq<Version>>)
    requires
        forall|j: int| 0 <= j < runs.len() ==> (#[trigger] runs[j]).len() == 0,
    ensures
        total_len(runs) == 0,
    decreases runs.len(),
{
    if runs.len() > 0 {
        assert forall|j: int| 0 <= j < runs.drop_last().len() implies (
        #[trigger] runs.drop_last()[j]).len() == 0 by {
            assert(runs[j].len() == 0);
        }
        all_empty(runs.drop_last());
        assert(runs[runs.len() - 1].len() == 0);
    }
}

/// The merge of ordered runs is ordered.
pub proof fn merge_is_ordered(runs: Seq<Seq<Version>>, dir: ScanDirection)
    requires
        forall|i: int| 0 <= i < runs.len() ==> ordered(dir, #[trigger] runs[i]),
    ensures
        ordered(dir, merged(runs, dir)),
    decreases total_len(runs),
{
    let n = runs.len() as int;
    let i = next_run(runs, dir, n);
    next_run_is_a_run(runs, dir, n);
    advance_shortens(runs, i);
    if i >= 0 {
        let rest = advance(runs, i);
        let out = merged(runs, dir);
        let tail = merged(rest, dir);
        assert forall|j: int| 0 <= j < rest.len() implies ordered(dir, #[trigger] rest[j]) by {
            assert(ordered(dir, runs[j]));
        }
        merge_is_ordered(rest, dir);
        merge_keeps_every_version(rest, dir);
        assert forall|a: int, b: int| 0 <= a < b < out.len() implies !ahead(
            dir,
            (#[trigger] out[b]).0,
            (#[trigger] out[a]).0,
        ) by {
            assert(out[b] == tail[b - 1]);
            if a == 0 {
                let v = tail[b - 1];
                assert(tail.contains(v));
                let j = choose|j: int| 0 <= j < rest.len() && (#[trigger] rest[j]).contains(v);
                let m = choose|m: int| 0 <= m < rest[j].len() && rest[j][m] == v;
                assert(ordered(dir, runs[j]));
                next_run_is_least(runs, dir, n, j);
                let at = if j == i {
                    m + 1
                } else {
                    m
                };
                assert(runs[j][at] == v);
                ahead_irreflexive(dir, v.0);
                if at > 0 {
                    assert(!ahead(dir, runs[j][at].0, runs[j][0].0));
                }
                behind_is_transitive(dir, runs[i][0].0, runs[j][0].0, v.0);
            } else {
                assert(out[a] == tail[a - 1]);
            }
        }
    }
}

/// The versions without those that repeat the internal key of the one before.
pub open spec fn once(s: Seq<Version>) -> Seq<Version>
    decreases s.len(),
{
    if s.len() == 0 {
        s
    } else if s.len() > 1 && s[s.len() - 2].0 == s.last().0 {
        once(s.drop_last())
    } else {
        once(s.drop_last()).push(s.last())
    }
}

/// Of an ordered sequence one version of each internal key is left, in order.
pub proof fn once_is_sorted(s: Seq<Version>)
    requires
        ordered(ScanDirection::Forward, s),
    ensures
        sorted(once(s)),
        once(s).len() <= s.len(),
        s.len() > 0 ==> once(s).len() > 0 && once(s).last().0 == s.last().0,
        forall|v: Version| #[trigger] once(s).contains(v) ==> s.contains(v),
        forall|i: int| 0 <= i < s.len() ==> has_internal_key(once(s), (#[trigger] s[i]).0),
    decreases s.len(),
{
    if s.len() > 0 {
        let n = s.len() as int;
        let init = s.drop_last();
        let p = once(init);
        let q = once(s);
        assert(ordered(ScanDirection::Forward, init)) by {
            assert forall|i: int, j: int| 0 <= i < j < init.len() implies !ahead(
                ScanDirection::Forward,
                (#[trigger] init[j]).0,
                (#[trigger] init[i]).0,
            ) by {
                assert(!ahead(ScanDirection::Forward, s[j].0, s[i].0));
            }
        }
        once_is_sorted(init);
        if n > 1 {
            assert(init.last() == s[n - 2]);
            assert(!ahead(ScanDirection::Forward, s[n - 1].0, s[n - 2].0));
            key_lt_total(s[n - 2].0, s[n - 1].0);
        }
        assert forall|v: Version| #[trigger] q.contains(v) implies s.contains(v) by {
            let i = choose|i: int| 0 <= i < q.len() && q[i] == v;
            if i < p.len() {
                assert(p[i] == v);
                assert(p.contains(v));
                let j = choose|j: int| 0 <= j < init.len() && init[j] == v;
                assert(s[j] == v);
            } else {
                assert(s[n - 1] == v);
            }
        }
        assert forall|i: int, j: int| 0 <= i < j < q.len() implies (#[trigger] q[i]).0.lt(
            (#[trigger] q[j]).0,
        ) by {
            if j < p.len() {
                assert(p[i].0.lt(p[j].0));
            } else {
                let last = p.len() - 1;
                assert(p[last].0.lt(s.last().0));
                if i < last {
                    assert(p[i].0.lt(p[last].0));
                    key_lt_transitive(p[i].0, p[last].0, s.last().0);
                }
            }
        }
        assert forall|i: int| 0 <= i < s.len() implies has_internal_key(q, (#[trigger] s[i]).0) by {
            if i < n - 1 {
                assert(init[i] == s[i]);
                let k = choose|k: int| 0 <= k < p.len() && (#[trigger] p[k]).0 == s[i].0;
                assert(q[k].0 == s[i].0);
            } else {
                assert(q[q.len() - 1].0 == s[i].0);
            }
        }
    }
}

/// Some version has the internal key.
pub open spec fn has_internal_key(s: Seq<Version>, key: KeyView) -> bool {
    exists|k: int| 0 <= k < s.len() && (#[trigger] s[k]).0 == key
}

/// The forward merge of sorted runs, with versions that several runs hold taken once.
pub open spec fn merged_once(runs: Seq<Seq<Version>>) -> Seq<Version> {
    once(merged(runs, ScanDirection::Forward))
}

/// Merging sorted runs and taking repeated versions once gives a sorted run.
pub proof fn merge_is_sorted(runs: Seq<Seq<Version>>)
    requires
        forall|i: int| 0 <= i < runs.len() ==> sorted(#[trigger] runs[i]),
    ensures
        ordered(ScanDirection::Forward, merged(runs, ScanDirection::Forward)),
        sorted(merged_once(runs)),
        merged_once(runs).len() <= total_len(runs),
{
    assert forall|i: int| 0 <= i < runs.len() implies ordered(
        ScanDirection::Forward,
        #[trigger] runs[i],
    ) by {
        sorted_is_ordered(runs[i]);
    }
    merge_is_ordered(runs, ScanDirection::Forward);
    merge_keeps_every_version(runs, ScanDirection::Forward);
    once_is_sorted(merged(runs, ScanDirection::Forward));
}

/// Where an internal key determines a version, merging loses and adds none.
pub proof fn merged_once_holds(runs: Seq<Seq<Version>>, v: Version)
    requires
        forall|i: int| 0 <= i < runs.len() ==> sorted(#[trigger] runs[i]),
        forall|i: int, j: int, a: Version, b: Version|
            #![trigger runs[i].contains(a), runs[j].contains(b)]
            0 <= i < runs.len() && 0 <= j < runs.len() && runs[i].contains(a) && runs[j].contains(b)
                && a.0 == b.0 ==> a == b,
    ensures
        merged_once(runs).contains(v) <==> exists|i: int|
            0 <= i < runs.len() && (#[trigger] runs[i]).contains(v),
{
    let all = merged(runs, ScanDirection::Forward);
    merge_is_sorted(runs);
    merge_keeps_every_version(runs, ScanDirection::Forward);
    once_is_sorted(all);
    if exists|i: int| 0 <= i < runs.len() && (#[trigger] runs[i]).contains(v) {
        let i = choose|i: int| 0 <= i < runs.len() && (#[trigger] runs[i]).contains(v);
        assert(all.contains(v));
        let n = choose|n: int| 0 <= n < all.len() && all[n] == v;
        assert(has_internal_key(once(all), all[n].0));
        let k = choose|k: int| 0 <= k < once(all).len() && (#[trigger] once(all)[k]).0 == v.0;
        let w = once(all)[k];
        assert(once(all).contains(w));
        assert(all.contains(w));
        let j = choose|j: int| 0 <= j < runs.len() && (#[trigger] runs[j]).contains(w);
        assert(w == v);
    }
}

/// A strictly sorted run is ordered for a forward merge.
pub proof fn sorted_is_ordered(s: Seq<Version>)
    requires
        sorted(s),
    ensures
        ordered(ScanDirection::Forward, s),
{
    assert forall|i: int, j: int| 0 <= i < j < s.len() implies !ahead(
        ScanDirection::Forward,
        (#[trigger] s[j]).0,
        (#[trigger] s[i]).0,
    ) by {
        key_lt_asymmetric(s[i].0, s[j].0);
    }
}

/// `s[i]` is the first version of its user key in `s`.
pub open spec fn is_head(s: Seq<Version>, i: int) -> bool {
    0 <= i < s.len() && forall|j: int|
        0 <= j < i ==> (#[trigger] s[j]).0.user_key != s[i].0.user_key
}

/// Deduplication of an ordered sequence keeps, of each user key, the first
/// version and nothing else, and that only where it is no tombstone.
pub proof fn dedup_keeps_live_heads(dir: ScanDirection, s: Seq<Version>)
    requires
        ordered(dir, s),
    ensures
        forall|v: Version|
            #[trigger] live_heads(s, None).contains(v) <==> exists|i: int| #[trigger]
                is_head(s, i) && s[i] == v && v.0.kind == EntryKind::Value,
{
    live_heads_after(dir, s, 0, None);
    assert(s.skip(0) =~= s);
}

/// The versions that deduplication keeps past index `n`, where `last` is the
/// user key at `n - 1`.
proof fn live_heads_after(dir: ScanDirection, s: Seq<Version>, n: int, last: Option<Seq<u8>>)
    requires
        ordered(dir, s),
        0 <= n <= s.len(),
        last == (if n == 0 {
            None
        } else {
            Some(s[n - 1].0.user_key)
        }),
    ensures
        forall|v: Version|
            #[trigger] live_heads(s.skip(n), last).contains(v) <==> exists|i: int| #[trigger]
                is_head(s, i) && n <= i && s[i] == v && v.0.kind == EntryKind::Value,
    decreases s.len() - n,
{
    let rest = s.skip(n);
    let out = live_heads(rest, last);
    if n == s.len() {
        assert forall|v: Version| #[trigger] out.contains(v) <==> exists|i: int| #[trigger]
            is_head(s, i) && n <= i && s[i] == v && v.0.kind == EntryKind::Value by {}
    } else {
        let key = s[n].0.user_key;
        assert(rest[0] == s[n]);
        assert(rest.skip(1) =~= s.skip(n + 1));
        live_heads_after(dir, s, n + 1, Some(key));
        let tail = live_heads(s.skip(n + 1), Some(key));
        let kept = last != Some(key) && s[n].0.kind == EntryKind::Value;
        if last == Some(key) {
            assert(!is_head(s, n)) by {
                assert(s[n - 1].0.user_key == key);
            }
        } else {
            assert(is_head(s, n)) by {
                assert forall|j: int| 0 <= j < n implies (#[trigger] s[j]).0.user_key != key by {
                    if s[j].0.user_key == key && j < n - 1 {
                        same_key_is_contiguous(dir, s, j, n - 1, n);
                    }
                }
            }
        }
        if kept {
            assert(out == seq![s[n]] + tail);
        } else {
            assert(out == tail);
        }
        assert forall|v: Version| #[trigger] out.contains(v) <==> exists|i: int| #[trigger]
            is_head(s, i) && n <= i && s[i] == v && v.0.kind == EntryKind::Value by {
            if out.contains(v) {
                let k = choose|k: int| 0 <= k < out.len() && out[k] == v;
                if kept && k == 0 {
                    assert(is_head(s, n) && s[n] == v);
                } else {
                    if kept {
                        assert(tail[k - 1] == v);
                    }
                    assert(tail.contains(v));
                    let i = choose|i: int| #[trigger]
                        is_head(s, i) && n + 1 <= i && s[i] == v && v.0.kind == EntryKind::Value;
                    assert(is_head(s, i) && n <= i);
                }
            }
            if exists|i: int| #[trigger]
                is_head(s, i) && n <= i && s[i] == v && v.0.kind == EntryKind::Value {
                let i = choose|i: int| #[trigger]
                    is_head(s, i) && n <= i && s[i] == v && v.0.kind == EntryKind::Value;
                if i == n {
                    assert(kept);
                    assert(out[0] == v);
                } else {
                    assert(is_head(s, i) && n + 1 <= i);
                    assert(tail.contains(v));
                    let k = choose|k: int| 0 <= k < tail.len() && tail[k] == v;
                    if kept {
                        assert(out[k + 1] == v);
                    } else {
                        assert(out[k] == v);
                    }
                }
            }
        }
    }
}

/// In an ordered sequence the versions of one user key stand together.
pub proof fn same_key_is_contiguous(dir: ScanDirection, s: Seq<Version>, i: int, j: int, k: int)
    requires
        ordered(dir, s),
        0 <= i <= j <= k < s.len(),
        s[i].0.user_key == s[k].0.user_key,
    ensures
        s[j].0.user_key == s[i].0.user_key,
{
    if i < j < k {
        assert(!ahead(dir, s[j].0, s[i].0));
        assert(!ahead(dir, s[k].0, s[j].0));
        lex_lt_total(s[i].0.user_key, s[j].0.user_key);
        if lex_lt(s[i].0.user_key, s[j].0.user_key) {
            lex_lt_asymmetric(s[i].0.user_key, s[j].0.user_key);
        }
        if lex_lt(s[j].0.user_key, s[i].0.user_key) {
            lex_lt_asymmetric(s[j].0.user_key, s[i].0.user_key);
        }
    }
}

/// Deduplication keeps user keys in the direction of the scan, each at most
/// once.
pub proof fn dedup_yields_each_key_once(dir: ScanDirection, s: Seq<Version>, last: Option<Seq<u8>>)
    requires
        ordered(dir, s),
        last matches Some(l) ==> forall|i: int|
            0 <= i < s.len() ==> l == (#[trigger] s[i]).0.user_key || key_ahead(
                dir,
                l,
                s[i].0.user_key,
            ),
    ensures
        forall|i: int, j: int|
            0 <= i < j < live_heads(s, last).len() ==> key_ahead(
                dir,
                (#[trigger] live_heads(s, last)[i]).0.user_key,
                (#[trigger] live_heads(s, last)[j]).0.user_key,
            ),
        last matches Some(l) ==> forall|i: int|
            0 <= i < live_heads(s, last).len() ==> key_ahead(
                dir,
                l,
                (#[trigger] live_heads(s, last)[i]).0.user_key,
            ),
    decreases s.len(),
{
    if s.len() > 0 {
        let key = s[0].0.user_key;
        let rest = s.skip(1);
        assert forall|i: int| 0 <= i < rest.len() implies key == (#[trigger] rest[i]).0.user_key
            || key_ahead(dir, key, rest[i].0.user_key) by {
            assert(!ahead(dir, s[i + 1].0, s[0].0));
            lex_lt_total(key, s[i + 1].0.user_key);
        }
        if last == Some(key) {
            dedup_yields_each_key_once(dir, rest, last);
        } else {
            dedup_yields_each_key_once(dir, rest, Some(key));
            let tail = live_heads(rest, Some(key));
            let out = live_heads(s, last);
            if let Some(l) = last {
                assert(key_ahead(dir, l, key));
                assert forall|i: int| 0 <= i < tail.len() implies key_ahead(
                    dir,
                    l,
                    (#[trigger] tail[i]).0.user_key,
                ) by {
                    match dir {
                        ScanDirection::Forward => lex_lt_transitive(l, key, tail[i].0.user_key),
                        ScanDirection::Reverse => lex_lt_transitive(tail[i].0.user_key, key, l),
                    }
                }
            }
            if s[0].0.kind == EntryKind::Value {
                assert(out =~= seq![s[0]] + tail);
                assert forall|i: int, j: int| 0 <= i < j < out.len() implies key_ahead(
                    dir,
                    (#[trigger] out[i]).0.user_key,
                    (#[trigger] out[j]).0.user_key,
                ) by {
                    assert(out[j] == tail[j - 1]);
                    if i > 0 {
                        assert(out[i] == tail[i - 1]);
                    }
                }
            }
        }
    }
}

/// User key `a` comes strictly ahead of `b` in a scan in direction `dir`.
pub open spec fn key_ahead(dir: ScanDirection, a: Seq<u8>, b: Seq<u8>) -> bool {
    match dir {
        ScanDirection::Forward => lex_lt(a, b),
        ScanDirection::Reverse => lex_lt(b, a),
    }
}

/// A merge of many sources. In [`MergeMode::Dedup`] it leaves out shadowed
/// versions and tombstones.
pub struct MergingIterator<S: EntryIterator> {
    sources: Vec<S>,
    heads: Vec<Option<(InternalKey, Entry)>>,
    mode: MergeMode,
    direction: ScanDirection,
    last_user_key: Option<Vec<u8>>,
}

impl<S: EntryIterator> MergingIterator<S> {
    /// What is left of each source, its head first.
    pub closed spec fn runs(&self) -> Seq<Seq<Version>> {
        Seq::new(
            self.sources@.len(),
            |i: int|
                match self.heads@[i] {
                    Some(p) => seq![(p.0@, p.1@)] + self.sources@[i].pending(),
                    None => Seq::empty(),
                },
        )
    }

    pub closed spec fn direction(&self) -> ScanDirection {
        self.direction
    }

    pub closed spec fn mode(&self) -> MergeMode {
        self.mode
    }

    /// The user key of the version handled last.
    pub closed spec fn last_key(&self) -> Option<Seq<u8>> {
        match self.last_user_key {
            Some(k) => Some(k@),
            None => None,
        }
    }

    pub fn new(sources: Vec<S>, mode: MergeMode) -> (r: EngineResult<Self>)
        requires
            forall|i: int| 0 <= i < sources@.len() ==> (#[trigger] sources@[i]).wf(),
        ensures
            (forall|i: int| 0 <= i < sources@.len() ==> (#[trigger] sources@[i]).reliable()) ==> (
            r matches Ok(m) && m.reliable()),
            r matches Ok(m) ==> {
                &&& m.wf()
                &&& m.mode() == mode
                &&& m.direction() == ScanDirection::Forward
                &&& m.last_key() is None
                &&& m.runs() == Seq::new(sources@.len(), |i: int| sources@[i].pending())
            },
    {
        Self::new_directed(sources, mode, ScanDirection::Forward)
    }

    pub fn new_directed(sources: Vec<S>, mode: MergeMode, direction: ScanDirection) -> (r:
        EngineResult<Self>)
        requires
            forall|i: int| 0 <= i < sources@.len() ==> (#[trigger] sources@[i]).wf(),
        ensures
            (forall|i: int| 0 <= i < sources@.len() ==> (#[trigger] sources@[i]).reliable()) ==> (
            r matches Ok(m) && m.reliable()),
            r matches Ok(m) ==> {
                &&& m.wf()
                &&& m.mode() == mode
                &&& m.direction() == direction
                &&& m.last_key() is None
                &&& m.runs() == Seq::new(sources@.len(), |i: int| sources@[i].pending())
            },
    {
        let ghost start = sources@;
        let mut inputs: Vec<S> = sources;
        let mut heads: Vec<Option<(InternalKey, Entry)>> = Vec::new();
        let n: usize = inputs.len();
        let mut i: usize = 0;
        while i < n
            invariant
                i <= n == inputs@.len() == start.len(),
                heads@.len() == i,
                start == sources@,
                forall|j: int| 0 <= j < n ==> (#[trigger] inputs@[j]).wf(),
                forall|j: int| i <= j < n ==> inputs@[j] == #[trigger] start[j],
                forall|j: int|
                    #![trigger heads@[j]]
                    0 <= j < i ==> start[j].pending() == (match heads@[j] {
                        Some(p) => seq![(p.0@, p.1@)] + inputs@[j].pending(),
                        None => Seq::<Version>::empty(),
                    }),
                (forall|j: int| 0 <= j < n ==> (#[trigger] start[j]).reliable()) ==> forall|j: int|
                    0 <= j < n ==> (#[trigger] inputs@[j]).reliable(),
            decreases n - i,
        {
            let ghost before = inputs@;
            assert(inputs@[i as int] == start[i as int]);
            let head: Option<(InternalKey, Entry)> = match inputs[i].next() {
                Ok(head) => head,
                Err(e) => {
                    return Err(e);
                },
            };
            assert(inputs@ =~= before.update(i as int, inputs@[i as int]));
            proof {
                let p = start[i as int].pending();
                if head is Some {
                    assert(p =~= seq![p[0]] + p.skip(1));
                } else {
                    assert(p =~= Seq::<Version>::empty());
                }
            }
            heads.push(head);
            i = i + 1;
        }
        let m = MergingIterator { sources: inputs, heads, mode, direction, last_user_key: None };
        assert(m.runs() =~= Seq::new(start.len(), |i: int| start[i].pending()));
        Ok(m)
    }

    /// The index of the source whose head comes next.
    fn next_source(&self) -> (r: Option<usize>)
        requires
            self.wf(),
        ensures
            match r {
                Some(i) => i < self.heads@.len() && i == next_run(
                    self.runs(),
                    self.direction,
                    self.runs().len() as int,
                ),
                None => next_run(self.runs(), self.direction, self.runs().len() as int) < 0,
            },
    {
        let mut best: Option<usize> = None;
        let mut i: usize = 0;
        while i < self.heads.len()
            invariant
                i <= self.heads@.len() == self.sources@.len(),
                match best {
                    Some(b) => b < i && b == next_run(self.runs(), self.direction, i as int)
                        && self.heads@[b as int] is Some,
                    None => next_run(self.runs(), self.direction, i as int) < 0,
                },
            decreases self.heads.len() - i,
        {
            if let Some(p) = &self.heads[i] {
                assert(self.runs()[i as int][0] == (p.0@, p.1@));
                match best {
                    None => {
                        best = Some(i);
                    },
                    Some(b) => {
                        if let Some(q) = &self.heads[b] {
                            assert(self.runs()[b as int][0] == (q.0@, q.1@));
                            if key_goes_ahead(self.direction, &p.0, &q.0) {
                                best = Some(i);
                            }
                        }
                    },
                }
            }
            i = i + 1;
        }
        best
    }
}

/// Whether a merge yields `a` ahead of `b`.
fn key_goes_ahead(dir: ScanDirection, a: &InternalKey, b: &InternalKey) -> (r: bool)
    ensures
        r == ahead(dir, a@, b@),
{
    match dir {
        ScanDirection::Forward => a.precedes(b),
        ScanDirection::Reverse => bytes_lt(b.user_key.as_slice(), a.user_key.as_slice()) || (
        bytes_eq(a.user_key.as_slice(), b.user_key.as_slice()) && a.seq > b.seq),
    }
}

impl<S: EntryIterator> EntryIterator for MergingIterator<S> {
    closed spec fn wf(&self) -> bool {
        &&& self.heads@.len() == self.sources@.len()
        &&& forall|i: int| 0 <= i < self.sources@.len() ==> (#[trigger] self.sources@[i]).wf()
    }

    open spec fn pending(&self) -> Seq<Version> {
        match self.mode() {
            MergeMode::Raw => merged(self.runs(), self.direction()),
            MergeMode::Dedup => live_heads(merged(self.runs(), self.direction()), self.last_key()),
        }
    }

    closed spec fn reliable(&self) -> bool {
        forall|i: int| 0 <= i < self.sources@.len() ==> (#[trigger] self.sources@[i]).reliable()
    }

    fn next(&mut self) -> (r: EngineResult<Option<(InternalKey, Entry)>>) {
        let ghost start = self.pending();
        let ghost sure = self.reliable();
        loop
            invariant
                self.wf(),
                self.pending() == start,
                sure ==> self.reliable(),
                sure == old(self).reliable(),
                start == old(self).pending(),
            decreases total_len(self.runs()),
        {
            let ghost before = *self;
            let ghost runs = self.runs();
            let i: usize = match self.next_source() {
                Some(i) => i,
                None => {
                    return Ok(None);
                },
            };
            proof {
                next_run_is_a_run(runs, self.direction, runs.len() as int);
                advance_shortens(runs, i as int);
            }
            let refill: Option<(InternalKey, Entry)> = match self.sources[i].next() {
                Ok(refill) => refill,
                Err(e) => {
                    return Err(e);
                },
            };
            let head: Option<(InternalKey, Entry)> = self.heads.remove(i);
            self.heads.insert(i, refill);
            let top: (InternalKey, Entry) = match head {
                Some(top) => top,
                None => {
                    return Ok(None);
                },
            };
            let ghost m = merged(runs, self.direction);
            proof {
                assert(self.heads@ =~= before.heads@.update(i as int, refill));
                assert(runs[i as int].skip(1) =~= before.sources@[i as int].pending());
                if refill is None {
                    assert(before.sources@[i as int].pending() =~= Seq::<Version>::empty());
                } else {
                    let p = before.sources@[i as int].pending();
                    assert(p =~= seq![p[0]] + p.skip(1));
                }
                assert(self.runs() =~= advance(runs, i as int));
                assert(m[0] == (top.0@, top.1@));
                assert(m.skip(1) =~= merged(self.runs(), self.direction));
            }
            match self.mode {
                MergeMode::Raw => {
                    return Ok(Some(top));
                },
                MergeMode::Dedup => {
                    let shadowed: bool = match &self.last_user_key {
                        Some(prev) => bytes_eq(prev.as_slice(), top.0.user_key.as_slice()),
                        None => false,
                    };
                    if !shadowed {
                        self.last_user_key = Some(
                            crate::bytes::copy_bytes(top.0.user_key.as_slice()),
                        );
                        if matches!(top.0.kind, EntryKind::Value) {
                            assert(start =~= seq![m[0]] + self.pending());
                            assert(start.skip(1) =~= self.pending());
                            return Ok(Some(top));
                        }
                    }
                },
            }
        }
    }
}

/// The versions of a memtable in order, all of them or those of a range of user
/// keys.
pub struct MemtableIter<'a> {
    items: &'a [(InternalKey, Entry)],
    pos: usize,
}

impl<'a> MemtableIter<'a> {
    pub fn full(mt: &'a Memtable) -> (it: MemtableIter<'a>)
        ensures
            it.wf(),
            it.reliable(),
            it.pending() == mt@,
    {
        let it = MemtableIter { items: mt.iter(), pos: 0 };
        assert(it.pending() =~= mt@);
        it
    }

    /// The versions of a run, in its order.
    pub fn of_run(items: &'a [(InternalKey, Entry)]) -> (it: MemtableIter<'a>)
        ensures
            it.wf(),
            it.reliable(),
            it.pending() == versions(items@),
    {
        let it = MemtableIter { items, pos: 0 };
        assert(it.pending() =~= versions(items@));
        it
    }

    /// The versions of the user keys from `lo` up to but not including `hi`.
    pub fn range(mt: &'a Memtable, lo: &[u8], hi: &[u8]) -> (it: MemtableIter<'a>)
        requires
            mt.wf(),
            lex_le(lo@, hi@),
        ensures
            it.wf(),
            it.reliable(),
            it.pending() == range_of(mt@, lo@, hi@),
            sorted(it.pending()),
            forall|v: Version|
                #[trigger] it.pending().contains(v) <==> mt@.contains(v) && lex_le(
                    lo@,
                    v.0.user_key,
                ) && lex_lt(v.0.user_key, hi@),
    {
        let items: &'a [(InternalKey, Entry)] = mt.range(lo, hi);
        let it = MemtableIter { items, pos: 0 };
        assert(it.pending() =~= versions(items@));
        proof {
            mt.lemma_sorted();
            is_range_of(versions(items@), mt@, lo@, hi@);
        }
        it
    }

    /// The versions of the user keys from `lo` on.
    pub fn from_key(mt: &'a Memtable, lo: &[u8]) -> (it: MemtableIter<'a>)
        requires
            mt.wf(),
        ensures
            it.wf(),
            it.reliable(),
            sorted(it.pending()),
            forall|v: Version|
                #[trigger] it.pending().contains(v) <==> mt@.contains(v) && lex_le(
                    lo@,
                    v.0.user_key,
                ),
    {
        let items: &'a [(InternalKey, Entry)] = mt.range_from(lo);
        let it = MemtableIter { items, pos: 0 };
        assert(it.pending() =~= versions(items@));
        it
    }
}

impl<'a> EntryIterator for MemtableIter<'a> {
    closed spec fn wf(&self) -> bool {
        self.pos <= self.items@.len()
    }

    closed spec fn pending(&self) -> Seq<Version> {
        versions(self.items@).skip(self.pos as int)
    }

    open spec fn reliable(&self) -> bool {
        true
    }

    fn next(&mut self) -> (r: EngineResult<Option<(InternalKey, Entry)>>) {
        if self.pos < self.items.len() {
            let pair: (InternalKey, Entry) = copy_pair(&self.items[self.pos]);
            self.pos = self.pos + 1;
            assert(self.pending() =~= old(self).pending().skip(1));
            Ok(Some(pair))
        } else {
            Ok(None)
        }
    }
}

/// Owned versions, yielded in the order they are held in.
pub struct RunIter {
    items: Vec<(InternalKey, Entry)>,
    pos: usize,
}

impl RunIter {
    pub fn new(items: Vec<(InternalKey, Entry)>) -> (it: RunIter)
        ensures
            it.wf(),
            it.reliable(),
            it.pending() == versions(items@),
    {
        let it = RunIter { items, pos: 0 };
        assert(it.pending() =~= versions(items@));
        it
    }
}

impl EntryIterator for RunIter {
    closed spec fn wf(&self) -> bool {
        self.pos <= self.items@.len()
    }

    closed spec fn pending(&self) -> Seq<Version> {
        versions(self.items@).skip(self.pos as int)
    }

    open spec fn reliable(&self) -> bool {
        true
    }

    fn next(&mut self) -> (r: EngineResult<Option<(InternalKey, Entry)>>) {
        if self.pos < self.items.len() {
            let pair: (InternalKey, Entry) = copy_pair(&self.items[self.pos]);
            self.pos = self.pos + 1;
            assert(self.pending() =~= old(self).pending().skip(1));
            Ok(Some(pair))
        } else {
            Ok(None)
        }
    }
}

/// The index at which the versions of the user key of `s[i]` begin, looking back
/// from `i`.
pub open spec fn group_start(s: Seq<Version>, i: int) -> int
    decreases i,
{
    if i <= 0 {
        0
    } else if s[i - 1].0.user_key == s[i].0.user_key {
        group_start(s, i - 1)
    } else {
        i
    }
}

pub proof fn group_start_facts(s: Seq<Version>, i: int)
    requires
        0 <= i < s.len(),
    ensures
        0 <= group_start(s, i) <= i,
        forall|j: int|
            group_start(s, i) <= j <= i ==> (#[trigger] s[j]).0.user_key == s[i].0.user_key,
        group_start(s, i) > 0 ==> s[group_start(s, i) - 1].0.user_key != s[i].0.user_key,
    decreases i,
{
    if i > 0 && s[i - 1].0.user_key == s[i].0.user_key {
        group_start_facts(s, i - 1);
    }
}

/// The versions grouped by user key, the groups in reverse. Within a group the
/// order stays.
pub open spec fn groups_reversed(s: Seq<Version>) -> Seq<Version>
    decreases s.len(),
{
    if s.len() == 0 {
        s
    } else {
        proof {
            group_start_facts(s, s.len() - 1);
        }
        let g = group_start(s, s.len() - 1);
        if 0 <= g < s.len() {
            s.skip(g) + groups_reversed(s.take(g))
        } else {
            s
        }
    }
}

/// Reversing the groups of a sorted run gives it in the order of a reverse scan.
pub proof fn reversed_groups_are_ordered(s: Seq<Version>)
    requires
        sorted(s),
    ensures
        ordered(ScanDirection::Reverse, groups_reversed(s)),
        forall|v: Version| #[trigger] groups_reversed(s).contains(v) <==> s.contains(v),
    decreases s.len(),
{
    let r = groups_reversed(s);
    if s.len() > 0 {
        let n = s.len() as int;
        group_start_facts(s, n - 1);
        let g = group_start(s, n - 1);
        let key = s[n - 1].0.user_key;
        let t = s.take(g);
        let u = groups_reversed(t);
        assert(sorted(t)) by {
            assert forall|i: int, j: int| 0 <= i < j < t.len() implies (#[trigger] t[i]).0.lt(
                (#[trigger] t[j]).0,
            ) by {
                assert(s[i].0.lt(s[j].0));
            }
        }
        reversed_groups_are_ordered(t);
        assert forall|v: Version| #[trigger] r.contains(v) <==> s.contains(v) by {
            if r.contains(v) {
                let i = choose|i: int| 0 <= i < r.len() && r[i] == v;
                if i < n - g {
                    assert(s[i + g] == v);
                } else {
                    assert(u[i - (n - g)] == v);
                    assert(u.contains(v));
                    let j = choose|j: int| 0 <= j < t.len() && t[j] == v;
                    assert(s[j] == v);
                }
            }
            if s.contains(v) {
                let i = choose|i: int| 0 <= i < s.len() && s[i] == v;
                if i >= g {
                    assert(r[i - g] == v);
                } else {
                    assert(t[i] == v);
                    assert(u.contains(v));
                    let j = choose|j: int| 0 <= j < u.len() && u[j] == v;
                    assert(r[j + (n - g)] == v);
                }
            }
        }
        assert forall|a: int| 0 <= a < g implies lex_lt((#[trigger] s[a]).0.user_key, key) by {
            assert(s[g - 1].0.lt(s[g].0));
            assert(s[g].0.user_key == key);
            if a < g - 1 {
                assert(s[a].0.lt(s[g - 1].0));
                if lex_lt(s[a].0.user_key, s[g - 1].0.user_key) {
                    lex_lt_transitive(s[a].0.user_key, s[g - 1].0.user_key, key);
                }
            }
        }
        assert forall|i: int, j: int| 0 <= i < j < r.len() implies !ahead(
            ScanDirection::Reverse,
            (#[trigger] r[j]).0,
            (#[trigger] r[i]).0,
        ) by {
            lex_lt_irreflexive(key);
            if j < n - g {
                assert(r[i] == s[i + g] && r[j] == s[j + g]);
                assert(s[i + g].0.lt(s[j + g].0));
            } else if i < n - g {
                assert(r[i] == s[i + g]);
                let x = u[j - (n - g)];
                assert(r[j] == x);
                assert(u.contains(x));
                let k = choose|k: int| 0 <= k < t.len() && t[k] == x;
                assert(lex_lt(s[k].0.user_key, key));
                lex_lt_asymmetric(s[k].0.user_key, key);
            } else {
                assert(r[i] == u[i - (n - g)] && r[j] == u[j - (n - g)]);
            }
        }
    }
}

/// The versions of a run with the groups of one user key in reverse.
fn reversed_run(items: &[(InternalKey, Entry)]) -> (r: Vec<(InternalKey, Entry)>)
    ensures
        versions(r@) == groups_reversed(versions(items@)),
{
    let ghost s = versions(items@);
    let mut r: Vec<(InternalKey, Entry)> = Vec::new();
    let mut end: usize = items.len();
    assert(s.take(s.len() as int) =~= s);
    assert(versions(r@) + groups_reversed(s) =~= groups_reversed(s));
    while end > 0
        invariant
            end <= items@.len(),
            s == versions(items@),
            versions(r@) + groups_reversed(s.take(end as int)) == groups_reversed(s),
        decreases end,
    {
        let ghost t = s.take(end as int);
        proof {
            group_start_facts(t, end - 1);
        }
        let mut g: usize = end - 1;
        while g > 0 && bytes_eq(
            items[g - 1].0.user_key.as_slice(),
            items[g].0.user_key.as_slice(),
        )
            invariant
                g < end <= items@.len(),
                s == versions(items@),
                t == s.take(end as int),
                group_start(t, g as int) == group_start(t, end - 1),
            decreases g,
        {
            assert(t[g - 1] == s[g - 1] && t[g as int] == s[g as int]);
            g = g - 1;
        }
        assert(g > 0 ==> t[g - 1] == s[g - 1] && t[g as int] == s[g as int]);
        assert(g == group_start(t, end - 1));
        let ghost before = versions(r@);
        let mut i: usize = g;
        assert(versions(r@) =~= before + t.subrange(g as int, g as int));
        while i < end
            invariant
                g <= i <= end <= items@.len(),
                s == versions(items@),
                t == s.take(end as int),
                versions(r@) == before + t.subrange(g as int, i as int),
            decreases end - i,
        {
            let ghost prev = versions(r@);
            let pair: (InternalKey, Entry) = copy_pair(&items[i]);
            assert((pair.0@, pair.1@) == t[i as int]);
            r.push(pair);
            assert(versions(r@) =~= prev.push(t[i as int]));
            assert(t.subrange(g as int, i + 1) =~= t.subrange(g as int, i as int).push(
                t[i as int],
            ));
            assert(versions(r@) =~= before + t.subrange(g as int, i + 1));
            i = i + 1;
        }
        proof {
            assert(t.skip(g as int) =~= t.subrange(g as int, end as int));
            assert(t.take(g as int) =~= s.take(g as int));
            assert(before + (t.skip(g as int) + groups_reversed(t.take(g as int))) =~= versions(r@)
                + groups_reversed(s.take(g as int)));
        }
        end = g;
    }
    assert(s.take(0) =~= Seq::<Version>::empty());
    assert(versions(r@) + groups_reversed(s.take(0)) =~= versions(r@));
    r
}

/// The versions of a range of user keys for a reverse scan: user keys descend, and
/// the newest version of a key comes first.
pub struct MemtableRevIter {
    inner: RunIter,
}

impl MemtableRevIter {
    /// The versions of the user keys from `lo` up to but not including `hi`.
    pub fn range(mt: &Memtable, lo: &[u8], hi: &[u8]) -> (it: MemtableRevIter)
        requires
            mt.wf(),
            lex_le(lo@, hi@),
        ensures
            it.wf(),
            it.reliable(),
            it.pending() == groups_reversed(range_of(mt@, lo@, hi@)),
            ordered(ScanDirection::Reverse, it.pending()),
            forall|v: Version|
                #[trigger] it.pending().contains(v) <==> mt@.contains(v) && lex_le(
                    lo@,
                    v.0.user_key,
                ) && lex_lt(v.0.user_key, hi@),
    {
        let items: &[(InternalKey, Entry)] = mt.range(lo, hi);
        proof {
            mt.lemma_sorted();
            is_range_of(versions(items@), mt@, lo@, hi@);
        }
        MemtableRevIter::of_run(items)
    }

    /// The versions of a sorted run.
    pub fn of_run(items: &[(InternalKey, Entry)]) -> (it: MemtableRevIter)
        requires
            sorted(versions(items@)),
        ensures
            it.wf(),
            it.reliable(),
            it.pending() == groups_reversed(versions(items@)),
            ordered(ScanDirection::Reverse, it.pending()),
            forall|v: Version|
                #[trigger] it.pending().contains(v) <==> versions(items@).contains(v),
    {
        proof {
            reversed_groups_are_ordered(versions(items@));
        }
        MemtableRevIter { inner: RunIter::new(reversed_run(items)) }
    }
}

impl EntryIterator for MemtableRevIter {
    closed spec fn wf(&self) -> bool {
        self.inner.wf()
    }

    closed spec fn pending(&self) -> Seq<Version> {
        self.inner.pending()
    }

    open spec fn reliable(&self) -> bool {
        true
    }

    fn next(&mut self) -> (r: EngineResult<Option<(InternalKey, Entry)>>) {
        self.inner.next()
    }
}

/// One layer of a scan.
pub enum LayerIter<'a> {
    Forward(MemtableIter<'a>),
    Reverse(MemtableRevIter),
}

impl<'a> LayerIter<'a> {
    /// The versions of a sorted run in the direction of a scan.
    pub fn of_run(items: &'a [(InternalKey, Entry)], direction: ScanDirection) -> (it: LayerIter<
        'a,
    >)
        requires
            sorted(versions(items@)),
        ensures
            it.wf(),
            it.reliable(),
            ordered(direction, it.pending()),
            forall|v: Version|
                #[trigger] it.pending().contains(v) <==> versions(items@).contains(v),
    {
        match direction {
            ScanDirection::Forward => {
                proof {
                    sorted_is_ordered(versions(items@));
                }
                LayerIter::Forward(MemtableIter::of_run(items))
            },
            ScanDirection::Reverse => LayerIter::Reverse(MemtableRevIter::of_run(items)),
        }
    }
}

impl<'a> EntryIterator for LayerIter<'a> {
    open spec fn wf(&self) -> bool {
        match self {
            LayerIter::Forward(it) => it.wf(),
            LayerIter::Reverse(it) => it.wf(),
        }
    }

    open spec fn pending(&self) -> Seq<Version> {
        match self {
            LayerIter::Forward(it) => it.pending(),
            LayerIter::Reverse(it) => it.pending(),
        }
    }

    open spec fn reliable(&self) -> bool {
        true
    }

    fn next(&mut self) -> (r: EngineResult<Option<(InternalKey, Entry)>>) {
        match self {
            LayerIter::Forward(it) => it.next(),
            LayerIter::Reverse(it) => it.next(),
        }
    }
}

} // verus!
