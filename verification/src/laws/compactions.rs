//! Compactions and flushes: what they keep, how they split it, and what they describe.

use vstd::prelude::*;
use crate::bytes::{lex_le, lex_lt, lex_lt_irreflexive, lex_lt_transitive};
use crate::compaction::{base, CompactionConfig};
use crate::compaction_worker::{
    capped_bytes, compacted, compaction_keeps_survivors, has_filters, joined,
    output_holds_survivors, pack_start, packed_all, stays, tables_of, DropRule, PackView,
};
use crate::engine::jobs::{
    after_flushes, compaction_records, deferred_with, flush_records, raised, to_flush, unpinned,
};
use crate::engine::maintain::{catalog_with, place_facts, place_of, segments_up_to};
use crate::engine::{in_tables, Engine};
use crate::manifest::{MetaView, RecordView};
use crate::owned_snapshot::{times, PinState};
use crate::records::{sorted, Version};
use crate::snapshot::Layers;
use crate::sorted_map::{count_of, decremented};
use crate::sstable::{bottom_seq, meta_of, table_size, top_seq};

verus! {

/// A compaction drops a version at or below the watermark that a newer one at or below the
/// watermark supersedes, and a tombstone at or below it where tombstones go. It drops
/// nothing else.
pub proof fn compactions_drop_what_is_superseded(s: Seq<Version>, rule: DropRule, v: Version)
    requires
        sorted(s),
        s.contains(v),
    ensures
        !compacted(s, rule).contains(v) <==> {
            &&& rule.gc_watermark > 0
            &&& v.0.seq <= rule.gc_watermark
            &&& {
                ||| exists|u: Version| #[trigger]
                    s.contains(u) && u.0.user_key == v.0.user_key && u.0.seq <= rule.gc_watermark
                        && (u.0.seq > v.0.seq || (u.0.seq == v.0.seq && u.0.lt(v.0)))
                ||| rule.drop_tombstones && v.1.value is None
            }
        },
        forall|x: Version| #[trigger] compacted(s, rule).contains(x) ==> s.contains(x),
        sorted(compacted(s, rule)),
{
    compaction_keeps_survivors(s, rule);
    let i = choose|i: int| 0 <= i < s.len() && s[i] == v;
    assert forall|x: Version| #[trigger] compacted(s, rule).contains(x) implies s.contains(x) by {
        let j = choose|j: int| 0 <= j < s.len() && #[trigger] stays(s, rule, j) && s[j] == x;
    }
    assert(compacted(s, rule).contains(v) <==> stays(s, rule, i)) by {
        if compacted(s, rule).contains(v) {
            let j = choose|j: int| 0 <= j < s.len() && #[trigger] stays(s, rule, j) && s[j] == v;
            crate::keys::key_lt_irreflexive(v.0);
            if j < i {
                assert(s[j].0.lt(s[i].0));
            } else if i < j {
                assert(s[i].0.lt(s[j].0));
            }
        }
        if stays(s, rule, i) {
            assert(s[i] == v);
        }
    }
    if exists|u: Version| #[trigger]
        s.contains(u) && u.0.user_key == v.0.user_key && u.0.seq <= rule.gc_watermark && (u.0.seq
            > v.0.seq || (u.0.seq == v.0.seq && u.0.lt(v.0))) {
        let u = choose|u: Version| #[trigger]
            s.contains(u) && u.0.user_key == v.0.user_key && u.0.seq <= rule.gc_watermark && (
            u.0.seq > v.0.seq || (u.0.seq == v.0.seq && u.0.lt(v.0)));
        let j = choose|j: int| 0 <= j < s.len() && s[j] == u;
        assert(u.0.lt(v.0));
        if j > i {
            assert(s[i].0.lt(s[j].0));
            crate::keys::key_lt_transitive(u.0, v.0, u.0);
            crate::keys::key_lt_irreflexive(u.0);
        }
        if j == i {
            crate::keys::key_lt_irreflexive(u.0);
        }
        assert(s[j].0.user_key == v.0.user_key);
    }
    if crate::compaction_worker::seen_covered(s, rule, i, v.0.user_key) {
        let j = choose|j: int|
            0 <= j < i && (#[trigger] s[j]).0.user_key == v.0.user_key && rule.covers(s[j].0.seq);
        assert(s[j].0.lt(s[i].0));
        lex_lt_irreflexive(v.0.user_key);
        assert(s.contains(s[j]));
    }
}

/// What a version counts toward the size of a file: thirty-two bytes, its key and its value.
pub open spec fn weight_of(v: Version) -> int {
    32 + v.0.user_key.len() + match v.1.value {
        Some(x) => x.len() as int,
        None => 0,
    }
}

/// What some versions count toward the size of a file.
pub open spec fn weight(s: Seq<Version>) -> int {
    s.fold_left(0int, |n: int, v: Version| n + weight_of(v))
}

/// The number of versions that are values.
pub open spec fn values_in(s: Seq<Version>) -> int {
    s.fold_left(
        0int,
        |n: int, v: Version|
            if v.1.value is Some {
                n + 1
            } else {
                n
            },
    )
}

/// A file is full, and was not before the versions of its last key came to it.
pub open spec fn just_full(f: Seq<Version>, target: u64) -> bool {
    weight(f) >= target && not_overfull(f, target)
}

/// A file was not full before the versions of its last key came to it.
pub open spec fn not_overfull(f: Seq<Version>, target: u64) -> bool {
    f.len() > 0 && exists|c: int|
        {
            &&& 0 <= c < f.len()
            &&& c == 0 || weight(#[trigger] f.take(c)) < target
            &&& forall|j: int| c <= j < f.len() ==> (#[trigger] f[j]).0.user_key == f.last().0.user_key
        }
}

/// Every key of `a` comes before every key of `b`.
pub open spec fn keys_before(a: Seq<Version>, b: Seq<Version>) -> bool {
    forall|i: int, j: int|
        #![trigger a[i], b[j]]
        0 <= i < a.len() && 0 <= j < b.len() ==> lex_lt(a[i].0.user_key, b[j].0.user_key)
}

/// The versions of the last key begin at `c`, and what is before them is no full file.
spec fn group_at(open: Seq<Version>, last: Option<Seq<u8>>, target: u64, c: int) -> bool {
    &&& 0 <= c <= open.len()
    &&& c == 0 || weight(open.take(c)) < target
    &&& forall|j: int| c <= j < open.len() ==> Some((#[trigger] open[j]).0.user_key) == last
}

spec fn packing(st: PackView, s: Seq<Version>, target: u64) -> bool {
    &&& forall|i: int|
        0 <= i < st.files.len() ==> (#[trigger] st.files[i]).len() > 0 && (weight(st.files[i])
            >= target || weight(st.files[i]) > u64::MAX) && not_overfull(st.files[i], target)
    &&& st.open_bytes == if weight(st.open) <= u64::MAX {
        weight(st.open)
    } else {
        u64::MAX as int
    }
    &&& weight(st.open) >= 0
    &&& s.len() == 0 ==> st.last is None && st.open.len() == 0 && st.files.len() == 0
    &&& s.len() > 0 ==> st.last == Some(s.last().0.user_key)
    &&& exists|c: int| #[trigger] group_at(st.open, st.last, target, c)
    &&& forall|i: int, j: int| #![trigger st.files[i], st.files[j]]
        0 <= i < j < st.files.len() ==> keys_before(st.files[i], st.files[j])
    &&& forall|i: int| 0 <= i < st.files.len() ==> keys_before(#[trigger] st.files[i], st.open)
    &&& forall|i: int, k: int| #![trigger st.files[i][k]]
        0 <= i < st.files.len() && 0 <= k < st.files[i].len() ==> lex_lt(
            st.files[i][k].0.user_key,
            st.last->0,
        )
    &&& forall|k: int|
        0 <= k < st.open.len() ==> lex_le((#[trigger] st.open[k]).0.user_key, st.last->0)
    &&& st.versions_dropped + values_in(joined(st.files)) + values_in(st.open) == values_in(s)
    &&& st.versions_dropped + st.tombstones_dropped + joined(st.files).len() + st.open.len()
        == s.len()
}

proof fn values_add(a: Seq<Version>, b: Seq<Version>)
    ensures
        values_in(a + b) == values_in(a) + values_in(b),
    decreases b.len(),
{
    if b.len() == 0 {
        assert(a + b =~= a);
    } else {
        values_add(a, b.drop_last());
        assert((a + b).drop_last() =~= a + b.drop_last());
        assert((a + b).last() == b.last());
    }
}

proof fn packing_goes_on(s: Seq<Version>, rule: DropRule, target: u64)
    requires
        sorted(s),
    ensures
        packing(packed_all(pack_start(), s, rule, target), s, target),
    decreases s.len(),
{
    let st = packed_all(pack_start(), s, rule, target);
    if s.len() == 0 {
        assert(joined(st.files) =~= Seq::<Version>::empty());
        assert(group_at(st.open, st.last, target, 0));
    } else {
        let init = s.drop_last();
        let v = s.last();
        let key = v.0.user_key;
        assert(sorted(init)) by {
            assert forall|a: int, b: int| 0 <= a < b < init.len() implies (#[trigger] init[a]).0.lt(
                (#[trigger] init[b]).0,
            ) by {
                assert(s[a].0.lt(s[b].0));
            }
        }
        packing_goes_on(init, rule, target);
        let was = packed_all(pack_start(), init, rule, target);
        let new_key = was.last != Some(key);
        let cut = new_key && was.open_bytes >= target && was.open.len() > 0;
        let dropped = rule.drops(v, !new_key && was.seen);
        if init.len() > 0 {
            assert(s[s.len() - 2].0.lt(s[s.len() - 1].0));
            assert(init.last() == s[s.len() - 2]);
            assert(lex_le(was.last->0, key));
            if new_key {
                assert(lex_lt(was.last->0, key));
            }
        }
        let c = choose|c: int| #[trigger] group_at(was.open, was.last, target, c);
        let base = if cut {
            Seq::<Version>::empty()
        } else {
            was.open
        };
        if cut {
            assert(st.files == was.files.push(was.open));
            assert(not_overfull(was.open, target)) by {
                if c < was.open.len() {
                    assert(Some(was.open[was.open.len() - 1].0.user_key) == was.last);
                    assert forall|j: int| c <= j < was.open.len() implies (
                    #[trigger] was.open[j]).0.user_key == was.open.last().0.user_key by {
                        assert(Some(was.open[j].0.user_key) == was.last);
                    }
                    assert(c == 0 || weight(was.open.take(c)) < target);
                } else {
                    assert(was.open.take(c) =~= was.open);
                    assert(false);
                }
            }
            assert(st.files.drop_last() =~= was.files);
            values_add(joined(was.files), was.open);
            assert(joined(st.files) == joined(was.files) + was.open);
            assert forall|i: int, j: int| #![trigger st.files[i], st.files[j]]
                0 <= i < j < st.files.len() implies keys_before(st.files[i], st.files[j]) by {
                if j == was.files.len() {
                    assert(keys_before(was.files[i], was.open));
                } else {
                    assert(keys_before(was.files[i], was.files[j]));
                }
            }
        } else {
            assert(st.files == was.files);
        }
        assert(st.open == if dropped {
            base
        } else {
            base.push(v)
        });
        if !dropped {
            assert(st.open.drop_last() =~= base);
            assert(weight(st.open) == weight(base) + weight_of(v));
        }
        // Where the versions of the last key begin.
        let d = if new_key {
            base.len() as int
        } else {
            c
        };
        assert(0 <= d <= st.open.len());
        assert(d == 0 || weight(st.open.take(d)) < target) by {
            if d > 0 {
                assert(!cut);
                assert(st.open.take(d) =~= was.open.take(d));
                if new_key {
                    assert(was.open.take(d) =~= was.open);
                }
            }
        }
        assert forall|j: int| d <= j < st.open.len() implies Some((#[trigger] st.open[j]).0.user_key)
            == st.last by {
            if j < base.len() {
                assert(st.open[j] == was.open[j]);
                assert(Some(was.open[j].0.user_key) == was.last);
            }
        }
        assert(group_at(st.open, st.last, target, d));
        assert forall|i: int, k: int| #![trigger st.files[i][k]]
            0 <= i < st.files.len() && 0 <= k < st.files[i].len() implies lex_lt(
            st.files[i][k].0.user_key,
            key,
        ) by {
            if i < was.files.len() {
                assert(st.files[i][k] == was.files[i][k]);
                assert(lex_lt(was.files[i][k].0.user_key, was.last->0));
                if was.last->0 != key {
                    lex_lt_transitive(was.files[i][k].0.user_key, was.last->0, key);
                }
            } else {
                assert(lex_le(was.open[k].0.user_key, was.last->0));
                if was.open[k].0.user_key != was.last->0 {
                    lex_lt_transitive(was.open[k].0.user_key, was.last->0, key);
                }
            }
        }
        assert forall|k: int| 0 <= k < st.open.len() implies lex_le(
            (#[trigger] st.open[k]).0.user_key,
            key,
        ) by {
            if k < base.len() {
                assert(st.open[k] == was.open[k]);
                assert(lex_le(was.open[k].0.user_key, was.last->0));
                if was.open[k].0.user_key != was.last->0 && was.last->0 != key {
                    lex_lt_transitive(was.open[k].0.user_key, was.last->0, key);
                }
            }
        }
        assert forall|i: int| 0 <= i < st.files.len() implies keys_before(
            #[trigger] st.files[i],
            st.open,
        ) by {
            assert forall|a: int, b: int|
                #![trigger st.files[i][a], st.open[b]]
                0 <= a < st.files[i].len() && 0 <= b < st.open.len() implies lex_lt(
                st.files[i][a].0.user_key,
                st.open[b].0.user_key,
            ) by {
                if b < base.len() {
                    assert(!cut);
                    assert(keys_before(was.files[i], was.open));
                    assert(st.open[b] == was.open[b]);
                    assert(st.files[i][a] == was.files[i][a]);
                } else {
                    assert(st.open[b] == v);
                }
            }
        }
        if !dropped {
            assert(values_in(st.open) == values_in(base) + if v.1.value is Some {
                1int
            } else {
                0
            });
        }
        if cut {
            assert(values_in(base) == 0);
        }
    }
}

/// How a compaction splits its output. Each file but the last is full, and none was full
/// before the versions of its last key came to it. Files follow one another by key: no key
/// is in two. Every version of the input is in a file or counted among the dropped values
/// or tombstones.
pub proof fn output_is_split_between_keys(s: Seq<Version>, rule: DropRule, target: u64)
    requires
        sorted(s),
    ensures
        ({
            let st = packed_all(pack_start(), s, rule, target);
            let files = tables_of(st);
            &&& forall|i: int|
                0 <= i < files.len() - 1 ==> just_full(#[trigger] files[i], target)
            &&& forall|i: int| 0 <= i < files.len() ==> not_overfull(#[trigger] files[i], target)
            &&& forall|i: int, j: int| #![trigger files[i], files[j]]
                0 <= i < j < files.len() ==> keys_before(files[i], files[j])
            &&& st.versions_dropped == values_in(s) - values_in(compacted(s, rule))
            &&& st.tombstones_dropped == (s.len() - values_in(s)) - (compacted(s, rule).len()
                - values_in(compacted(s, rule)))
        }),
{
    packing_goes_on(s, rule, target);
    output_holds_survivors(s, rule, target);
    let st = packed_all(pack_start(), s, rule, target);
    let files = tables_of(st);
    assert forall|i: int| 0 <= i < files.len() - 1 implies just_full(#[trigger] files[i], target) by {
        assert(files[i] == st.files[i]);
        assert(weight(st.files[i]) >= target);
    }
    if st.open.len() > 0 {
        assert(files.drop_last() =~= st.files);
        assert(joined(files) == joined(st.files) + st.open);
        values_add(joined(st.files), st.open);
        let c = choose|c: int| #[trigger] group_at(st.open, st.last, target, c);
        // What is left open may end before its last key was begun.
        assert(not_overfull(st.open, target)) by {
            if c < st.open.len() {
                assert(Some(st.open[st.open.len() - 1].0.user_key) == st.last);
                assert forall|j: int| c <= j < st.open.len() implies (
                #[trigger] st.open[j]).0.user_key == st.open.last().0.user_key by {
                    assert(Some(st.open[j].0.user_key) == st.last);
                }
            } else {
                let e = st.open.len() - 1;
                assert(st.open.take(c) =~= st.open);
                assert(st.open.take(e) =~= st.open.drop_last());
                assert(weight(st.open) == weight(st.open.drop_last()) + weight_of(st.open.last()));
                assert(weight(st.open.take(e)) < target);
            }
        }
        assert forall|i: int| 0 <= i < files.len() implies not_overfull(
            #[trigger] files[i],
            target,
        ) by {
            if i < st.files.len() {
                assert(files[i] == st.files[i]);
            }
        }
        assert forall|i: int, j: int| #![trigger files[i], files[j]]
            0 <= i < j < files.len() implies keys_before(files[i], files[j]) by {
            assert(files[i] == st.files[i]);
            if j < st.files.len() {
                assert(keys_before(st.files[i], st.files[j]));
            } else {
                assert(keys_before(st.files[i], st.open));
            }
        }
    } else {
        assert(values_in(st.open) == 0);
        assert forall|i: int, j: int| #![trigger files[i], files[j]]
            0 <= i < j < files.len() implies keys_before(files[i], files[j]) by {
            assert(keys_before(st.files[i], st.files[j]));
        }
    }
}

/// Tables have filters unless they lie at the deepest level and the configuration leaves
/// them out there.
pub proof fn the_deepest_level_goes_without_filters(cfg: CompactionConfig, level: u8)
    ensures
        level != cfg.max_level ==> has_filters(cfg, level),
        !cfg.optimize_filters_for_hits ==> has_filters(cfg, level),
        level == cfg.max_level && cfg.optimize_filters_for_hits ==> !has_filters(cfg, level),
{
}

/// The bytes that a table's file takes for its versions: forty-one, the key and the value of
/// each.
pub open spec fn file_bytes(s: Seq<Version>) -> int {
    s.fold_left(
        0int,
        |n: int, v: Version|
            n + 41 + v.0.user_key.len() + match v.1.value {
                Some(x) => x.len() as int,
                None => 0,
            },
    )
}

proof fn file_bytes_add_up(s: Seq<Version>)
    ensures
        file_bytes(s) >= 0,
        table_size(s) == (if file_bytes(s) <= u64::MAX {
            file_bytes(s)
        } else {
            u64::MAX as int
        }),
    decreases s.len(),
{
    if s.len() > 0 {
        file_bytes_add_up(s.drop_last());
    }
}

/// What the catalog says of a table: the keys and numbers of its versions lie within the
/// bounds, each bound is that of a version, and the size is that of its file.
pub proof fn catalog_entries_are_tight(s: Seq<Version>, id: u64, level: u8)
    requires
        sorted(s),
        s.len() > 0,
    ensures
        ({
            let m = meta_of(s, id, level);
            &&& m.id == id
            &&& m.level == level
            &&& forall|i: int|
                0 <= i < s.len() ==> !lex_lt((#[trigger] s[i]).0.user_key, m.min_key) && !lex_lt(
                    m.max_key,
                    s[i].0.user_key,
                ) && m.min_seq <= s[i].0.seq <= m.max_seq
            &&& exists|i: int| 0 <= i < s.len() && (#[trigger] s[i]).0.user_key == m.min_key
            &&& exists|i: int| 0 <= i < s.len() && (#[trigger] s[i]).0.user_key == m.max_key
            &&& exists|i: int| 0 <= i < s.len() && (#[trigger] s[i]).0.seq == m.min_seq
            &&& exists|i: int| 0 <= i < s.len() && (#[trigger] s[i]).0.seq == m.max_seq
            &&& file_bytes(s) <= u64::MAX ==> m.size_bytes == file_bytes(s)
        }),
{
    let m = meta_of(s, id, level);
    file_bytes_add_up(s);
    bounds_are_attained(s);
    assert forall|i: int| 0 <= i < s.len() implies !lex_lt((#[trigger] s[i]).0.user_key, m.min_key)
        && !lex_lt(m.max_key, s[i].0.user_key) && m.min_seq <= s[i].0.seq <= m.max_seq by {
        crate::sstable::seq_bounds(s, i);
        lex_lt_irreflexive(s[i].0.user_key);
        if i > 0 {
            assert(s[0].0.lt(s[i].0));
            if lex_lt(s[0].0.user_key, s[i].0.user_key) {
                crate::bytes::lex_lt_asymmetric(s[0].0.user_key, s[i].0.user_key);
            }
        }
        if i < s.len() - 1 {
            assert(s[i].0.lt(s[s.len() - 1].0));
            if lex_lt(s[i].0.user_key, m.max_key) {
                crate::bytes::lex_lt_asymmetric(s[i].0.user_key, m.max_key);
            }
        }
    }
    assert(s[0].0.user_key == m.min_key);
    assert(s[s.len() - 1].0.user_key == m.max_key);
}

proof fn bounds_are_attained(s: Seq<Version>)
    requires
        s.len() > 0,
    ensures
        exists|i: int| 0 <= i < s.len() && (#[trigger] s[i]).0.seq == bottom_seq(s),
        exists|i: int| 0 <= i < s.len() && (#[trigger] s[i]).0.seq == top_seq(s),
    decreases s.len(),
{
    let init = s.drop_last();
    assert(s[s.len() - 1] == s.last());
    if init.len() > 0 {
        bounds_are_attained(init);
        let i = choose|i: int| 0 <= i < init.len() && (#[trigger] init[i]).0.seq == bottom_seq(init);
        let j = choose|j: int| 0 <= j < init.len() && (#[trigger] init[j]).0.seq == top_seq(init);
        assert(s[i] == init[i] && s[j] == init[j]);
    } else {
        assert(top_seq(init) == 0);
        assert(bottom_seq(init) == u64::MAX);
        assert(s.last().0.seq == top_seq(s));
        assert(s.last().0.seq == bottom_seq(s));
    }
}

/// A table joins the catalog by its number: nothing else changes, and the order by number
/// stays.
pub proof fn tables_join_by_number(s: Seq<MetaView>, m: MetaView, x: MetaView)
    requires
        forall|i: int, j: int| 0 <= i < j < s.len() ==> (#[trigger] s[i]).id < (#[trigger] s[j]).id,
        forall|i: int| 0 <= i < s.len() ==> (#[trigger] s[i]).id != m.id,
    ensures
        ({
            let t = catalog_with(s, m);
            &&& t.len() == s.len() + 1
            &&& t.contains(x) <==> s.contains(x) || x == m
            &&& forall|i: int, j: int|
                0 <= i < j < t.len() ==> (#[trigger] t[i]).id < (#[trigger] t[j]).id
        }),
{
    let n = s.len() as int;
    let p = place_of(s, m.id, n);
    place_facts(s, m.id, n);
    let t = catalog_with(s, m);
    crate::engine::durability::catalog_with_has(s, m, x);
    assert forall|i: int, j: int| 0 <= i < j < t.len() implies (#[trigger] t[i]).id < (
    #[trigger] t[j]).id by {
        if j < p {
            assert(s[i].id < s[j].id);
        } else if j == p {
            if i < p - 1 {
                assert(s[i].id < s[p - 1].id);
            }
        } else if i < p {
            assert(s[i].id < s[j - 1].id);
        } else if i == p {
            assert(s[p].id != m.id);
            if p < j - 1 {
                assert(s[p].id < s[j - 1].id);
            }
        } else {
            assert(s[i - 1].id < s[j - 1].id);
        }
    }
}

/// A mark is raised to the largest number of the memtables that are written out, and never
/// lowered.
pub proof fn marks_are_raised(n: u64, runs: Seq<Seq<Version>>)
    ensures
        raised(n, runs) >= n,
        forall|i: int, j: int| #![trigger runs[i][j]]
            0 <= i < runs.len() && 0 <= j < runs[i].len() ==> runs[i][j].0.seq <= raised(n, runs),
        raised(n, runs) == n || exists|i: int, j: int| #![trigger runs[i][j]]
            0 <= i < runs.len() && 0 <= j < runs[i].len() && runs[i][j].0.seq == raised(n, runs),
    decreases runs.len(),
{
    if runs.len() > 0 {
        let rest = runs.skip(1);
        let m = if runs[0].len() == 0 {
            n
        } else {
            crate::manifest::larger(n, top_seq(runs[0]))
        };
        marks_are_raised(m, rest);
        assert forall|i: int, j: int| #![trigger runs[i][j]]
            0 <= i < runs.len() && 0 <= j < runs[i].len() implies runs[i][j].0.seq <= raised(
            n,
            runs,
        ) by {
            if i == 0 {
                crate::sstable::seq_bounds(runs[0], j);
            } else {
                assert(rest[i - 1][j] == runs[i][j]);
            }
        }
        if raised(n, runs) != n {
            if raised(n, runs) == m {
                bounds_are_attained(runs[0]);
                let j = choose|j: int|
                    0 <= j < runs[0].len() && (#[trigger] runs[0][j]).0.seq == top_seq(runs[0]);
                assert(runs[0][j].0.seq == raised(n, runs));
            } else {
                let (i, j) = choose|i: int, j: int| #![trigger rest[i][j]]
                    0 <= i < rest.len() && 0 <= j < rest[i].len() && rest[i][j].0.seq == raised(
                        m,
                        rest,
                    );
                assert(runs[i + 1][j].0.seq == raised(n, runs));
            }
        }
    }
}

/// The memtables that hold something.
pub open spec fn filled(runs: Seq<Seq<Version>>) -> int {
    runs.fold_left(
        0int,
        |n: int, r: Seq<Version>|
            if r.len() > 0 {
                n + 1
            } else {
                n
            },
    )
}

proof fn filled_front(runs: Seq<Seq<Version>>)
    requires
        runs.len() > 0,
    ensures
        filled(runs) == filled(runs.skip(1)) + (if runs[0].len() > 0 {
            1int
        } else {
            0
        }),
        filled(runs.skip(1)) >= 0,
    decreases runs.len(),
{
    let rest = runs.skip(1);
    if rest.len() == 0 {
        assert(runs.drop_last() =~= Seq::<Seq<Version>>::empty());
        assert(filled(runs.drop_last()) == 0);
        assert(filled(rest) == 0);
    } else {
        filled_front(runs.drop_last());
        assert(runs.drop_last().skip(1) =~= rest.drop_last());
        assert(runs.last() == rest.last());
    }
}

/// A forced flush makes one table of each memtable that holds something, numbered on from
/// the next number, and of no other.
pub proof fn memtables_become_tables(s: Seq<MetaView>, next: u64, runs: Seq<Seq<Version>>)
    requires
        next + runs.len() < u64::MAX,
    ensures
        after_flushes(s, next, runs).0.len() == s.len() + filled(runs),
        after_flushes(s, next, runs).1 == next + filled(runs),
        forall|m: MetaView| #[trigger] s.contains(m) ==> after_flushes(s, next, runs).0.contains(m),
        forall|i: int|
            0 <= i < runs.len() && (#[trigger] runs[i]).len() > 0 ==> exists|id: u64|
                next <= id < next + filled(runs) && after_flushes(s, next, runs).0.contains(
                    #[trigger] meta_of(runs[i], id, 0),
                ),
    decreases runs.len(),
{
    if runs.len() > 0 {
        let rest = runs.skip(1);
        filled_front(runs);
        if runs[0].len() == 0 {
            memtables_become_tables(s, next, rest);
        } else {
            let m = meta_of(runs[0], next, 0);
            let t = catalog_with(s, m);
            place_facts(s, m.id, s.len() as int);
            memtables_become_tables(t, (next + 1) as u64, rest);
            crate::engine::durability::catalog_with_has(s, m, m);
            assert(after_flushes(s, next, runs).0.contains(meta_of(runs[0], next, 0)));
            assert forall|x: MetaView| #[trigger] s.contains(x) implies after_flushes(
                s,
                next,
                runs,
            ).0.contains(x) by {
                crate::engine::durability::catalog_with_has(s, m, x);
                assert(t.contains(x));
            }
        }
        assert forall|i: int| 0 <= i < runs.len() && (#[trigger] runs[i]).len() > 0 implies exists|
            id: u64,
        |
            next <= id < next + filled(runs) && after_flushes(s, next, runs).0.contains(
                #[trigger] meta_of(runs[i], id, 0),
            ) by {
            if i > 0 {
                assert(rest[i - 1] == runs[i]);
                let from = if runs[0].len() == 0 {
                    next
                } else {
                    (next + 1) as u64
                };
                let t = if runs[0].len() == 0 {
                    s
                } else {
                    catalog_with(s, meta_of(runs[0], next, 0))
                };
                let id = choose|id: u64|
                    from <= id < from + filled(rest) && after_flushes(t, from, rest).0.contains(
                        #[trigger] meta_of(rest[i - 1], id, 0),
                    );
                assert(after_flushes(s, next, runs).0.contains(meta_of(runs[i], id, 0)));
            } else {
                assert(after_flushes(s, next, runs).0.contains(meta_of(runs[0], next, 0)));
            }
        }
    }
}

/// A forced flush writes out the frozen memtables, oldest first, and then the active one
/// where it holds something.
pub proof fn everything_in_memory_is_flushed(l: Layers)
    ensures
        ({
            let runs = to_flush(l);
            let n = l.immutables@.len() as int;
            &&& forall|i: int| 0 <= i < n ==> #[trigger] runs[i] == l.immutables@[i]@
            &&& l.active@.len() > 0 ==> runs.len() == n + 1 && runs[n] == l.active@
            &&& l.active@.len() == 0 ==> runs.len() == n
        }),
{
}

/// What a compaction writes to the manifest: its new tables are added before its inputs are
/// removed. A flush adds its table, and then drops what it covers of the log where there is
/// any.
pub proof fn jobs_are_recorded(made: Seq<MetaView>, inputs: Seq<MetaView>, m: MetaView, covered: u64)
    ensures
        ({
            let r = compaction_records(made, inputs);
            &&& r.len() == made.len() + inputs.len()
            &&& forall|i: int|
                0 <= i < made.len() ==> #[trigger] r[i] == RecordView::SstableAdd(made[i])
            &&& forall|i: int|
                0 <= i < inputs.len() ==> #[trigger] r[made.len() + i]
                    == (RecordView::SstableRemove { id: inputs[i].id })
        }),
        flush_records(m, covered)[0] == RecordView::SstableAdd(m),
        covered == 0 ==> flush_records(m, covered).len() == 1,
        covered > 0 ==> flush_records(m, covered).len() == 2 && flush_records(m, covered)[1]
            == (RecordView::WalTruncate { up_to_segment_id: covered }),
{
}

/// The files of removed tables go at once where no snapshot pins them, and else wait, each
/// once.
pub proof fn pinned_files_wait(counts: Map<u64, u64>, waiting: Seq<u64>, ids: Seq<u64>, id: u64)
    ensures
        unpinned(counts, ids).contains(id) <==> ids.contains(id) && !(counts.dom().contains(id)
            && counts[id] > 0),
        deferred_with(waiting, counts, ids).contains(id) <==> waiting.contains(id) || (ids.contains(
            id,
        ) && counts.dom().contains(id) && counts[id] > 0),
        waiting.no_duplicates() ==> deferred_with(waiting, counts, ids).no_duplicates(),
    decreases ids.len(),
{
    if ids.len() > 0 {
        let init = ids.drop_last();
        let x = ids.last();
        pinned_files_wait(counts, waiting, init, id);
        let a = unpinned(counts, init);
        let b = unpinned(counts, ids);
        let c = deferred_with(waiting, counts, init);
        let d = deferred_with(waiting, counts, ids);
        assert(ids[ids.len() - 1] == x);
        if init.contains(id) {
            let i = choose|i: int| 0 <= i < init.len() && init[i] == id;
            assert(ids[i] == id);
        }
        if ids.contains(id) && id != x {
            let i = choose|i: int| 0 <= i < ids.len() && ids[i] == id;
            assert(init[i] == id);
        }
        if a.contains(id) {
            let i = choose|i: int| 0 <= i < a.len() && a[i] == id;
            assert(b[i] == id);
        }
        if b.contains(id) {
            let i = choose|i: int| 0 <= i < b.len() && b[i] == id;
            if i < a.len() {
                assert(a[i] == id);
            }
        }
        if b.len() > a.len() {
            assert(b[b.len() - 1] == x);
        }
        if c.contains(id) {
            let i = choose|i: int| 0 <= i < c.len() && c[i] == id;
            assert(d[i] == id);
        }
        if d.contains(id) {
            let i = choose|i: int| 0 <= i < d.len() && d[i] == id;
            if i < c.len() {
                assert(c[i] == id);
            }
        }
        if d.len() > c.len() {
            assert(d[d.len() - 1] == x);
        }
    }
}

/// The log's segments that are unlinked are those on the disk up to a number and below the
/// active one.
pub proof fn segments_up_to_a_number_go(s: Seq<u64>, up_to: u64, active: u64, n: int, id: u64)
    requires
        0 <= n <= s.len(),
    ensures
        segments_up_to(s, up_to, active, n).contains(id) <==> s.take(n).contains(id) && id <= up_to
            && id < active,
    decreases n,
{
    if n > 0 {
        segments_up_to_a_number_go(s, up_to, active, n - 1, id);
        let a = segments_up_to(s, up_to, active, n - 1);
        let b = segments_up_to(s, up_to, active, n);
        let x = s[n - 1];
        let t = s.take(n);
        let u = s.take(n - 1);
        assert(t[n - 1] == x);
        if u.contains(id) {
            let i = choose|i: int| 0 <= i < u.len() && u[i] == id;
            assert(t[i] == id);
        }
        if t.contains(id) && id != x {
            let i = choose|i: int| 0 <= i < t.len() && t[i] == id;
            assert(u[i] == id);
        }
        if a.contains(id) {
            let i = choose|i: int| 0 <= i < a.len() && a[i] == id;
            assert(b[i] == id);
        }
        if b.contains(id) {
            let i = choose|i: int| 0 <= i < b.len() && b[i] == id;
            if i < a.len() {
                assert(a[i] == id);
            }
        }
        if b.len() > a.len() {
            assert(b[b.len() - 1] == x);
        }
    }
}

/// The segments that a flush makes needless: up to the largest number below the active
/// segment of one that was sealed with no number above those that were flushed.
pub proof fn flushes_cover_the_log(e: Engine, max_seq: u64, c: u64)
    requires
        e.covers_up_to(max_seq, c),
    ensures
        c > 0 ==> e.sealed_segment_max_seq@.dom().contains(c) && e.sealed_segment_max_seq@[c]
            <= max_seq && c < e.active_wal_id,
        forall|id: u64|
            id > c && id < e.active_wal_id && #[trigger] e.sealed_segment_max_seq@.dom().contains(id)
                ==> e.sealed_segment_max_seq@[id] > max_seq,
{
}

/// Compaction observes the oldest live snapshot, and where there is none what is synced.
pub proof fn compaction_observes_the_oldest_snapshot(p: PinState, synced: u64, k: u64)
    requires
        p.live_snapshot_seqs@.dom().contains(k),
        forall|j: u64| #[trigger] p.live_snapshot_seqs@.dom().contains(j) ==> k <= j,
    ensures
        p.watermark(synced) == k,
{
    assert(p.live_snapshot_seqs@ != Map::<u64, u64>::empty());
    let w = p.watermark(synced);
    assert(p.live_snapshot_seqs@.dom().contains(w) && forall|j: u64| #[trigger]
        p.live_snapshot_seqs@.dom().contains(j) ==> w <= j);
}

/// Tombstones go where the output lies at the deepest level, no snapshot is live, and no
/// table outside the job holds an older version of a key with a tombstone in it.
pub proof fn tombstones_go_where_nothing_is_below(e: Engine, level: u8, ids: Seq<u64>)
    ensures
        e.pins.live_snapshot_seqs@ == Map::<u64, u64>::empty() ==> e.pins.watermark(e.synced_seq)
            == e.synced_seq,
        e.job_rule(level, ids).gc_watermark == e.pins.watermark(e.synced_seq),
        e.job_rule(level, ids).drop_tombstones <==> {
            &&& level == e.cfg.compaction.max_level
            &&& forall|k: u64| !#[trigger] e.pins.live_snapshot_seqs@.dom().contains(k)
            &&& forall|i: int, j: int, t: Version, w: Version|
                #![trigger e.layers.tables@[i].reader@.contains(t), e.layers.tables@[j].reader@.contains(w)]
                {
                    &&& 0 <= i < e.layers.tables@.len()
                    &&& 0 <= j < e.layers.tables@.len()
                    &&& ids.contains(e.layers.tables@[i].meta.id)
                    &&& !ids.contains(e.layers.tables@[j].meta.id)
                    &&& e.layers.tables@[i].reader@.contains(t)
                    &&& e.layers.tables@[j].reader@.contains(w)
                    &&& t.1.value is None
                    &&& 0 < e.pins.watermark(e.synced_seq)
                    &&& t.0.seq <= e.pins.watermark(e.synced_seq)
                    &&& w.0.user_key == t.0.user_key
                } ==> w.0.seq >= t.0.seq
        },
{
    let s = e.layers.tables@;
    let w0 = e.pins.watermark(e.synced_seq);
    let a = crate::engine::compact::tables_in(s, ids);
    let b = crate::engine::compact::tables_out(s, ids);
    crate::engine::compact::split_facts(s, ids);
    if forall|k: u64| !#[trigger] e.pins.live_snapshot_seqs@.dom().contains(k) {
        assert(e.pins.live_snapshot_seqs@ =~= Map::<u64, u64>::empty());
    }
    if crate::engine::compact::nothing_older_outside(s, ids, w0) {
        assert forall|i: int, j: int, t: Version, w: Version|
            #![trigger s[i].reader@.contains(t), s[j].reader@.contains(w)]
            {
                &&& 0 <= i < s.len()
                &&& 0 <= j < s.len()
                &&& ids.contains(s[i].meta.id)
                &&& !ids.contains(s[j].meta.id)
                &&& s[i].reader@.contains(t)
                &&& s[j].reader@.contains(w)
                &&& t.1.value is None
                &&& 0 < w0
                &&& t.0.seq <= w0
                &&& w.0.user_key == t.0.user_key
            } implies w.0.seq >= t.0.seq by {
            assert(s.contains(s[i]) && s.contains(s[j]));
            let x = choose|x: int| 0 <= x < a.len() && a[x] == s[i];
            let y = choose|y: int| 0 <= y < b.len() && b[y] == s[j];
            assert(a[x].reader@.contains(t));
            assert(b[y].reader@.contains(w));
            assert(in_tables(a, t) && in_tables(b, w));
        }
    }
    if forall|i: int, j: int, t: Version, w: Version|
        #![trigger s[i].reader@.contains(t), s[j].reader@.contains(w)]
        {
            &&& 0 <= i < s.len()
            &&& 0 <= j < s.len()
            &&& ids.contains(s[i].meta.id)
            &&& !ids.contains(s[j].meta.id)
            &&& s[i].reader@.contains(t)
            &&& s[j].reader@.contains(w)
            &&& t.1.value is None
            &&& 0 < w0
            &&& t.0.seq <= w0
            &&& w.0.user_key == t.0.user_key
        } ==> w.0.seq >= t.0.seq {
        assert forall|t: Version, w: Version|
            #![trigger in_tables(a, t), in_tables(b, w)]
            in_tables(a, t) && in_tables(b, w) && t.1.value is None && w0 != 0 && t.0.seq <= w0
                && w.0.user_key == t.0.user_key implies w.0.seq >= t.0.seq by {
            let x = choose|x: int| 0 <= x < a.len() && (#[trigger] a[x]).reader@.contains(t);
            let y = choose|y: int| 0 <= y < b.len() && (#[trigger] b[y]).reader@.contains(w);
            let i = choose|i: int| 0 <= i < s.len() && s[i] == a[x];
            let j = choose|j: int| 0 <= j < s.len() && s[j] == b[y];
            assert(s[i].reader@.contains(t) && s[j].reader@.contains(w));
        }
    }
}

/// How often a number occurs.
pub open spec fn occurrences(ids: Seq<u64>, id: u64) -> int {
    ids.filter(|x: u64| x == id).len() as int
}

/// Pins count every table of every snapshot, and letting go counts back.
pub proof fn pins_count_tables(ids: Seq<u64>, id: u64, m: Map<u64, u64>)
    ensures
        times(ids, id) == occurrences(ids, id),
        m.dom().contains(id) && m[id] > 1 ==> count_of(decremented(m, id), id) == m[id] - 1,
        m.dom().contains(id) && m[id] <= 1 ==> !decremented(m, id).dom().contains(id),
        !m.dom().contains(id) ==> decremented(m, id) == m,
        forall|k: u64|
            k != id ==> (#[trigger] decremented(m, id).dom().contains(k) <==> m.dom().contains(k)) && (
            m.dom().contains(k) ==> decremented(m, id)[k] == m[k]),
    decreases ids.len(),
{
    reveal(Seq::filter);
    if ids.len() > 0 {
        pins_count_tables(ids.drop_last(), id, m);
    }
}

/// What a compaction has read is the size of its inputs, added up, or the largest 64-bit
/// number where they are more; what it has written is measured alike.
pub proof fn compactions_are_measured_in_bytes(s: Seq<MetaView>)
    ensures
        ({
            let sum = s.fold_left(0int, |b: int, m: MetaView| b + m.size_bytes);
            &&& sum <= 0xffff_ffff_ffff_ffff ==> capped_bytes(s) == sum
            &&& sum > 0xffff_ffff_ffff_ffff ==> capped_bytes(s) == 0xffff_ffff_ffff_ffffnat
            &&& sum >= 0
        }),
    decreases s.len(),
{
    if s.len() > 0 {
        compactions_are_measured_in_bytes(s.drop_last());
    }
}

} // verus!
