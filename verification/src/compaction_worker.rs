//! The execution of compactions: the merge of the inputs, the versions that are
//! left out, and the split of the output into tables. Beside it the state of the
//! background worker.

use vstd::prelude::*;
use crate::bytes::{bytes_eq, copy_bytes};
use crate::compaction::{capped, CompactionConfig, CompactionJob};
use crate::entry::{Entry, EntryView};
use crate::iter::{
    ahead, merge_is_sorted, merge_keeps_every_version, merged, merged_once, once, once_is_sorted,
    ordered, same_key_is_contiguous, sorted_is_ordered, total_len, EntryIterator, MergeMode,
    MergingIterator, RunIter, ScanDirection,
};
use crate::keys::{keys_agree, key_lt_asymmetric, key_lt_irreflexive, InternalKey};
use crate::manifest::{meta_views, MetaView, SstableMeta};
use crate::records::{found_newest, sorted, versions, Version};
use crate::sstable::{describe_pairs, meta_of, SstableReader};

verus! {

/// Which versions a compaction leaves out.
#[derive(Debug, Clone, Copy)]
pub struct DropRule {
    /// Versions above this sequence number always stay; zero keeps everything.
    pub gc_watermark: u64,
    /// Tombstones at or below the watermark go too.
    pub drop_tombstones: bool,
}

impl DropRule {
    /// The rule applies to versions with this sequence number.
    pub open spec fn covers(self, seq: u64) -> bool {
        self.gc_watermark != 0 && seq <= self.gc_watermark
    }

    /// A version is left out, where `seen` says that a newer version of its key
    /// was covered.
    pub open spec fn drops(self, v: Version, seen: bool) -> bool {
        self.covers(v.0.seq) && (seen || (self.drop_tombstones && v.1.value is None))
    }
}

/// Among the first `n` versions is one of `key` that the rule covers.
pub open spec fn seen_covered(s: Seq<Version>, rule: DropRule, n: int, key: Seq<u8>) -> bool {
    exists|j: int|
        0 <= j < n && (#[trigger] s[j]).0.user_key == key && rule.covers(s[j].0.seq)
}

/// Version `i` survives compaction: it is above the watermark, or it is the
/// newest of its key at or below the watermark and no tombstone to be dropped.
pub open spec fn stays(s: Seq<Version>, rule: DropRule, i: int) -> bool {
    !rule.drops(s[i], seen_covered(s, rule, i, s[i].0.user_key))
}

/// The versions that survive, where `last` is the user key handled last and
/// `seen` says that a version of it was covered.
pub open spec fn survivors(s: Seq<Version>, rule: DropRule, last: Option<Seq<u8>>, seen: bool) -> Seq<Version>
    decreases s.len(),
{
    if s.len() == 0 {
        Seq::empty()
    } else {
        let v = s[0];
        let before = last == Some(v.0.user_key) && seen;
        let rest = survivors(
            s.skip(1),
            rule,
            Some(v.0.user_key),
            before || rule.covers(v.0.seq),
        );
        if rule.drops(v, before) {
            rest
        } else {
            seq![v] + rest
        }
    }
}

/// All versions that survive.
pub open spec fn compacted(s: Seq<Version>, rule: DropRule) -> Seq<Version> {
    survivors(s, rule, None, false)
}

/// What a reader gets from a lookup: nothing for a tombstone.
pub open spec fn seen_entry(r: Option<Version>) -> Option<EntryView> {
    match r {
        Some(v) => if v.1.value is Some {
            Some(v.1)
        } else {
            None
        },
        None => None,
    }
}

/// The survivors of a sorted sequence past index `n`.
proof fn survivors_after(s: Seq<Version>, rule: DropRule, n: int, last: Option<Seq<u8>>, seen: bool)
    requires
        sorted(s),
        0 <= n <= s.len(),
        last == (if n == 0 {
            None
        } else {
            Some(s[n - 1].0.user_key)
        }),
        n > 0 ==> seen == seen_covered(s, rule, n, s[n - 1].0.user_key),
    ensures
        forall|v: Version|
            #[trigger] survivors(s.skip(n), rule, last, seen).contains(v) <==> exists|i: int|
                n <= i < s.len() && #[trigger] stays(s, rule, i) && s[i] == v,
        sorted(survivors(s.skip(n), rule, last, seen)),
    decreases s.len() - n,
{
    let rest = s.skip(n);
    let out = survivors(rest, rule, last, seen);
    if n < s.len() {
        let v = s[n];
        let key = v.0.user_key;
        assert(rest[0] == v);
        assert(rest.skip(1) =~= s.skip(n + 1));
        let before = last == Some(key) && seen;
        sorted_is_ordered(s);
        assert(before == seen_covered(s, rule, n, key)) by {
            if seen_covered(s, rule, n, key) {
                let j = choose|j: int|
                    0 <= j < n && (#[trigger] s[j]).0.user_key == key && rule.covers(s[j].0.seq);
                same_key_is_contiguous(ScanDirection::Forward, s, j, n - 1, n);
            }
        }
        let after = before || rule.covers(v.0.seq);
        assert(after == seen_covered(s, rule, n + 1, key)) by {
            if rule.covers(v.0.seq) {
                assert(s[n].0.user_key == key);
            }
            if before {
                let j = choose|j: int|
                    0 <= j < n && (#[trigger] s[j]).0.user_key == key && rule.covers(s[j].0.seq);
                assert(s[j].0.user_key == key);
            }
        }
        survivors_after(s, rule, n + 1, Some(key), after);
        let tail = survivors(s.skip(n + 1), rule, Some(key), after);
        let kept = !rule.drops(v, before);
        assert(kept == stays(s, rule, n));
        if kept {
            assert(out =~= seq![v] + tail);
        } else {
            assert(out == tail);
        }
        assert forall|x: Version| #[trigger] out.contains(x) <==> exists|i: int|
            n <= i < s.len() && #[trigger] stays(s, rule, i) && s[i] == x by {
            if out.contains(x) {
                let k = choose|k: int| 0 <= k < out.len() && out[k] == x;
                if kept && k == 0 {
                    assert(stays(s, rule, n) && s[n] == x);
                } else {
                    if kept {
                        assert(tail[k - 1] == x);
                    }
                    assert(tail.contains(x));
                    let i = choose|i: int|
                        n + 1 <= i < s.len() && #[trigger] stays(s, rule, i) && s[i] == x;
                    assert(n <= i && stays(s, rule, i));
                }
            }
            if exists|i: int| n <= i < s.len() && #[trigger] stays(s, rule, i) && s[i] == x {
                let i = choose|i: int|
                    n <= i < s.len() && #[trigger] stays(s, rule, i) && s[i] == x;
                if i == n {
                    assert(out[0] == x);
                } else {
                    assert(n + 1 <= i && stays(s, rule, i));
                    assert(tail.contains(x));
                    let k = choose|k: int| 0 <= k < tail.len() && tail[k] == x;
                    if kept {
                        assert(out[k + 1] == x);
                    } else {
                        assert(out[k] == x);
                    }
                }
            }
        }
        assert forall|a: int, b: int| 0 <= a < b < out.len() implies (#[trigger] out[a]).0.lt(
            (#[trigger] out[b]).0,
        ) by {
            if kept {
                assert(out[b] == tail[b - 1]);
                if a == 0 {
                    assert(tail.contains(tail[b - 1]));
                    let i = choose|i: int|
                        n + 1 <= i < s.len() && #[trigger] stays(s, rule, i) && s[i] == tail[b - 1];
                    assert(s[n].0.lt(s[i].0));
                } else {
                    assert(out[a] == tail[a - 1]);
                }
            }
        }
    } else {
        assert forall|x: Version| #[trigger] out.contains(x) <==> exists|i: int|
            n <= i < s.len() && #[trigger] stays(s, rule, i) && s[i] == x by {}
    }
}

/// A version survives compaction exactly where it is above the watermark, or is
/// the newest of its key at or below the watermark and no tombstone to be
/// dropped. The survivors keep their order.
pub proof fn compaction_keeps_survivors(s: Seq<Version>, rule: DropRule)
    requires
        sorted(s),
    ensures
        forall|v: Version|
            #[trigger] compacted(s, rule).contains(v) <==> exists|i: int|
                0 <= i < s.len() && #[trigger] stays(s, rule, i) && s[i] == v,
        sorted(compacted(s, rule)),
{
    survivors_after(s, rule, 0, None, false);
    assert(s.skip(0) =~= s);
}

/// Compaction does not change what any reader at or above the watermark sees:
/// the newest visible version of a key is the same, or was a tombstone and is
/// gone.
pub proof fn compaction_preserves_reads(
    s: Seq<Version>,
    rule: DropRule,
    key: Seq<u8>,
    upper: u64,
    before: Option<Version>,
    after: Option<Version>,
)
    requires
        sorted(s),
        upper >= rule.gc_watermark,
        found_newest(s, key, upper, before),
        found_newest(compacted(s, rule), key, upper, after),
    ensures
        seen_entry(before) == seen_entry(after),
        seen_entry(before) is Some ==> before == after,
{
    let c = compacted(s, rule);
    compaction_keeps_survivors(s, rule);
    assert forall|w: Version| #[trigger] c.contains(w) implies s.contains(w) by {
        let i = choose|i: int| 0 <= i < s.len() && #[trigger] stays(s, rule, i) && s[i] == w;
        assert(s[i] == w);
    }
    match before {
        None => {
            if let Some(a) = after {
                assert(s.contains(a));
            }
        },
        Some(b) => {
            let i = choose|i: int| 0 <= i < s.len() && s[i] == b;
            if stays(s, rule, i) {
                assert(c.contains(b));
                match after {
                    None => {},
                    Some(a) => {
                        assert(s.contains(a));
                        if a.0 != b.0 {
                            key_lt_asymmetric(a.0, b.0);
                        }
                        crate::records::sorted_keys_are_unique(s, a, b);
                    },
                }
            } else {
                assert(!seen_covered(s, rule, i, key)) by {
                    if seen_covered(s, rule, i, key) {
                        let j = choose|j: int|
                            0 <= j < i && (#[trigger] s[j]).0.user_key == key && rule.covers(
                                s[j].0.seq,
                            );
                        assert(s.contains(s[j]));
                        assert(s[j].0.lt(s[i].0));
                        key_lt_asymmetric(s[j].0, s[i].0);
                    }
                }
                assert(b.1.value is None);
                if let Some(a) = after {
                    assert(s.contains(a));
                    let k = choose|k: int| 0 <= k < s.len() && #[trigger] stays(s, rule, k) && s[k] == a;
                    key_lt_irreflexive(a.0);
                    if k < i {
                        assert(s[k].0.lt(s[i].0));
                        key_lt_asymmetric(s[k].0, s[i].0);
                    }
                    if k > i {
                        assert(s[i].0.user_key == key && rule.covers(s[i].0.seq));
                        assert(seen_covered(s, rule, k, key));
                        assert(s[i].0.lt(s[k].0));
                    }
                }
            }
        },
    }
}

/// The state of a compaction's output.
pub struct PackView {
    /// The tables that are complete.
    pub files: Seq<Seq<Version>>,
    /// The versions of the next table.
    pub open: Seq<Version>,
    pub open_bytes: nat,
    pub last: Option<Seq<u8>>,
    pub seen: bool,
    pub versions_dropped: nat,
    pub tombstones_dropped: nat,
}

pub open spec fn pack_start() -> PackView {
    PackView {
        files: Seq::empty(),
        open: Seq::empty(),
        open_bytes: 0,
        last: None,
        seen: false,
        versions_dropped: 0,
        tombstones_dropped: 0,
    }
}

/// What one version counts toward the size at which a file is closed.
pub open spec fn packed_size(v: Version) -> nat {
    32 + v.1.value_size() + v.0.user_key.len()
}

/// The output after one more version: a full table is completed where a new key
/// begins, and then the version is left out or added.
pub open spec fn packed(st: PackView, v: Version, rule: DropRule, target: u64) -> PackView {
    let new_key = st.last != Some(v.0.user_key);
    let cut = new_key && st.open_bytes >= target && st.open.len() > 0;
    let files = if cut {
        st.files.push(st.open)
    } else {
        st.files
    };
    let open = if cut {
        Seq::empty()
    } else {
        st.open
    };
    let open_bytes = if cut {
        0
    } else {
        st.open_bytes
    };
    let seen = !new_key && st.seen;
    let dropped = rule.drops(v, seen);
    PackView {
        files,
        open: if dropped {
            open
        } else {
            open.push(v)
        },
        open_bytes: if dropped {
            open_bytes
        } else {
            capped(open_bytes + packed_size(v))
        },
        last: Some(v.0.user_key),
        seen: seen || rule.covers(v.0.seq),
        versions_dropped: st.versions_dropped + (if dropped && v.1.value is Some {
            1nat
        } else {
            0nat
        }),
        tombstones_dropped: st.tombstones_dropped + (if dropped && v.1.value is None {
            1nat
        } else {
            0nat
        }),
    }
}

/// The output after the versions of `s`.
pub open spec fn packed_all(st: PackView, s: Seq<Version>, rule: DropRule, target: u64) -> PackView
    decreases s.len(),
{
    if s.len() == 0 {
        st
    } else {
        packed(packed_all(st, s.drop_last(), rule, target), s.last(), rule, target)
    }
}

/// The tables of a finished output.
pub open spec fn tables_of(st: PackView) -> Seq<Seq<Version>> {
    if st.open.len() > 0 {
        st.files.push(st.open)
    } else {
        st.files
    }
}

/// The versions of all tables in order.
pub open spec fn joined(files: Seq<Seq<Version>>) -> Seq<Version>
    decreases files.len(),
{
    if files.len() == 0 {
        Seq::empty()
    } else {
        joined(files.drop_last()) + files.last()
    }
}

proof fn joined_push(files: Seq<Seq<Version>>, f: Seq<Version>)
    ensures
        joined(files.push(f)) == joined(files) + f,
{
    assert(files.push(f).drop_last() =~= files);
}

/// One more version at the end of what survives.
proof fn survivors_push(s: Seq<Version>, v: Version, rule: DropRule, last: Option<Seq<u8>>, seen: bool)
    ensures
        ({
            let st = last_state(s, rule, last, seen);
            let before = st.0 == Some(v.0.user_key) && st.1;
            survivors(s.push(v), rule, last, seen) == if rule.drops(v, before) {
                survivors(s, rule, last, seen)
            } else {
                survivors(s, rule, last, seen).push(v)
            }
        }),
    decreases s.len(),
{
    let t = s.push(v);
    if s.len() == 0 {
        assert(t.skip(1) =~= Seq::<Version>::empty());
        assert(survivors(t.skip(1), rule, Some(v.0.user_key), true).len() == 0);
        assert(survivors(t.skip(1), rule, Some(v.0.user_key), false).len() == 0);
        let before = last == Some(v.0.user_key) && seen;
        if !rule.drops(v, before) {
            assert(survivors(t, rule, last, seen) =~= survivors(s, rule, last, seen).push(v));
        } else {
            assert(survivors(t, rule, last, seen) =~= survivors(s, rule, last, seen));
        }
    } else {
        let w = s[0];
        let before = last == Some(w.0.user_key) && seen;
        let after = before || rule.covers(w.0.seq);
        assert(t.skip(1) =~= s.skip(1).push(v));
        survivors_push(s.skip(1), v, rule, Some(w.0.user_key), after);
        let r1 = survivors(s.skip(1), rule, Some(w.0.user_key), after);
        if !rule.drops(w, before) {
            assert(seq![w] + r1.push(v) =~= (seq![w] + r1).push(v));
        }
    }
}

/// The user key handled last and whether a version of it was covered, after the
/// versions of `s`.
pub open spec fn last_state(s: Seq<Version>, rule: DropRule, last: Option<Seq<u8>>, seen: bool) -> (
    Option<Seq<u8>>,
    bool,
)
    decreases s.len(),
{
    if s.len() == 0 {
        (last, seen)
    } else {
        let v = s[0];
        let before = last == Some(v.0.user_key) && seen;
        last_state(s.skip(1), rule, Some(v.0.user_key), before || rule.covers(v.0.seq))
    }
}

proof fn last_state_push(s: Seq<Version>, v: Version, rule: DropRule, last: Option<Seq<u8>>, seen: bool)
    ensures
        ({
            let st = last_state(s, rule, last, seen);
            let before = st.0 == Some(v.0.user_key) && st.1;
            last_state(s.push(v), rule, last, seen) == (
                Some(v.0.user_key),
                before || rule.covers(v.0.seq),
            )
        }),
    decreases s.len(),
{
    let t = s.push(v);
    if s.len() == 0 {
        let x = (last == Some(v.0.user_key) && seen) || rule.covers(v.0.seq);
        assert(t.skip(1).len() == 0);
        assert(last_state(t.skip(1), rule, Some(v.0.user_key), x) == (Some(v.0.user_key), x));
        assert(last_state(s, rule, last, seen) == (last, seen));
    } else {
        let w = s[0];
        let before = last == Some(w.0.user_key) && seen;
        assert(t.skip(1) =~= s.skip(1).push(v));
        last_state_push(s.skip(1), v, rule, Some(w.0.user_key), before || rule.covers(w.0.seq));
    }
}

/// The tables and the open table hold exactly the survivors so far.
proof fn packed_all_facts(s: Seq<Version>, rule: DropRule, target: u64)
    ensures
        ({
            let st = packed_all(pack_start(), s, rule, target);
            &&& joined(st.files) + st.open == compacted(s, rule)
            &&& (st.last, st.seen) == last_state(s, rule, None, false)
            &&& st.files.len() + st.open.len() <= s.len()
            &&& forall|i: int| 0 <= i < st.files.len() ==> (#[trigger] st.files[i]).len() > 0
            &&& st.versions_dropped + st.tombstones_dropped + compacted(s, rule).len() == s.len()
            &&& st.open_bytes <= u64::MAX
        }),
    decreases s.len(),
{
    let st = packed_all(pack_start(), s, rule, target);
    if s.len() == 0 {
        assert(joined(st.files) + st.open =~= Seq::<Version>::empty());
    } else {
        let init = s.drop_last();
        let v = s.last();
        let st0 = packed_all(pack_start(), init, rule, target);
        packed_all_facts(init, rule, target);
        survivors_push(init, v, rule, None, false);
        last_state_push(init, v, rule, None, false);
        assert(init.push(v) =~= s);
        joined_push(st0.files, st0.open);
        let e = Seq::<Version>::empty();
        assert(joined(st0.files) + st0.open + e =~= joined(st0.files) + st0.open);
        assert(joined(st0.files) + st0.open.push(v) =~= (joined(st0.files) + st0.open).push(v));
        assert((joined(st0.files) + st0.open) + e.push(v) =~= (joined(st0.files) + st0.open).push(
            v,
        ));
    }
}

/// The tables of a finished compaction hold exactly the survivors, in order and
/// without an empty table.
pub proof fn output_holds_survivors(s: Seq<Version>, rule: DropRule, target: u64)
    ensures
        joined(tables_of(packed_all(pack_start(), s, rule, target))) == compacted(s, rule),
        forall|i: int|
            0 <= i < tables_of(packed_all(pack_start(), s, rule, target)).len() ==> (
            #[trigger] tables_of(packed_all(pack_start(), s, rule, target))[i]).len() > 0,
        tables_of(packed_all(pack_start(), s, rule, target)).len() <= s.len(),
{
    packed_all_facts(s, rule, target);
    let st = packed_all(pack_start(), s, rule, target);
    joined_push(st.files, st.open);
    if st.open.len() == 0 {
        assert(joined(st.files) + st.open =~= joined(st.files));
    }
}

/// The parts of a sorted concatenation are sorted.
proof fn joined_parts_sorted(files: Seq<Seq<Version>>, open: Seq<Version>)
    requires
        sorted(joined(files) + open),
    ensures
        sorted(open),
        forall|i: int| 0 <= i < files.len() ==> sorted(#[trigger] files[i]),
    decreases files.len(),
{
    let all = joined(files) + open;
    let n = joined(files).len() as int;
    assert forall|a: int, b: int| 0 <= a < b < open.len() implies (#[trigger] open[a]).0.lt(
        (#[trigger] open[b]).0,
    ) by {
        assert(all[n + a].0.lt(all[n + b].0));
    }
    if files.len() > 0 {
        let init = files.drop_last();
        assert(sorted(joined(init) + files.last())) by {
            let part = joined(init) + files.last();
            assert forall|a: int, b: int| 0 <= a < b < part.len() implies (#[trigger] part[a]).0.lt(
                (#[trigger] part[b]).0,
            ) by {
                assert(all[a].0.lt(all[b].0));
            }
        }
        joined_parts_sorted(init, files.last());
        assert forall|i: int| 0 <= i < files.len() implies sorted(#[trigger] files[i]) by {
            if i < init.len() {
                assert(init[i] == files[i]);
            }
        }
    }
}

/// Whether a compaction leaves a version out. `seen` says that a newer version
/// of the key was covered by the rule, and is updated.
pub fn should_drop_at_compaction(k: &InternalKey, e: &Entry, rule: &DropRule, seen: &mut bool) -> (r:
    bool)
    ensures
        r == rule.drops((k@, e@), *old(seen)),
        *final(seen) == (*old(seen) || rule.covers(k@.seq)),
{
    if rule.gc_watermark == 0 || k.seq > rule.gc_watermark {
        return false;
    }
    let shadowed: bool = *seen;
    *seen = true;
    shadowed || (rule.drop_tombstones && e.is_tombstone())
}

/// A table that a compaction made.
#[derive(Debug)]
pub struct NewTable {
    pub meta: SstableMeta,
    pub reader: SstableReader,
}

/// What a compaction did.
#[derive(Debug)]
pub struct CompactionExecuteResult {
    pub job: CompactionJob,
    /// The new tables, numbered from `first_id` on.
    pub new_tables: Vec<NewTable>,
    pub first_id: u64,
    pub input_metas: Vec<SstableMeta>,
    pub rule: DropRule,
    pub bytes_read: u64,
    pub bytes_written: u64,
    pub versions_dropped: u64,
    pub tombstones_dropped: u64,
}

/// The bytes of a list of tables, as far as 64 bits show it.
pub open spec fn capped_bytes(s: Seq<MetaView>) -> nat
    decreases s.len(),
{
    if s.len() == 0 {
        0
    } else {
        capped(capped_bytes(s.drop_last()) + s.last().size_bytes as nat)
    }
}

/// The new tables are the tables `files`, with consecutive ids from `first_id`.
pub open spec fn tables_match(
    t: Seq<NewTable>,
    files: Seq<Seq<Version>>,
    first_id: u64,
    level: u8,
) -> bool {
    &&& t.len() == files.len()
    &&& forall|i: int|
        0 <= i < t.len() ==> (#[trigger] t[i]).reader.wf() && t[i].reader@ == files[i]
            && t[i].meta@ == meta_of(files[i], (first_id + i) as u64, level)
}

/// Whether the tables of a level have filters: where the configuration saves them, those
/// of the last level have none.
pub open spec fn has_filters(cfg: CompactionConfig, level: u8) -> bool {
    !(cfg.optimize_filters_for_hits && level == cfg.max_level)
}

/// The new tables have filters, or have none.
pub open spec fn filters_kept(t: Seq<NewTable>, with: bool) -> bool {
    forall|i: int| 0 <= i < t.len() ==> ((#[trigger] t[i]).reader.filter_view() is Some <==> with)
}

/// The runs of a list of sources.
pub open spec fn run_views(sources: Seq<Vec<(InternalKey, Entry)>>) -> Seq<Seq<Version>> {
    Seq::new(sources.len(), |i: int| versions(sources[i]@))
}

/// Makes a table of the open pairs.
fn finish_table(
    pairs: Vec<(InternalKey, Entry)>,
    level: u8,
    cfg: &CompactionConfig,
    id: u64,
) -> (t: NewTable)
    requires
        sorted(versions(pairs@)),
        0 < pairs@.len(),
        pairs@.len() * 10 <= usize::MAX,
    ensures
        t.reader.wf(),
        t.reader@ == versions(pairs@),
        t.meta@ == meta_of(versions(pairs@), id, level),
        t.reader.filter_view() is Some <==> has_filters(*cfg, level),
{
    let with_bloom: bool = !(cfg.optimize_filters_for_hits && level == cfg.max_level);
    let meta: SstableMeta = describe_pairs(pairs.as_slice(), id, level);
    let reader: SstableReader = SstableReader::build(pairs, with_bloom);
    NewTable { meta, reader }
}

/// Merges the input tables into new tables with ids from `first_id` on. The
/// catalog is not touched.
pub fn execute_compaction(
    job: CompactionJob,
    input_metas: Vec<SstableMeta>,
    sources: Vec<Vec<(InternalKey, Entry)>>,
    cfg: &CompactionConfig,
    first_id: u64,
    rule: DropRule,
) -> (r: CompactionExecuteResult)
    requires
        forall|i: int| 0 <= i < sources@.len() ==> sorted(versions((#[trigger] sources@[i])@)),
        total_len(run_views(sources@)) * 10 <= usize::MAX,
        first_id + total_len(run_views(sources@)) <= u64::MAX,
    ensures
        r.job@ == job@,
        r.first_id == first_id,
        r.rule == rule,
        meta_views(r.input_metas@) == meta_views(input_metas@),
        r.bytes_read == capped_bytes(meta_views(input_metas@)),
        ({
            let s = merged_once(run_views(sources@));
            let st = packed_all(pack_start(), s, rule, cfg.target_file_bytes);
            &&& tables_match(r.new_tables@, tables_of(st), first_id, job.output_level)
            &&& r.versions_dropped == st.versions_dropped
            &&& r.tombstones_dropped == st.tombstones_dropped
        }),
        filters_kept(r.new_tables@, has_filters(*cfg, job.output_level)),
        r.bytes_written == capped_bytes(
            Seq::new(r.new_tables@.len(), |i: int| r.new_tables@[i].meta@),
        ),
{
    let ghost runs = run_views(sources@);
    let ghost s = merged(runs, ScanDirection::Forward);
    let ghost target = cfg.target_file_bytes;
    let level: u8 = job.output_level;
    proof {
        assert forall|i: int| 0 <= i < runs.len() implies sorted(#[trigger] runs[i]) by {
            assert(sorted(versions(sources@[i]@)));
        }
        merge_is_sorted(runs);
        merge_keeps_every_version(runs, ScanDirection::Forward);
        assert(s.take(0) =~= Seq::<Version>::empty());
        assert(s.skip(0) =~= s);
        assert(once(s.take(0)) =~= Seq::<Version>::empty());
    }
    let bytes_read: u64 = sum_sizes(&input_metas);
    let mut merger: MergingIterator<RunIter> = open_merge(sources);
    let mut open: Vec<(InternalKey, Entry)> = Vec::new();
    let mut open_bytes: u64 = 0;
    let mut tables: Vec<NewTable> = Vec::new();
    let mut bytes_written: u64 = 0;
    let mut versions_dropped: u64 = 0;
    let mut tombstones_dropped: u64 = 0;
    let mut last: Option<InternalKey> = None;
    let mut seen: bool = false;
    let ghost mut n: int = 0;
    let ghost mut st = pack_start();
    proof {
        assert(versions(open@) =~= Seq::<Version>::empty());
        assert(merger.pending() == s);
        assert(Seq::new(tables@.len(), |i: int| tables@[i].meta@) =~= Seq::<MetaView>::empty());
    }
    loop
        invariant_except_break
            merger.pending() == s.skip(n),
        invariant
            merger.wf(),
            merger.reliable(),
            0 <= n <= s.len(),
            ordered(ScanDirection::Forward, s),
            s.len() * 10 <= usize::MAX,
            first_id + s.len() <= u64::MAX,
            target == cfg.target_file_bytes,
            level == job.output_level,
            st == packed_all(pack_start(), once(s.take(n)), rule, target),
            versions(open@) == st.open,
            open_bytes == st.open_bytes,
            match last {
                Some(k) => n > 0 && k@ == s[n - 1].0 && st.last == Some(k@.user_key),
                None => n == 0 && st.last is None,
            },
            seen == st.seen,
            tables_match(tables@, st.files, first_id, level),
            filters_kept(tables@, has_filters(*cfg, level)),
            versions_dropped == st.versions_dropped,
            tombstones_dropped == st.tombstones_dropped,
            bytes_written == capped_bytes(Seq::new(tables@.len(), |i: int| tables@[i].meta@)),
        ensures
            n == s.len(),
        decreases s.len() - n,
    {
        let next: Option<(InternalKey, Entry)> = match merger.next() {
            Ok(next) => next,
            Err(_) => None,
        };
        let (k, e) = match next {
            Some(pair) => pair,
            None => {
                break;
            },
        };
        let ghost v = (k@, e@);
        let ghost now = once(s.take(n));
        proof {
            assert(v == s[n]);
            assert(s.take(n + 1).drop_last() =~= s.take(n));
            assert(s.take(n + 1).last() == v);
            assert(s.skip(n).skip(1) =~= s.skip(n + 1));
            ordered_part(s, n);
            ordered_part(s, n + 1);
            once_is_sorted(s.take(n));
            once_is_sorted(s.take(n + 1));
        }
        let again: bool = match &last {
            Some(prev) => keys_agree(prev, &k),
            None => false,
        };
        if again {
            proof {
                assert(s.take(n + 1)[n - 1] == s[n - 1]);
                assert(once(s.take(n + 1)) == now);
                n = n + 1;
            }
            continue;
        }
        proof {
            assert(once(s.take(n + 1)) == now.push(v)) by {
                if n > 0 {
                    assert(s.take(n + 1)[n - 1] == s[n - 1]);
                }
            }
            assert(now.push(v).drop_last() =~= now);
            packed_all_facts(now, rule, target);
            compaction_keeps_survivors(now, rule);
            joined_parts_sorted(st.files, st.open);
            packed_all_facts(now.push(v), rule, target);
        }
        let new_key: bool = match &last {
            Some(prev) => !bytes_eq(prev.user_key.as_slice(), k.user_key.as_slice()),
            None => true,
        };
        if new_key {
            seen = false;
        }
        if new_key && open_bytes >= cfg.target_file_bytes && open.len() > 0 {
            let ghost done = tables@;
            let t: NewTable = finish_table(open, level, cfg, first_id + tables.len() as u64);
            bytes_written = bytes_written.saturating_add(t.meta.size_bytes);
            tables.push(t);
            proof {
                bytes_push(done, tables@);
            }
            open = Vec::new();
            open_bytes = 0;
            assert(versions(open@) =~= Seq::<Version>::empty());
        }
        last = Some(InternalKey::new(copy_bytes(k.user_key.as_slice()), k.seq, k.kind));
        if should_drop_at_compaction(&k, &e, &rule, &mut seen) {
            if e.is_tombstone() {
                tombstones_dropped = tombstones_dropped + 1;
            } else {
                versions_dropped = versions_dropped + 1;
            }
        } else {
            let part: u64 = 32u64.saturating_add(e.value_len() as u64).saturating_add(
                k.user_key.len() as u64,
            );
            open_bytes = open_bytes.saturating_add(part);
            let ghost was = versions(open@);
            open.push((k, e));
            assert(versions(open@) =~= was.push(v));
        }
        proof {
            n = n + 1;
            st = packed_all(pack_start(), now.push(v), rule, target);
        }
    }
    proof {
        assert(s.take(n) =~= s);
        once_is_sorted(s);
        packed_all_facts(once(s), rule, target);
        compaction_keeps_survivors(once(s), rule);
        joined_parts_sorted(st.files, st.open);
    }
    if open.len() > 0 {
        let ghost done = tables@;
        let t: NewTable = finish_table(open, level, cfg, first_id + tables.len() as u64);
        bytes_written = bytes_written.saturating_add(t.meta.size_bytes);
        tables.push(t);
        proof {
            bytes_push(done, tables@);
        }
    }
    CompactionExecuteResult {
        job,
        new_tables: tables,
        first_id,
        input_metas,
        rule,
        bytes_read,
        bytes_written,
        versions_dropped,
        tombstones_dropped,
    }
}

/// A beginning of an ordered sequence is ordered.
proof fn ordered_part(s: Seq<Version>, n: int)
    requires
        ordered(ScanDirection::Forward, s),
        0 <= n <= s.len(),
    ensures
        ordered(ScanDirection::Forward, s.take(n)),
{
    let t = s.take(n);
    assert forall|i: int, j: int| 0 <= i < j < t.len() implies !ahead(
        ScanDirection::Forward,
        (#[trigger] t[j]).0,
        (#[trigger] t[i]).0,
    ) by {
        assert(!ahead(ScanDirection::Forward, s[j].0, s[i].0));
    }
}

proof fn bytes_push(a: Seq<NewTable>, b: Seq<NewTable>)
    requires
        b.len() == a.len() + 1,
        forall|i: int| 0 <= i < a.len() ==> b[i] == #[trigger] a[i],
    ensures
        capped_bytes(Seq::new(b.len(), |i: int| b[i].meta@)) == capped(
            capped_bytes(Seq::new(a.len(), |i: int| a[i].meta@)) + b[b.len() - 1].meta@.size_bytes as nat,
        ),
{
    let x = Seq::new(b.len(), |i: int| b[i].meta@);
    let y = Seq::new(a.len(), |i: int| a[i].meta@);
    assert(x.drop_last() =~= y);
}

/// The merge of owned runs.
fn open_merge(sources: Vec<Vec<(InternalKey, Entry)>>) -> (m: MergingIterator<RunIter>)
    ensures
        m.wf(),
        m.reliable(),
        m.pending() == merged(run_views(sources@), ScanDirection::Forward),
{
    let ghost all = sources@;
    let mut rest: Vec<Vec<(InternalKey, Entry)>> = sources;
    let mut iters: Vec<RunIter> = Vec::new();
    let n: usize = rest.len();
    let mut i: usize = 0;
    while i < n
        invariant
            i <= n == all.len(),
            rest@ == all.skip(i as int),
            iters@.len() == i,
            forall|j: int|
                0 <= j < i ==> (#[trigger] iters@[j]).wf() && iters@[j].reliable()
                    && iters@[j].pending() == versions(all[j]@),
        decreases n - i,
    {
        let run: Vec<(InternalKey, Entry)> = rest.remove(0);
        assert(rest@ =~= all.skip(i + 1));
        assert(run == all[i as int]);
        iters.push(RunIter::new(run));
        i = i + 1;
    }
    let ghost pend = Seq::new(iters@.len(), |i: int| iters@[i].pending());
    assert(pend =~= run_views(all));
    MergingIterator::new(iters, MergeMode::Raw).unwrap()
}

fn sum_sizes(metas: &Vec<SstableMeta>) -> (n: u64)
    ensures
        n == capped_bytes(meta_views(metas@)),
{
    let ghost s = meta_views(metas@);
    let mut n: u64 = 0;
    let mut i: usize = 0;
    assert(s.take(0) =~= Seq::<MetaView>::empty());
    while i < metas.len()
        invariant
            i <= metas@.len(),
            s == meta_views(metas@),
            n == capped_bytes(s.take(i as int)),
        decreases metas.len() - i,
    {
        proof {
            assert(s.take(i + 1).drop_last() =~= s.take(i as int));
            assert(s.take(i + 1).last() == metas@[i as int]@);
        }
        n = n.saturating_add(metas[i].size_bytes);
        i = i + 1;
    }
    assert(s.take(s.len() as int) =~= s);
    n
}

/// A compaction for the background worker.
#[derive(Debug)]
pub struct CompactionWork {
    pub job: CompactionJob,
    pub input_metas: Vec<SstableMeta>,
    pub rule: DropRule,
}

/// The state of the background worker. A job that a method hands out is to be
/// sent to the worker.
#[derive(Debug)]
pub struct CompactionScheduler {
    pub worker_busy: bool,
    /// The worker failed and nobody has asked yet.
    pub worker_failed: bool,
    pub last_error: Option<String>,
    pub compaction_needed: bool,
    /// The best job seen while the worker was busy.
    pub pending: Option<CompactionWork>,
}

impl CompactionScheduler {
    pub fn new() -> (s: Self)
        ensures
            !s.worker_busy,
            !s.worker_failed,
            s.last_error is None,
            !s.compaction_needed,
            s.pending is None,
    {
        CompactionScheduler {
            worker_busy: false,
            worker_failed: false,
            last_error: None,
            compaction_needed: false,
            pending: None,
        }
    }

    /// Notes that there may be work.
    pub fn request_compaction(&mut self)
        ensures
            *final(self) == (CompactionScheduler { compaction_needed: true, ..*old(self) }),
    {
        self.compaction_needed = true;
    }

    pub fn is_worker_busy(&self) -> (r: bool)
        ensures
            r == self.worker_busy,
    {
        self.worker_busy
    }

    pub fn compaction_needed(&self) -> (r: bool)
        ensures
            r == self.compaction_needed,
    {
        self.compaction_needed
    }

    pub fn clear_compaction_needed(&mut self)
        ensures
            *final(self) == (CompactionScheduler { compaction_needed: false, ..*old(self) }),
    {
        self.compaction_needed = false;
    }

    pub fn note_worker_failed(&mut self, err: String)
        ensures
            *final(self) == (CompactionScheduler {
                last_error: Some(err),
                worker_failed: true,
                ..*old(self)
            }),
    {
        self.last_error = Some(err);
        self.worker_failed = true;
    }

    /// Hands out the worker's last failure once.
    pub fn take_worker_failure(&mut self) -> (r: Option<String>)
        ensures
            old(self).worker_failed ==> r == old(self).last_error && *final(self) == (
            CompactionScheduler { worker_failed: false, last_error: None, ..*old(self) }),
            !old(self).worker_failed ==> r is None && *final(self) == *old(self),
    {
        if !self.worker_failed {
            return None;
        }
        self.worker_failed = false;
        self.last_error.take()
    }

    /// Forgets the staged job.
    pub fn clear_staged(&mut self)
        ensures
            *final(self) == (CompactionScheduler { pending: None, ..*old(self) }),
    {
        self.pending = None;
    }

    /// Keeps the job with the larger score. The staged one wins a tie.
    pub fn stage_if_busy(&mut self, work: CompactionWork)
        ensures
            ({
                let replace = match old(self).pending {
                    Some(p) => work.job.priority_score.above(p.job.priority_score),
                    None => true,
                };
                *final(self) == if replace {
                    CompactionScheduler { pending: Some(work), ..*old(self) }
                } else {
                    *old(self)
                }
            }),
    {
        let replace: bool = match &self.pending {
            Some(p) => work.job.priority_score.exceeds(&p.job.priority_score),
            None => true,
        };
        if replace {
            self.pending = Some(work);
        }
    }

    /// Hands the job out where the worker is idle, and stages it otherwise.
    pub fn try_submit(&mut self, work: CompactionWork) -> (r: Option<CompactionWork>)
        ensures
            !old(self).worker_busy ==> r == Some(work) && *final(self) == (CompactionScheduler {
                worker_failed: false,
                worker_busy: true,
                compaction_needed: false,
                ..*old(self)
            }),
            old(self).worker_busy ==> r is None && ({
                let replace = match old(self).pending {
                    Some(p) => work.job.priority_score.above(p.job.priority_score),
                    None => true,
                };
                *final(self) == if replace {
                    CompactionScheduler { pending: Some(work), ..*old(self) }
                } else {
                    *old(self)
                }
            }),
    {
        if self.worker_busy {
            self.stage_if_busy(work);
            return None;
        }
        self.submit_work();
        Some(work)
    }

    /// Hands the staged job out where the worker is idle.
    pub fn try_submit_staged(&mut self) -> (r: Option<CompactionWork>)
        ensures
            old(self).worker_busy || old(self).pending is None ==> r is None && *final(self)
                == *old(self),
            !old(self).worker_busy && old(self).pending is Some ==> r == old(self).pending
                && *final(self) == (CompactionScheduler {
                pending: None,
                worker_failed: false,
                worker_busy: true,
                compaction_needed: false,
                ..*old(self)
            }),
    {
        if self.worker_busy {
            return None;
        }
        let staged: Option<CompactionWork> = self.pending.take();
        if staged.is_some() {
            self.submit_work();
        }
        staged
    }

    fn submit_work(&mut self)
        ensures
            *final(self) == (CompactionScheduler {
                worker_failed: false,
                worker_busy: true,
                compaction_needed: false,
                ..*old(self)
            }),
    {
        self.worker_failed = false;
        self.worker_busy = true;
        self.compaction_needed = false;
    }

    /// Notes that the worker has finished its job.
    pub fn worker_finished(&mut self)
        ensures
            *final(self) == (CompactionScheduler { worker_busy: false, ..*old(self) }),
    {
        self.worker_busy = false;
    }

    /// The number of jobs that run or wait.
    pub fn queue_depth(&self) -> (n: usize)
        ensures
            n == (if self.worker_busy {
                1int
            } else {
                0
            }) + (if self.pending is Some {
                1int
            } else {
                0
            }),
    {
        let busy: usize = if self.worker_busy {
            1
        } else {
            0
        };
        let staged: usize = if self.pending.is_some() {
            1
        } else {
            0
        };
        busy + staged
    }
}

} // verus!
