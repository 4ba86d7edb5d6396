//! Reads and range scans over the layers of a store.
//!
//! A snapshot is a ceiling on sequence numbers. Reads return, of each user key, the
//! newest version at or below the ceiling; a tombstone there shadows older values.

use std::sync::Arc;
use vstd::prelude::*;
use crate::bytes::{
    bytes_le, bytes_lt, copy_bytes, has_prefix, lex_le, lex_le_lt, lex_lt, lex_lt_asymmetric,
    lex_lt_irreflexive, lex_lt_total, lex_lt_transitive,
};
use crate::engine::scans::{
    keys_valid, lists_found, lists_found_under, prefix_scan_lists_what_get_finds,
    scan_lists_what_get_finds,
};
use crate::entry::Entry;
use crate::errors::EngineResult;
use crate::iter::{at_or_below, EntryIterator, LayerIter, MergeMode, MergingIterator, ScanDirection};
use crate::keys::InternalKey;
use crate::manifest::SstableMeta;
use crate::memtable::Memtable;
use crate::records::{found_newest, in_range, sorted, versions, visible, Version};
use crate::sstable::{describes, SstableReader};
use crate::store::{
    at_or_below_contains, at_or_below_ordered, better, coherent, holds, key_in, layer_lookup,
    listing, lookup_is_newest, newest, newest_of_two, newest_or_none, readable, runs_cover,
    scan_is_listing, union_of, value_and_seq_at, value_at,
};

verus! {

/// Drops the versions above a ceiling from a stream: what makes a snapshot blind to
/// later writes.
pub struct SeqFilter<I: EntryIterator> {
    inner: I,
    seq_upper: u64,
}

impl<I: EntryIterator> SeqFilter<I> {
    pub fn new(inner: I, seq_upper: u64) -> (f: Self)
        requires
            inner.wf(),
        ensures
            f.wf(),
            f.reliable() == inner.reliable(),
            f.pending() == at_or_below(inner.pending(), seq_upper),
    {
        SeqFilter { inner, seq_upper }
    }
}

impl<I: EntryIterator> EntryIterator for SeqFilter<I> {
    closed spec fn wf(&self) -> bool {
        self.inner.wf()
    }

    closed spec fn pending(&self) -> Seq<Version> {
        at_or_below(self.inner.pending(), self.seq_upper)
    }

    closed spec fn reliable(&self) -> bool {
        self.inner.reliable()
    }

    fn next(&mut self) -> (r: EngineResult<Option<(InternalKey, Entry)>>) {
        let ghost start = self.pending();
        let ghost sure = self.reliable();
        loop
            invariant
                self.wf(),
                self.pending() == start,
                sure ==> self.reliable(),
                sure == old(self).reliable(),
                start == old(self).pending(),
                self.seq_upper == old(self).seq_upper,
            decreases self.inner.pending().len(),
        {
            let ghost p = self.inner.pending();
            match self.inner.next() {
                Ok(Some(pair)) => {
                    if pair.0.seq <= self.seq_upper {
                        assert(start =~= seq![p[0]] + self.pending());
                        assert(start.skip(1) =~= self.pending());
                        return Ok(Some(pair));
                    }
                },
                Ok(None) => {
                    return Ok(None);
                },
                Err(e) => {
                    return Err(e);
                },
            }
        }
    }
}

/// The bytes of the list's pairs.
pub open spec fn pair_views(v: Seq<(Vec<u8>, Vec<u8>)>) -> Seq<(Seq<u8>, Seq<u8>)> {
    Seq::new(v.len(), |i: int| (v[i].0@, v[i].1@))
}

/// A range scan in progress. It yields pairs of user key and value; what is deleted
/// or expired does not appear.
pub struct RangeIter<'a> {
    inner: MergingIterator<SeqFilter<LayerIter<'a>>>,
    now_ms: u64,
}

impl<'a> RangeIter<'a> {
    pub closed spec fn wf(&self) -> bool {
        self.inner.wf() && self.inner.reliable()
    }

    /// The pairs still to come.
    pub closed spec fn pending(&self) -> Seq<(Seq<u8>, Seq<u8>)> {
        readable(self.inner.pending(), self.now_ms)
    }

    /// A scan over merged layers at a time.
    pub(crate) fn over(
        inner: MergingIterator<SeqFilter<LayerIter<'a>>>,
        now_ms: u64,
    ) -> (it: RangeIter<'a>)
        requires
            inner.wf(),
            inner.reliable(),
        ensures
            it.wf(),
            it.pending() == readable(inner.pending(), now_ms),
    {
        RangeIter { inner, now_ms }
    }

    /// The next pair.
    pub fn next(&mut self) -> (r: Option<EngineResult<(Vec<u8>, Vec<u8>)>>)
        requires
            old(self).wf(),
        ensures
            final(self).wf(),
            match r {
                Some(Ok(p)) => old(self).pending().len() > 0 && (p.0@, p.1@) == old(
                    self,
                ).pending()[0] && final(self).pending() == old(self).pending().skip(1),
                Some(Err(_)) => false,
                None => old(self).pending().len() == 0 && final(self).pending() == old(
                    self,
                ).pending(),
            },
    {
        let ghost start = self.pending();
        loop
            invariant
                self.wf(),
                self.pending() == start,
                start == old(self).pending(),
                self.now_ms == old(self).now_ms,
            decreases self.inner.pending().len(),
        {
            let ghost p = self.inner.pending();
            match self.inner.next() {
                Ok(Some((key, entry))) => {
                    match entry.read(self.now_ms) {
                        Some(value) => {
                            assert(start =~= seq![(key.user_key@, value@)] + self.pending());
                            assert(start.skip(1) =~= self.pending());
                            return Some(Ok((key.user_key, value)));
                        },
                        None => {},
                    }
                },
                Ok(None) => {
                    return None;
                },
                Err(e) => {
                    return Some(Err(e));
                },
            }
        }
    }

    /// All pairs still to come.
    pub fn collect(self) -> (v: Vec<(Vec<u8>, Vec<u8>)>)
        requires
            self.wf(),
        ensures
            pair_views(v@) == self.pending(),
    {
        let mut it: RangeIter<'a> = self;
        let ghost all = it.pending();
        let mut v: Vec<(Vec<u8>, Vec<u8>)> = Vec::new();
        assert(pair_views(v@) + it.pending() =~= all);
        loop
            invariant
                it.wf(),
                all == self.pending(),
                pair_views(v@) + it.pending() == all,
            decreases it.pending().len(),
        {
            let ghost p = it.pending();
            let ghost before = pair_views(v@);
            match it.next() {
                Some(Ok(pair)) => {
                    let ghost x = (pair.0@, pair.1@);
                    v.push(pair);
                    assert(pair_views(v@) =~= before.push(x));
                    assert(pair_views(v@) + it.pending() =~= before + p);
                },
                _ => {
                    assert(pair_views(v@) =~= all);
                    return v;
                },
            }
        }
    }
}

/// The bytes that follow every string with the given prefix, or none where every
/// byte of the prefix is the largest.
pub open spec fn after_prefix(prefix: Seq<u8>) -> Seq<u8>
    decreases prefix.len(),
{
    if prefix.len() == 0 {
        Seq::empty()
    } else if prefix.last() != 0xff {
        prefix.drop_last().push((prefix.last() + 1) as u8)
    } else {
        after_prefix(prefix.drop_last())
    }
}

proof fn lex_lt_same_head(a: Seq<u8>, b: Seq<u8>, c: u8)
    ensures
        lex_lt(seq![c] + a, seq![c] + b) == lex_lt(a, b),
{
    assert((seq![c] + a).skip(1) =~= a);
    assert((seq![c] + b).skip(1) =~= b);
}

/// Exactly the strings with a prefix lie from the prefix up to the bytes that follow
/// it, where there are any: the range of a prefix scan is tight.
pub proof fn prefix_range_is_tight(prefix: Seq<u8>, s: Seq<u8>)
    ensures
        has_prefix(s, prefix) <==> key_in(s, prefix, after_prefix(prefix)),
    decreases prefix.len(),
{
    let hi = after_prefix(prefix);
    if prefix.len() == 0 {
        assert(s.take(0) =~= prefix);
        if s.len() > 0 {
            assert(lex_lt(prefix, s));
        } else {
            assert(s =~= prefix);
        }
    } else {
        let c = prefix[0];
        let p = prefix.skip(1);
        after_prefix_tail(prefix);
        if s.len() == 0 {
            lex_lt_irreflexive(s);
            assert(!lex_lt(prefix, s));
        } else {
            let d = s[0];
            let t = s.skip(1);
            assert(s =~= seq![d] + t);
            assert(prefix =~= seq![c] + p);
            if d == c {
                prefix_range_is_tight(p, t);
                assert(has_prefix(s, prefix) <==> has_prefix(t, p)) by {
                    if has_prefix(s, prefix) {
                        assert(t.take(p.len() as int) =~= s.take(prefix.len() as int).skip(1));
                    }
                    if has_prefix(t, p) {
                        assert(s.take(prefix.len() as int) =~= seq![c] + t.take(p.len() as int));
                    }
                }
                lex_lt_same_head(p, t, c);
                assert(lex_le(prefix, s) <==> lex_le(p, t)) by {
                    if prefix == s {
                        assert(p =~= t);
                    }
                }
                if after_prefix(p).len() > 0 {
                    lex_lt_same_head(t, after_prefix(p), c);
                    assert(key_in(s, prefix, hi) <==> key_in(t, p, after_prefix(p)));
                } else if hi.len() > 0 {
                    assert(hi[0] == c + 1);
                    assert(lex_lt(s, hi));
                }
            } else {
                assert(!has_prefix(s, prefix)) by {
                    if has_prefix(s, prefix) {
                        assert(s.take(prefix.len() as int)[0] == prefix[0]);
                    }
                }
                if d > c {
                    assert(hi.len() > 0);
                    if after_prefix(p).len() > 0 {
                        assert(hi[0] == c);
                        assert(!lex_lt(s, hi));
                    } else {
                        assert(hi[0] == c + 1);
                        assert(hi.skip(1) =~= Seq::<u8>::empty());
                        assert(!lex_lt(t, hi.skip(1)));
                        assert(!lex_lt(s, hi));
                    }
                } else {
                    assert(!lex_lt(prefix, s));
                }
            }
        }
    }
}

proof fn after_prefix_tail(prefix: Seq<u8>)
    requires
        prefix.len() > 0,
    ensures
        after_prefix(prefix.skip(1)).len() > 0 ==> after_prefix(prefix) == seq![prefix[0]]
            + after_prefix(prefix.skip(1)),
        after_prefix(prefix.skip(1)).len() == 0 && prefix[0] != 0xff ==> after_prefix(prefix)
            == seq![(prefix[0] + 1) as u8],
        after_prefix(prefix.skip(1)).len() == 0 && prefix[0] == 0xff ==> after_prefix(prefix)
            == Seq::<u8>::empty(),
    decreases prefix.len(),
{
    let p = prefix.skip(1);
    if prefix.len() == 1 {
        assert(p =~= Seq::<u8>::empty());
        assert(prefix.drop_last() =~= Seq::<u8>::empty());
        assert(after_prefix(prefix.drop_last()).len() == 0);
        if prefix[0] != 0xff {
            assert(after_prefix(prefix) =~= seq![(prefix[0] + 1) as u8]);
        } else {
            assert(after_prefix(prefix) =~= Seq::<u8>::empty());
        }
    } else {
        assert(prefix.last() == p.last());
        assert(prefix.drop_last().skip(1) =~= p.drop_last());
        if prefix.last() != 0xff {
            assert(after_prefix(prefix) =~= seq![prefix[0]] + after_prefix(p));
        } else {
            after_prefix_tail(prefix.drop_last());
        }
    }
}

/// The bytes that follow every string with the given prefix. They are empty, which
/// a scan takes for no upper bound, where every byte of the prefix is the largest.
pub fn next_after_prefix(prefix: &[u8]) -> (r: Vec<u8>)
    ensures
        r@ == after_prefix(prefix@),
{
    let mut n: usize = prefix.len();
    assert(prefix@.take(n as int) =~= prefix@);
    while n > 0
        invariant
            n <= prefix@.len(),
            after_prefix(prefix@.take(n as int)) == after_prefix(prefix@),
        decreases n,
    {
        let ghost t = prefix@.take(n as int);
        assert(t.drop_last() =~= prefix@.take(n - 1));
        let last: u8 = prefix[n - 1];
        if last != 0xff {
            let mut out: Vec<u8> = copy_bytes(vstd::slice::slice_subrange(prefix, 0, n - 1));
            out.push(last + 1);
            assert(out@ =~= t.drop_last().push((t.last() + 1) as u8));
            return out;
        }
        n = n - 1;
    }
    Vec::new()
}

/// A table that is part of the store.
#[derive(Debug)]
pub struct LiveTable {
    pub meta: SstableMeta,
    pub reader: Arc<SstableReader>,
}

impl LiveTable {
    pub open spec fn wf(&self) -> bool {
        self.reader.wf() && describes(self.meta@, self.reader@)
    }
}

impl Clone for LiveTable {
    fn clone(&self) -> (t: Self)
        ensures
            t.meta@ == self.meta@,
            t.reader == self.reader,
    {
        LiveTable { meta: self.meta.clone(), reader: self.reader.clone() }
    }
}

/// The layers of a store: the memtable that takes writes, the frozen memtables and
/// the tables.
#[derive(Debug)]
pub struct Layers {
    pub active: Memtable,
    pub immutables: Vec<Arc<Memtable>>,
    pub tables: Vec<LiveTable>,
}

pub open spec fn memtable_runs(s: Seq<Arc<Memtable>>) -> Seq<Seq<Version>> {
    Seq::new(s.len(), |i: int| s[i]@)
}

pub open spec fn table_runs(s: Seq<LiveTable>) -> Seq<Seq<Version>> {
    Seq::new(s.len(), |i: int| s[i].reader@)
}

/// Whether a table's key bounds take in the key.
pub(crate) fn key_in_range(key: &[u8], meta: &SstableMeta) -> (r: bool)
    ensures
        r == (lex_le(meta@.min_key, key@) && lex_le(key@, meta@.max_key)),
{
    bytes_le(meta.min_key.as_slice(), key) && bytes_le(key, meta.max_key.as_slice())
}

/// Whether a table's key bounds meet a range of user keys. An empty `hi` stands for
/// no upper bound.
pub(crate) fn range_overlaps(meta: &SstableMeta, lo: &[u8], hi: &[u8]) -> (r: bool)
    ensures
        r == ((hi@.len() == 0 || lex_lt(meta@.min_key, hi@)) && lex_le(lo@, meta@.max_key)),
{
    proof {
        lex_lt_total(lo@, meta@.max_key);
        lex_lt_irreflexive(lo@);
        if lex_lt(meta@.max_key, lo@) {
            lex_lt_asymmetric(meta@.max_key, lo@);
        }
    }
    if hi.len() > 0 && !bytes_lt(meta.min_key.as_slice(), hi) {
        return false;
    }
    !bytes_lt(meta.max_key.as_slice(), lo)
}

/// The view of a lookup's result.
pub open spec fn hit_view(r: Option<(&InternalKey, &Entry)>) -> Option<Version> {
    match r {
        Some((k, e)) => Some((k@, e@)),
        None => None,
    }
}

proof fn union_grows(runs: Seq<Seq<Version>>, l: Seq<Version>)
    ensures
        union_of(runs.push(l)) == union_of(runs).union(l.to_set()),
{
    let more = runs.push(l);
    assert forall|v: Version| #[trigger] union_of(more).contains(v) <==> union_of(runs).union(
        l.to_set(),
    ).contains(v) by {
        if holds(more, v) {
            let i = choose|i: int| 0 <= i < more.len() && (#[trigger] more[i]).contains(v);
            if i < runs.len() {
                assert(runs[i].contains(v));
            }
        }
        if holds(runs, v) {
            let i = choose|i: int| 0 <= i < runs.len() && (#[trigger] runs[i]).contains(v);
            assert(more[i].contains(v));
        }
        if l.contains(v) {
            assert(more[runs.len() as int].contains(v));
        }
    }
    assert(union_of(more) =~= union_of(runs).union(l.to_set()));
}

/// The memtables, the active one first.
pub open spec fn memory_runs(l: Layers) -> Seq<Seq<Version>> {
    seq![l.active@] + memtable_runs(l.immutables@)
}

impl Layers {
    /// All layers, the memtable that takes writes first.
    pub open spec fn runs(&self) -> Seq<Seq<Version>> {
        seq![self.active@] + memtable_runs(self.immutables@) + table_runs(self.tables@)
    }

    /// All versions.
    pub open spec fn store(&self) -> Set<Version> {
        union_of(self.runs())
    }

    /// Each layer is well-formed, and the store is coherent.
    pub open spec fn wf(&self) -> bool {
        &&& self.active.wf()
        &&& forall|i: int| 0 <= i < self.immutables@.len() ==> (#[trigger] self.immutables@[i]).wf()
        &&& forall|i: int| 0 <= i < self.tables@.len() ==> (#[trigger] self.tables@[i]).wf()
        &&& coherent(self.store())
    }

    /// The newest version of `key` in the memtables at or below the ceiling.
    pub fn memory_lookup(&self, key: &[u8], seq_upper: u64) -> (r: Option<(&InternalKey, &Entry)>)
        requires
            self.wf(),
        ensures
            newest_or_none(union_of(memory_runs(*self)), key@, seq_upper, hit_view(r)),
    {
        let ghost k = key@;
        let mut best: Option<(&InternalKey, &Entry)> = self.active.first_visible(key, seq_upper);
        let ghost mut seen: Seq<Seq<Version>> = seq![self.active@];
        proof {
            layer_lookup(self.active@, k, seq_upper, hit_view(best));
            union_grows(Seq::empty(), self.active@);
            assert(Seq::<Seq<Version>>::empty().push(self.active@) =~= seen);
            assert(union_of(Seq::<Seq<Version>>::empty()).union(self.active@.to_set())
                =~= self.active@.to_set());
        }
        let ghost imm = memtable_runs(self.immutables@);
        let mut n: usize = 0;
        assert(seq![self.active@] + imm.take(0) =~= seen);
        while n < self.immutables.len()
            invariant
                n <= self.immutables@.len(),
                self.wf(),
                k == key@,
                imm == memtable_runs(self.immutables@),
                seen == seq![self.active@] + imm.take(n as int),
                newest_or_none(union_of(seen), k, seq_upper, hit_view(best)),
            decreases self.immutables.len() - n,
        {
            let ghost before = union_of(seen);
            let hit: Option<(&InternalKey, &Entry)> = self.immutables[n].first_visible(
                key,
                seq_upper,
            );
            proof {
                let l = self.immutables@[n as int]@;
                layer_lookup(l, k, seq_upper, hit_view(hit));
                newest_of_two(before, l.to_set(), k, seq_upper, hit_view(best), hit_view(hit));
                union_grows(seen, l);
                assert(seq![self.active@] + imm.take(n + 1) =~= seen.push(l));
                seen = seen.push(l);
            }
            best = newer(best, hit);
            n = n + 1;
        }
        assert(imm.take(imm.len() as int) =~= imm);
        best
    }

    /// The newest version of `key` at or below the ceiling, value or tombstone. A
    /// table that cannot hold a newer version than the one at hand is passed over.
    pub fn lookup(&self, key: &[u8], seq_upper: u64) -> (r: Option<(&InternalKey, &Entry)>)
        requires
            self.wf(),
        ensures
            hit_view(r) == newest(self.store(), key@, seq_upper),
    {
        let ghost k = key@;
        let ghost tab = table_runs(self.tables@);
        let mut best: Option<(&InternalKey, &Entry)> = self.memory_lookup(key, seq_upper);
        let ghost mut seen: Seq<Seq<Version>> = memory_runs(*self);
        let ghost mems = seen;
        let mut j: usize = 0;
        assert(mems + tab.take(0) =~= seen);
        while j < self.tables.len()
            invariant
                j <= self.tables@.len(),
                self.wf(),
                k == key@,
                tab == table_runs(self.tables@),
                seen == mems + tab.take(j as int),
                newest_or_none(union_of(seen), k, seq_upper, hit_view(best)),
            decreases self.tables.len() - j,
        {
            let ghost before = union_of(seen);
            let t: &LiveTable = &self.tables[j];
            let ghost l = t.reader@;
            let useful: bool = match best {
                Some(p) => t.meta.max_seq > p.0.seq,
                None => true,
            };
            let hit: Option<(&InternalKey, &Entry)> = if useful && key_in_range(key, &t.meta)
                && t.reader.might_contain(key) {
                t.reader.newest_visible(key, seq_upper)
            } else {
                None
            };
            proof {
                if useful {
                    assert(found_newest(l, k, seq_upper, hit_view(hit)));
                    layer_lookup(l, k, seq_upper, hit_view(hit));
                    newest_of_two(before, l.to_set(), k, seq_upper, hit_view(best), hit_view(hit));
                } else {
                    let v = hit_view(best)->0;
                    let u = before.union(l.to_set());
                    assert forall|w: Version| #[trigger] u.contains(w) && visible(
                        w,
                        k,
                        seq_upper,
                    ) implies w.0.seq <= v.0.seq by {
                        if !before.contains(w) {
                            assert(l.contains(w));
                        }
                    }
                }
                union_grows(seen, l);
                assert(mems + tab.take(j + 1) =~= seen.push(l));
                seen = seen.push(l);
            }
            best = newer(best, hit);
            j = j + 1;
        }
        proof {
            assert(tab.take(tab.len() as int) =~= tab);
            assert(seen =~= self.runs());
            lookup_is_newest(self.store(), k, seq_upper, hit_view(best));
        }
        best
    }

    /// What a reader gets for a key.
    pub fn read(&self, key: &[u8], seq_upper: u64, now_ms: u64) -> (r: Option<Vec<u8>>)
        requires
            self.wf(),
        ensures
            match r {
                Some(x) => value_at(self.store(), key@, seq_upper, now_ms) == Some(x@),
                None => value_at(self.store(), key@, seq_upper, now_ms) is None,
            },
    {
        match self.lookup(key, seq_upper) {
            Some((_, entry)) => entry.read(now_ms),
            None => None,
        }
    }

    /// What a reader gets for a key, with the sequence number of the version.
    pub fn read_with_seq(&self, key: &[u8], seq_upper: u64, now_ms: u64) -> (r: Option<
        (Vec<u8>, u64),
    >)
        requires
            self.wf(),
        ensures
            match r {
                Some((x, q)) => value_and_seq_at(self.store(), key@, seq_upper, now_ms) == Some(
                    (x@, q),
                ),
                None => value_and_seq_at(self.store(), key@, seq_upper, now_ms) is None,
            },
    {
        match self.lookup(key, seq_upper) {
            Some((ik, entry)) => match entry.read(now_ms) {
                Some(x) => Some((x, ik.seq)),
                None => None,
            },
            None => None,
        }
    }

    /// What a reader gets in a range of user keys. An empty `hi` stands for no upper
    /// bound.
    pub fn scan<'a>(
        &'a self,
        lo: &[u8],
        hi: &[u8],
        seq_upper: u64,
        now_ms: u64,
        direction: ScanDirection,
    ) -> (r: EngineResult<RangeIter<'a>>)
        requires
            self.wf(),
            hi@.len() == 0 || lex_le(lo@, hi@),
        ensures
            r matches Ok(it) && it.wf() && listing(
                self.store(),
                lo@,
                hi@,
                seq_upper,
                now_ms,
                direction,
                it.pending(),
            ),
    {
        match self.build_sources(lo, hi, seq_upper, direction) {
            Ok(inner) => {
                proof {
                    scan_is_listing(
                        self.store(),
                        inner.runs(),
                        lo@,
                        hi@,
                        seq_upper,
                        now_ms,
                        direction,
                    );
                }
                Ok(RangeIter::over(inner, now_ms))
            },
            Err(e) => Err(e),
        }
    }

    /// The layers of a scan, merged: of each key in the range the newest version at or
    /// below the ceiling.
    fn build_sources<'a>(
        &'a self,
        lo: &[u8],
        hi: &[u8],
        seq_upper: u64,
        direction: ScanDirection,
    ) -> (r: EngineResult<MergingIterator<SeqFilter<LayerIter<'a>>>>)
        requires
            self.wf(),
            hi@.len() == 0 || lex_le(lo@, hi@),
        ensures
            r matches Ok(m) && {
                &&& m.wf()
                &&& m.reliable()
                &&& m.mode() == MergeMode::Dedup
                &&& m.direction() == direction
                &&& m.last_key() is None
                &&& runs_cover(self.store(), m.runs(), lo@, hi@, seq_upper, direction)
            },
    {
        let mut sources: Vec<SeqFilter<LayerIter<'a>>> = Vec::new();
        let ghost mut seen: Seq<Seq<Version>> = Seq::empty();
        assert(runs_cover(
            union_of(seen),
            stream_runs(sources@),
            lo@,
            hi@,
            seq_upper,
            direction,
        )) by {
            assert(stream_runs(sources@) =~= Seq::<Seq<Version>>::empty());
        }
        add_source(
            &mut sources,
            memtable_range(&self.active, lo, hi),
            seq_upper,
            direction,
            Ghost(seen),
            Ghost(self.active@),
            Ghost(lo@),
            Ghost(hi@),
        );
        let ghost imm = memtable_runs(self.immutables@);
        let ghost tab = table_runs(self.tables@);
        proof {
            assert(seen.push(self.active@) =~= seq![self.active@] + imm.take(0));
            seen = seen.push(self.active@);
        }
        let mut n: usize = 0;
        while n < self.immutables.len()
            invariant
                n <= self.immutables@.len(),
                self.wf(),
                hi@.len() == 0 || lex_le(lo@, hi@),
                imm == memtable_runs(self.immutables@),
                seen == seq![self.active@] + imm.take(n as int),
                all_reliable(sources@),
                runs_cover(
                    union_of(seen),
                    stream_runs(sources@),
                    lo@,
                    hi@,
                    seq_upper,
                    direction,
                ),
            decreases self.immutables.len() - n,
        {
            let ghost l = self.immutables@[n as int]@;
            add_source(
                &mut sources,
                memtable_range(&self.immutables[n], lo, hi),
                seq_upper,
                direction,
                Ghost(seen),
                Ghost(l),
                Ghost(lo@),
                Ghost(hi@),
            );
            proof {
                assert(seq![self.active@] + imm.take(n + 1) =~= seen.push(l));
                seen = seen.push(l);
            }
            n = n + 1;
        }
        let ghost mems = seen;
        let mut j: usize = 0;
        assert(mems + tab.take(0) =~= seen);
        while j < self.tables.len()
            invariant
                j <= self.tables@.len(),
                self.wf(),
                hi@.len() == 0 || lex_le(lo@, hi@),
                tab == table_runs(self.tables@),
                seen == mems + tab.take(j as int),
                all_reliable(sources@),
                runs_cover(
                    union_of(seen),
                    stream_runs(sources@),
                    lo@,
                    hi@,
                    seq_upper,
                    direction,
                ),
            decreases self.tables.len() - j,
        {
            let t: &LiveTable = &self.tables[j];
            let ghost l = t.reader@;
            if range_overlaps(&t.meta, lo, hi) {
                add_source(
                    &mut sources,
                    table_range(&t.reader, lo, hi),
                    seq_upper,
                    direction,
                    Ghost(seen),
                    Ghost(l),
                    Ghost(lo@),
                    Ghost(hi@),
                );
            } else {
                proof {
                    table_out_of_range(self.tables@[j as int], lo@, hi@);
                    union_grows(seen, l);
                }
            }
            proof {
                assert(mems + tab.take(j + 1) =~= seen.push(l));
                seen = seen.push(l);
            }
            j = j + 1;
        }
        proof {
            assert(tab.take(tab.len() as int) =~= tab);
            assert(seen =~= self.runs());
            assert(Seq::new(sources@.len(), |i: int| sources@[i].pending()) =~= stream_runs(
                sources@,
            ));
        }
        MergingIterator::new_directed(sources, MergeMode::Dedup, direction)
    }
}

/// A table whose bounds do not meet a range holds nothing in it.
proof fn table_out_of_range(t: LiveTable, lo: Seq<u8>, hi: Seq<u8>)
    requires
        t.wf(),
        !((hi.len() == 0 || lex_lt(t.meta@.min_key, hi)) && lex_le(lo, t.meta@.max_key)),
    ensures
        forall|v: Version| #[trigger] t.reader@.contains(v) ==> !in_range(v, lo, hi),
{
    assert forall|v: Version| #[trigger] t.reader@.contains(v) implies !in_range(v, lo, hi) by {
        let k = v.0.user_key;
        if in_range(v, lo, hi) {
            if hi.len() > 0 && !lex_lt(t.meta@.min_key, hi) {
                lex_le_lt(t.meta@.min_key, k, hi);
            } else {
                if lo == k {
                } else if k == t.meta@.max_key {
                } else {
                    lex_lt_transitive(lo, k, t.meta@.max_key);
                }
            }
        }
    }
}

/// What the streams still hold.
spec fn stream_runs<'a>(s: Seq<SeqFilter<LayerIter<'a>>>) -> Seq<Seq<Version>> {
    Seq::new(s.len(), |i: int| s[i].pending())
}

spec fn all_reliable<'a>(s: Seq<SeqFilter<LayerIter<'a>>>) -> bool {
    forall|i: int| 0 <= i < s.len() ==> (#[trigger] s[i]).wf() && s[i].reliable()
}

/// The newer of two results, the first where they tie.
fn newer<'a>(a: Option<(&'a InternalKey, &'a Entry)>, b: Option<(&'a InternalKey, &'a Entry)>) -> (r:
    Option<(&'a InternalKey, &'a Entry)>)
    ensures
        hit_view(r) == better(hit_view(a), hit_view(b)),
{
    match (a, b) {
        (Some(x), Some(y)) => if y.0.seq > x.0.seq {
            b
        } else {
            a
        },
        (None, _) => b,
        (_, None) => a,
    }
}

/// The versions of a memtable in a range of user keys.
fn memtable_range<'a>(mt: &'a Memtable, lo: &[u8], hi: &[u8]) -> (r: &'a [(InternalKey, Entry)])
    requires
        mt.wf(),
        hi@.len() == 0 || lex_le(lo@, hi@),
    ensures
        sorted(versions(r@)),
        forall|v: Version|
            #[trigger] versions(r@).contains(v) <==> mt@.contains(v) && in_range(v, lo@, hi@),
{
    if hi.len() == 0 {
        mt.range_from(lo)
    } else {
        mt.range(lo, hi)
    }
}

/// The versions of a table in a range of user keys.
fn table_range<'a>(t: &'a SstableReader, lo: &[u8], hi: &[u8]) -> (r: &'a [(InternalKey, Entry)])
    requires
        t.wf(),
        hi@.len() == 0 || lex_le(lo@, hi@),
    ensures
        sorted(versions(r@)),
        forall|v: Version|
            #[trigger] versions(r@).contains(v) <==> t@.contains(v) && in_range(v, lo@, hi@),
{
    if hi.len() == 0 {
        t.range_from(lo)
    } else {
        t.range_iter(lo, hi)
    }
}

/// Adds the stream of a layer to those of a scan.
fn add_source<'a>(
    sources: &mut Vec<SeqFilter<LayerIter<'a>>>,
    items: &'a [(InternalKey, Entry)],
    seq_upper: u64,
    direction: ScanDirection,
    Ghost(seen): Ghost<Seq<Seq<Version>>>,
    Ghost(layer): Ghost<Seq<Version>>,
    Ghost(lo): Ghost<Seq<u8>>,
    Ghost(hi): Ghost<Seq<u8>>,
)
    requires
        sorted(versions(items@)),
        forall|v: Version|
            #[trigger] versions(items@).contains(v) <==> layer.contains(v) && in_range(v, lo, hi),
        all_reliable(old(sources)@),
        runs_cover(union_of(seen), stream_runs(old(sources)@), lo, hi, seq_upper, direction),
    ensures
        all_reliable(final(sources)@),
        runs_cover(
            union_of(seen.push(layer)),
            stream_runs(final(sources)@),
            lo,
            hi,
            seq_upper,
            direction,
        ),
{
    let ghost before = stream_runs(sources@);
    let it: LayerIter<'a> = LayerIter::of_run(items, direction);
    let ghost p = it.pending();
    let f: SeqFilter<LayerIter<'a>> = SeqFilter::new(it, seq_upper);
    let ghost q = f.pending();
    sources.push(f);
    proof {
        at_or_below_ordered(direction, p, seq_upper);
        let after = stream_runs(sources@);
        assert(after =~= before.push(q));
        union_grows(seen, layer);
        assert forall|v: Version| #[trigger] holds(after, v) <==> union_of(
            seen.push(layer),
        ).contains(v) && in_range(v, lo, hi) && v.0.seq <= seq_upper by {
            at_or_below_contains(p, seq_upper, v);
            assert(p.contains(v) <==> versions(items@).contains(v));
            assert(holds(before, v) <==> union_of(seen).contains(v) && in_range(v, lo, hi)
                && v.0.seq <= seq_upper);
            if holds(after, v) {
                let i = choose|i: int| 0 <= i < after.len() && (#[trigger] after[i]).contains(v);
                if i < before.len() {
                    assert(before[i].contains(v));
                }
            }
            if holds(before, v) {
                let i = choose|i: int| 0 <= i < before.len() && (#[trigger] before[i]).contains(v);
                assert(after[i].contains(v));
            }
            if q.contains(v) {
                assert(after[before.len() as int].contains(v));
            }
        }
    }
}

impl Clone for Layers {
    fn clone(&self) -> (l: Self)
        ensures
            l.runs() == self.runs(),
            self.wf() ==> l.wf(),
    {
        let mut immutables: Vec<Arc<Memtable>> = Vec::new();
        let mut i: usize = 0;
        while i < self.immutables.len()
            invariant
                i <= self.immutables@.len(),
                immutables@.len() == i,
                forall|j: int| 0 <= j < i ==> #[trigger] immutables@[j] == self.immutables@[j],
            decreases self.immutables.len() - i,
        {
            immutables.push(self.immutables[i].clone());
            i = i + 1;
        }
        let mut tables: Vec<LiveTable> = Vec::new();
        let mut k: usize = 0;
        while k < self.tables.len()
            invariant
                k <= self.tables@.len(),
                tables@.len() == k,
                forall|j: int|
                    0 <= j < k ==> (#[trigger] tables@[j]).meta@ == self.tables@[j].meta@
                        && tables@[j].reader == self.tables@[j].reader,
            decreases self.tables.len() - k,
        {
            tables.push(self.tables[k].clone());
            k = k + 1;
        }
        let l = Layers { active: self.active.clone(), immutables, tables };
        proof {
            assert(memtable_runs(l.immutables@) =~= memtable_runs(self.immutables@));
            assert(table_runs(l.tables@) =~= table_runs(self.tables@));
            assert(l.runs() =~= self.runs());
            if self.wf() {
                assert forall|j: int| 0 <= j < l.tables@.len() implies (#[trigger] l.tables@[j]).wf() by {
                    assert(self.tables@[j].wf());
                }
                assert forall|j: int| 0 <= j < l.immutables@.len() implies (
                #[trigger] l.immutables@[j]).wf() by {
                    assert(self.immutables@[j].wf());
                }
            }
        }
        l
    }
}

/// A read-only view of an engine at a ceiling. It borrows the engine, so that nothing
/// changes while it lives.
pub struct SnapshotView<'a> {
    pub engine: &'a crate::engine::Engine,
    pub seq_upper: u64,
}

impl<'a> SnapshotView<'a> {
    /// What the view holds for a key.
    pub fn get(&self, key: &[u8], now_ms: u64) -> (r: EngineResult<Option<Vec<u8>>>)
        requires
            self.engine.wf(),
        ensures
            crate::engine::read::snapshot_answer(
                self.engine.store(),
                key@,
                self.seq_upper,
                now_ms,
                r,
            ),
    {
        self.engine.snapshot_get(self.seq_upper, key, now_ms)
    }

    /// The pairs of the user keys from `lo` up to but not including `hi`, keys
    /// ascending. An empty `hi` stands for no upper bound.
    pub fn scan(&self, lo: &[u8], hi: &[u8], now_ms: u64) -> (r: EngineResult<RangeIter<'a>>)
        requires
            self.engine.wf(),
            hi@.len() == 0 || lex_le(lo@, hi@),
        ensures
            r matches Ok(it) && it.wf() && listing(
                self.engine.store(),
                lo@,
                hi@,
                self.seq_upper,
                now_ms,
                ScanDirection::Forward,
                it.pending(),
            ),
            keys_valid(self.engine.store()) ==> lists_found(
                self.engine.store(),
                lo@,
                hi@,
                self.seq_upper,
                now_ms,
                r->Ok_0.pending(),
            ),
    {
        let r: EngineResult<RangeIter<'a>> = self.engine.layers.scan(
            lo,
            hi,
            self.seq_upper,
            now_ms,
            ScanDirection::Forward,
        );
        proof {
            if keys_valid(self.engine.store()) {
                scan_lists_what_get_finds(
                    self.engine.store(),
                    lo@,
                    hi@,
                    self.seq_upper,
                    now_ms,
                    r->Ok_0.pending(),
                );
            }
        }
        r
    }

    /// The pairs of the user keys with a prefix, keys ascending.
    pub fn prefix_scan(&self, prefix: &[u8], now_ms: u64) -> (r: EngineResult<RangeIter<'a>>)
        requires
            self.engine.wf(),
        ensures
            r matches Ok(it) && it.wf() && listing(
                self.engine.store(),
                prefix@,
                after_prefix(prefix@),
                self.seq_upper,
                now_ms,
                ScanDirection::Forward,
                it.pending(),
            ),
            keys_valid(self.engine.store()) ==> lists_found_under(
                self.engine.store(),
                prefix@,
                self.seq_upper,
                now_ms,
                r->Ok_0.pending(),
            ),
    {
        let hi: Vec<u8> = next_after_prefix(prefix);
        proof {
            prefix_range_is_tight(prefix@, prefix@);
            assert(prefix@.take(prefix@.len() as int) =~= prefix@);
        }
        let r: EngineResult<RangeIter<'a>> = self.scan(prefix, hi.as_slice(), now_ms);
        proof {
            if keys_valid(self.engine.store()) {
                prefix_scan_lists_what_get_finds(
                    self.engine.store(),
                    prefix@,
                    self.seq_upper,
                    now_ms,
                    r->Ok_0.pending(),
                );
            }
        }
        r
    }

    /// The ceiling that reads observe.
    pub fn seq_upper(&self) -> (n: u64)
        ensures
            n == self.seq_upper,
    {
        self.seq_upper
    }
}

} // verus!
