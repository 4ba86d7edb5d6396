//! Maintenance: flushes and the log segments that they make redundant.

use std::sync::Arc;
use vstd::prelude::*;
use crate::compaction_worker::NewTable;
use crate::engine::read::ids_of;
use crate::engine::{
    all_above, in_frozen, in_sequence, in_tables, memtables_of, numbered, older, store_cases,
    tables_below, Engine,
};
use crate::entry::Entry;
use crate::flush_worker::{execute_flush, FlushExecuteResult};
use crate::keys::InternalKey;
use crate::manifest::{larger, MetaView};
use crate::memtable::Memtable;
use crate::records::{sorted, versions, Version};
use crate::snapshot::{Layers, LiveTable};
use crate::sorted_map::{ascending, pairs_map};
use crate::sstable::{copy_pairs, meta_of, meta_of_describes, top_seq};

verus! {

/// A level-0 table made of the versions of a memtable.
pub open spec fn flushed_from(t: NewTable, run: Seq<Version>) -> bool {
    &&& t.reader.wf()
    &&& t.reader@ == run
    &&& run.len() > 0
    &&& t.meta@ == meta_of(run, t.meta.id, 0)
}

/// A catalog with an entry in its place by number.
pub open spec fn catalog_with(s: Seq<MetaView>, m: MetaView) -> Seq<MetaView> {
    s.insert(place_of(s, m.id, s.len() as int), m)
}

/// The number of tables among the first `n` whose numbers are below `id`.
pub open spec fn place_of(s: Seq<MetaView>, id: u64, n: int) -> int
    decreases n,
{
    if n <= 0 {
        0
    } else if s[n - 1].id < id {
        n
    } else {
        place_of(s, id, n - 1)
    }
}

pub(crate) proof fn place_facts(s: Seq<MetaView>, id: u64, n: int)
    requires
        0 <= n <= s.len(),
    ensures
        0 <= place_of(s, id, n) <= n,
        forall|i: int| place_of(s, id, n) <= i < n ==> (#[trigger] s[i]).id >= id,
        place_of(s, id, n) > 0 ==> s[place_of(s, id, n) - 1].id < id,
    decreases n,
{
    if n > 0 && s[n - 1].id >= id {
        place_facts(s, id, n - 1);
    }
}

/// The largest sequence number of a run belongs to one of its versions.
pub proof fn top_seq_attained(s: Seq<Version>)
    requires
        s.len() > 0,
    ensures
        exists|i: int| 0 <= i < s.len() && (#[trigger] s[i]).0.seq == top_seq(s),
    decreases s.len(),
{
    let t = s.drop_last();
    if top_seq(t) < s.last().0.seq || t.len() == 0 {
        assert(s[s.len() - 1].0.seq == top_seq(s));
    } else {
        top_seq_attained(t);
        let i = choose|i: int| 0 <= i < t.len() && (#[trigger] t[i]).0.seq == top_seq(t);
        assert(s[i].0.seq == top_seq(s));
    }
}

/// A version of the tables with one more table in place `p`.
pub proof fn tables_insert(a: Seq<LiveTable>, p: int, t: LiveTable, v: Version)
    requires
        0 <= p <= a.len(),
    ensures
        in_tables(a.insert(p, t), v) <==> in_tables(a, v) || t.reader@.contains(v),
{
    let b = a.insert(p, t);
    if in_tables(b, v) {
        let i = choose|i: int| 0 <= i < b.len() && (#[trigger] b[i]).reader@.contains(v);
        if i < p {
            assert(a[i].reader@.contains(v));
        } else if i > p {
            assert(a[i - 1].reader@.contains(v));
        }
    }
    if in_tables(a, v) {
        let i = choose|i: int| 0 <= i < a.len() && (#[trigger] a[i]).reader@.contains(v);
        if i < p {
            assert(b[i].reader@.contains(v));
        } else {
            assert(b[i + 1].reader@.contains(v));
        }
    }
    if t.reader@.contains(v) {
        assert(b[p].reader@.contains(v));
    }
}

/// The oldest memtable becomes a table: nothing else changes.
proof fn flush_moves_a_layer(old_l: Layers, new_l: Layers, p: int, t: LiveTable)
    requires
        old_l.wf(),
        in_sequence(old_l),
        old_l.immutables@.len() > 0,
        0 <= p <= old_l.tables@.len(),
        t.wf(),
        t.reader@ == old_l.immutables@[0]@,
        t.reader@.len() > 0,
        t.meta.max_seq == top_seq(t.reader@),
        new_l.active == old_l.active,
        new_l.immutables@ == old_l.immutables@.skip(1),
        new_l.tables@ == old_l.tables@.insert(p, t),
    ensures
        new_l.store() == old_l.store(),
        new_l.wf(),
        in_sequence(new_l),
{
    let a = old_l.tables@;
    let b = new_l.tables@;
    assert forall|v: Version| #[trigger] new_l.store().contains(v) <==> old_l.store().contains(
        v,
    ) by {
        store_cases(old_l, v);
        store_cases(new_l, v);
        tables_insert(a, p, t, v);
        if in_frozen(old_l, v) {
            let i = choose|i: int|
                0 <= i < old_l.immutables@.len() && (#[trigger] old_l.immutables@[i])@.contains(v);
            if i > 0 {
                assert(new_l.immutables@[i - 1]@.contains(v));
            }
        }
        if in_frozen(new_l, v) {
            let i = choose|i: int|
                0 <= i < new_l.immutables@.len() && (#[trigger] new_l.immutables@[i])@.contains(v);
            assert(old_l.immutables@[i + 1]@.contains(v));
        }
        if t.reader@.contains(v) {
            assert(old_l.immutables@[0]@.contains(v));
        }
    }
    assert(new_l.store() =~= old_l.store());
    assert forall|i: int| 0 <= i < b.len() implies (#[trigger] b[i]).wf() by {
        if i < p {
            assert(a[i].wf());
        } else if i > p {
            assert(a[i - 1].wf());
        }
    }
    assert forall|i: int| 0 <= i < new_l.immutables@.len() implies (
    #[trigger] new_l.immutables@[i]).wf() by {
        assert(old_l.immutables@[i + 1].wf());
    }
    let m = memtables_of(old_l);
    let n = memtables_of(new_l);
    assert(n =~= m.skip(1));
    assert forall|i: int, j: int| 0 <= i < j < n.len() implies older(#[trigger] n[i], #[trigger] n[j]) by {
        assert(older(m[i + 1], m[j + 1]));
    }
    assert forall|i: int, j: int| 0 <= i < b.len() && 0 <= j < n.len() implies all_above(
        #[trigger] n[j],
        (#[trigger] b[i]).meta.max_seq,
    ) by {
        assert(n[j] == m[j + 1]);
        if i < p {
            assert(all_above(m[j + 1], a[i].meta.max_seq));
        } else if i > p {
            assert(all_above(m[j + 1], a[i - 1].meta.max_seq));
        } else {
            top_seq_attained(t.reader@);
            let k = choose|k: int|
                0 <= k < t.reader@.len() && (#[trigger] t.reader@[k]).0.seq == top_seq(t.reader@);
            assert(older(m[0], m[j + 1]));
            assert(m[0] == t.reader@);
            assert(m[0].contains(t.reader@[k]));
        }
    }
}

impl Engine {
    /// The table number is not in use.
    pub open spec fn is_free(&self, id: u64) -> bool {
        id < u64::MAX && !ids_of(self.catalog()).contains(id)
    }

    /// Hands out the versions of the oldest frozen memtable for a flush in the
    /// background, where the worker is idle. The memtable stays readable until the
    /// table is published. Empty memtables are dropped.
    pub fn try_submit_flush(&mut self) -> (r: Option<Vec<(InternalKey, Entry)>>)
        requires
            old(self).wf(),
        ensures
            final(self).wf(),
            final(self).store() == old(self).store(),
            *final(self) == (Engine {
                layers: final(self).layers,
                flush_scheduler: final(self).flush_scheduler,
                ..*old(self)
            }),
            final(self).layers.tables == old(self).layers.tables,
            final(self).layers.active == old(self).layers.active,
            match r {
                Some(pairs) => {
                    &&& !old(self).flush_scheduler.worker_busy
                    &&& final(self).flush_scheduler == (crate::flush_worker::FlushScheduler {
                        worker_failed: false,
                        worker_busy: true,
                        ..old(self).flush_scheduler
                    })
                    &&& pairs@.len() > 0
                    &&& final(self).layers.immutables@.len() > 0
                    &&& versions(pairs@) == final(self).layers.immutables@[0]@
                    &&& sorted(versions(pairs@))
                    &&& drops_empty_front(
                        old(self).layers.immutables@,
                        final(self).layers.immutables@,
                    )
                },
                None => {
                    &&& final(self).flush_scheduler == old(self).flush_scheduler
                    &&& if old(self).flush_scheduler.worker_busy {
                        final(self).layers == old(self).layers
                    } else {
                        final(self).layers.immutables@.len() == 0 && drops_empty_front(
                            old(self).layers.immutables@,
                            final(self).layers.immutables@,
                        )
                    }
                },
            },
    {
        if self.flush_scheduler.is_worker_busy() {
            return None;
        }
        self.drop_empty_memtables();
        if self.layers.immutables.len() == 0 {
            return None;
        }
        let pairs: Vec<(InternalKey, Entry)> = copy_pairs(self.layers.immutables[0].iter());
        proof {
            self.layers.immutables@[0].lemma_sorted();
        }
        let taken: bool = self.flush_scheduler.try_submit(pairs.len());
        assert(taken);
        Some(pairs)
    }

    /// Drops the frozen memtables at the front that hold nothing.
    fn drop_empty_memtables(&mut self)
        requires
            old(self).wf(),
        ensures
            final(self).wf(),
            final(self).store() == old(self).store(),
            *final(self) == (Engine { layers: final(self).layers, ..*old(self) }),
            final(self).layers.tables == old(self).layers.tables,
            final(self).layers.active == old(self).layers.active,
            drops_empty_front(old(self).layers.immutables@, final(self).layers.immutables@),
            final(self).layers.immutables@.len() > 0 ==> final(self).layers.immutables@[0]@.len()
                > 0,
    {
        let ghost start = self.layers.immutables@;
        assert(start.skip(0) =~= start);
        while self.layers.immutables.len() > 0 && self.layers.immutables[0].is_empty()
            invariant
                self.wf(),
                start == old(self).layers.immutables@,
                self.store() == old(self).store(),
                *self == (Engine { layers: self.layers, ..*old(self) }),
                self.layers.tables == old(self).layers.tables,
                self.layers.active == old(self).layers.active,
                drops_empty_front(start, self.layers.immutables@),
            decreases self.layers.immutables@.len(),
        {
            let ghost before = self.layers;
            let ghost k = start.len() - before.immutables@.len();
            let gone: Arc<Memtable> = self.layers.immutables.remove(0);
            proof {
                assert(self.layers.immutables@ =~= before.immutables@.skip(1));
                assert(start.skip(k)[0] == start[k]);
                assert(self.layers.immutables@ =~= start.skip(k + 1));
                empty_front_goes(before, self.layers);
            }
        }
    }

    /// Makes the flush of the oldest frozen memtable part of the store: its table takes
    /// the memtable's place.
    pub(crate) fn publish_flush(&mut self, t: NewTable)
        requires
            old(self).wf(),
            old(self).layers.immutables@.len() > 0,
            flushed_from(t, old(self).layers.immutables@[0]@),
            old(self).is_free(t.meta.id),
        ensures
            final(self).wf(),
            final(self).store() == old(self).store(),
            final(self).layers.active == old(self).layers.active,
            final(self).layers.immutables@ == old(self).layers.immutables@.skip(1),
            final(self).catalog() == catalog_with(old(self).catalog(), t.meta@),
            final(self).next_sstable_id == larger(
                old(self).next_sstable_id,
                (t.meta.id + 1) as u64,
            ),
            *final(self) == (Engine {
                layers: final(self).layers,
                next_sstable_id: final(self).next_sstable_id,
                ..*old(self)
            }),
    {
        let ghost before = *self;
        let ghost run = self.layers.immutables@[0]@;
        let id: u64 = t.meta.id;
        proof {
            self.layers.immutables@[0].lemma_sorted();
            meta_of_describes(run, id, 0);
        }
        let live = LiveTable { meta: t.meta, reader: Arc::new(t.reader) };
        let gone: Arc<Memtable> = self.layers.immutables.remove(0);
        let p: usize = self.insert_table(live);
        proof {
            assert(self.layers.immutables@ =~= before.layers.immutables@.skip(1));
            flush_moves_a_layer(before.layers, self.layers, p as int, live);
            assert(before.layers.immutables@[0]@.len() > 0);
            top_seq_attained(run);
            let k = choose|k: int| 0 <= k < run.len() && (#[trigger] run[k]).0.seq == top_seq(run);
            store_cases(before.layers, run[k]);
            assert(before.layers.immutables@[0]@.contains(run[k]));
            assert(before.store().contains(run[k]));
            assert(tables_below(self.layers.tables@, self.seq@)) by {
                assert forall|i: int| 0 <= i < self.layers.tables@.len() implies (
                #[trigger] self.layers.tables@[i]).meta.max_seq < self.seq@ by {
                    if i < p {
                        assert(before.layers.tables@[i].meta.max_seq < before.seq@);
                    } else if i > p {
                        assert(before.layers.tables@[i - 1].meta.max_seq < before.seq@);
                    }
                }
            }
        }
    }

    /// Puts a table in its place by number, and returns the place.
    pub(crate) fn insert_table(&mut self, live: LiveTable) -> (p: usize)
        requires
            numbered(old(self).layers.tables@, old(self).next_sstable_id),
            old(self).is_free(live.meta.id),
        ensures
            p <= old(self).layers.tables@.len(),
            final(self).layers.tables@ == old(self).layers.tables@.insert(p as int, live),
            final(self).layers.active == old(self).layers.active,
            final(self).layers.immutables == old(self).layers.immutables,
            final(self).catalog() == catalog_with(old(self).catalog(), live.meta@),
            final(self).next_sstable_id == larger(
                old(self).next_sstable_id,
                (live.meta.id + 1) as u64,
            ),
            numbered(final(self).layers.tables@, final(self).next_sstable_id),
            *final(self) == (Engine {
                layers: final(self).layers,
                next_sstable_id: final(self).next_sstable_id,
                ..*old(self)
            }),
    {
        let ghost tables = self.layers.tables@;
        let ghost s = self.catalog();
        let ghost m = live.meta@;
        let id: u64 = live.meta.id;
        let mut p: usize = self.layers.tables.len();
        while p > 0 && self.layers.tables[p - 1].meta.id >= id
            invariant
                p <= self.layers.tables@.len(),
                *self == *old(self),
                s == self.catalog(),
                place_of(s, id, p as int) == place_of(s, id, s.len() as int),
            decreases p,
        {
            assert(s[p - 1] == self.layers.tables@[p - 1].meta@);
            p = p - 1;
        }
        proof {
            if p > 0 {
                assert(s[p - 1] == self.layers.tables@[p - 1].meta@);
            }
            assert(p == place_of(s, id, s.len() as int));
            place_facts(s, id, s.len() as int);
        }
        self.layers.tables.insert(p, live);
        if self.next_sstable_id < id + 1 {
            self.next_sstable_id = id + 1;
        }
        proof {
            assert(self.catalog() =~= s.insert(p as int, m));
            let b = self.layers.tables@;
            assert forall|i: int| 0 <= i < tables.len() implies (#[trigger] tables[i]).meta.id
                != id by {
                assert(ids_of(s)[i] == tables[i].meta.id);
            }
            assert forall|i: int, j: int| 0 <= i < j < b.len() implies (#[trigger] b[i]).meta.id < (
            #[trigger] b[j]).meta.id by {
                if i == p {
                    assert(s[j - 1].id >= id);
                    assert(tables[j - 1].meta.id != id);
                } else if j == p {
                    assert(s[p - 1].id < id);
                    if i < p - 1 {
                        assert(tables[i].meta.id < tables[p - 1].meta.id);
                    }
                } else {
                    let i2 = if i < p {
                        i
                    } else {
                        i - 1
                    };
                    let j2 = if j < p {
                        j
                    } else {
                        j - 1
                    };
                    assert(tables[i2].meta.id < tables[j2].meta.id);
                }
            }
        }
        p
    }

    /// Flushes the oldest frozen memtable into a table of the next number, where there
    /// is one. An empty one goes without a table.
    pub fn flush_one(&mut self) -> (r: bool)
        requires
            old(self).wf(),
            old(self).next_sstable_id < u64::MAX,
            forall|i: int|
                0 <= i < old(self).layers.immutables@.len() ==> (
                #[trigger] old(self).layers.immutables@[i])@.len() * 10 <= usize::MAX,
        ensures
            final(self).wf(),
            final(self).store() == old(self).store(),
            final(self).layers.active == old(self).layers.active,
            r == (old(self).layers.immutables@.len() > 0),
            r ==> final(self).layers.immutables@ == old(self).layers.immutables@.skip(1),
            r ==> final(self).next_sstable_id == old(self).next_sstable_id + (if old(
                self,
            ).layers.immutables@[0]@.len() > 0 {
                1int
            } else {
                0
            }),
            r && old(self).layers.immutables@[0]@.len() == 0 ==> *final(self) == (Engine {
                layers: final(self).layers,
                ..*old(self)
            }),
            r && old(self).layers.immutables@[0]@.len() > 0 ==> final(self).catalog()
                == catalog_with(
                old(self).catalog(),
                meta_of(old(self).layers.immutables@[0]@, old(self).next_sstable_id, 0),
            ),
            r && old(self).layers.immutables@[0]@.len() == 0 ==> final(self).layers.tables == old(
                self,
            ).layers.tables,
            !r ==> *final(self) == *old(self),
            *final(self) == (Engine {
                layers: final(self).layers,
                next_sstable_id: final(self).next_sstable_id,
                in_flight_wal_bytes: final(self).in_flight_wal_bytes,
                buffered_seq: final(self).buffered_seq,
                synced_seq: final(self).synced_seq,
                ..*old(self)
            }),
            r && old(self).layers.immutables@[0]@.len() > 0 ==> final(self).noted_flush(
                old(self),
                top_seq(old(self).layers.immutables@[0]@),
            ),
    {
        if self.layers.immutables.len() == 0 {
            return false;
        }
        let ghost before = *self;
        if self.layers.immutables[0].is_empty() {
            let gone: Arc<Memtable> = self.layers.immutables.remove(0);
            proof {
                assert(self.layers.immutables@ =~= before.layers.immutables@.skip(1));
                empty_front_goes(before.layers, self.layers);
            }
            return true;
        }
        let pairs: Vec<(InternalKey, Entry)> = copy_pairs(self.layers.immutables[0].iter());
        proof {
            self.layers.immutables@[0].lemma_sorted();
            assert(!ids_of(self.catalog()).contains(self.next_sstable_id)) by {
                if ids_of(self.catalog()).contains(self.next_sstable_id) {
                    let i = choose|i: int|
                        0 <= i < ids_of(self.catalog()).len() && ids_of(self.catalog())[i]
                            == self.next_sstable_id;
                    assert(self.layers.tables@[i].meta.id < self.next_sstable_id);
                }
            }
        }
        let id: u64 = self.next_sstable_id;
        let made: FlushExecuteResult = execute_flush(pairs, id);
        let max_seq: u64 = made.max_seq;
        self.publish_flush(NewTable { meta: made.meta, reader: made.reader });
        self.note_flushed(max_seq);
        true
    }

    /// The log's state after a flush up to a sequence number.
    pub open spec fn noted_flush(&self, before: &Engine, max_seq: u64) -> bool {
        &&& self.in_flight_wal_bytes == 0
        &&& self.buffered_seq == larger(before.buffered_seq, max_seq)
        &&& self.synced_seq == larger(before.synced_seq, max_seq)
    }

    /// Notes that everything up to a sequence number is durable in tables.
    pub(crate) fn note_flushed(&mut self, max_seq: u64)
        requires
            old(self).wf(),
        ensures
            final(self).wf(),
            final(self).noted_flush(old(self), max_seq),
            *final(self) == (Engine {
                in_flight_wal_bytes: final(self).in_flight_wal_bytes,
                buffered_seq: final(self).buffered_seq,
                synced_seq: final(self).synced_seq,
                ..*old(self)
            }),
    {
        self.in_flight_wal_bytes = 0;
        if max_seq > self.buffered_seq {
            self.buffered_seq = max_seq;
        }
        if max_seq > self.synced_seq {
            self.synced_seq = max_seq;
        }
    }

    /// `c` is the largest number of a sealed segment before the active one all of whose
    /// records lie at or below `max_seq`, zero for none.
    pub open spec fn covers_up_to(&self, max_seq: u64, c: u64) -> bool {
        &&& forall|id: u64|
            self.sealed_segment_max_seq@.dom().contains(id) && (
            #[trigger] self.sealed_segment_max_seq@[id]) <= max_seq && id < self.active_wal_id
                ==> id <= c
        &&& c > 0 ==> self.sealed_segment_max_seq@.dom().contains(c)
            && self.sealed_segment_max_seq@[c] <= max_seq && c < self.active_wal_id
    }

    /// The largest number of a sealed segment all of whose records lie at or below
    /// `max_seq`, zero for none.
    pub open spec fn covered_up_to(&self, max_seq: u64) -> u64 {
        choose|c: u64| #[trigger] self.covers_up_to(max_seq, c)
    }

    /// The largest number of a sealed segment all of whose records a flush up to
    /// `max_seq` has made durable, zero for none.
    pub fn wal_segments_covered(&self, max_seq: u64) -> (c: u64)
        requires
            self.wf(),
        ensures
            self.covers_up_to(max_seq, c),
            c == self.covered_up_to(max_seq),
    {
        let pairs: &[(u64, u64)] = self.sealed_segment_max_seq.pairs();
        proof {
            crate::sorted_map::pairs_map_facts(pairs@);
        }
        let mut c: u64 = 0;
        let mut i: usize = 0;
        while i < pairs.len()
            invariant
                i <= pairs@.len(),
                ascending(pairs@),
                pairs_map(pairs@) == self.sealed_segment_max_seq@,
                self.wf(),
                forall|k: int| 0 <= k < pairs@.len() ==> self.sealed_segment_max_seq@.dom().contains((#[trigger] pairs@[k]).0) && self.sealed_segment_max_seq@[pairs@[k].0] == pairs@[k].1,
                forall|k: int|
                    0 <= k < i && (#[trigger] pairs@[k]).1 <= max_seq && pairs@[k].0
                        < self.active_wal_id ==> pairs@[k].0 <= c,
                c > 0 ==> self.sealed_segment_max_seq@.dom().contains(c)
                    && self.sealed_segment_max_seq@[c] <= max_seq && c < self.active_wal_id,
            decreases pairs.len() - i,
        {
            let id: u64 = pairs[i].0;
            let seg_max: u64 = pairs[i].1;
            assert(self.sealed_segment_max_seq@.dom().contains(id));
            if id < self.active_wal_id && seg_max <= max_seq && id > c {
                c = id;
            }
            i = i + 1;
        }
        proof {
            assert forall|id: u64|
                self.sealed_segment_max_seq@.dom().contains(id) && (
                #[trigger] self.sealed_segment_max_seq@[id]) <= max_seq && id
                    < self.active_wal_id implies id <= c by {
                crate::sorted_map::pairs_map_facts(pairs@);
                let k = choose|k: int| 0 <= k < pairs@.len() && (#[trigger] pairs@[k]).0 == id;
                assert(pairs@[k].1 <= max_seq);
            }
            assert(self.covers_up_to(max_seq, c));
            let other = self.covered_up_to(max_seq);
            assert(self.covers_up_to(max_seq, other));
            let m = self.sealed_segment_max_seq@;
            assert(c > 0 ==> m[c] <= max_seq);
            assert(other > 0 ==> m[other] <= max_seq);
        }
        c
    }

    /// Notes that the sealed segments up to a number are unlinked, and picks those of the
    /// given segments that are to be unlinked.
    pub fn unlink_wal_segments_up_to(&mut self, on_disk: &Vec<u64>, up_to: u64) -> (gone: Vec<u64>)
        requires
            old(self).wf(),
        ensures
            final(self).wf(),
            gone@ == segments_up_to(on_disk@, up_to, old(self).active_wal_id, on_disk@.len() as int),
            final(self).sealed_segment_max_seq@ == old(
                self,
            ).sealed_segment_max_seq@.remove_keys(gone@.to_set()),
            *final(self) == (Engine {
                sealed_segment_max_seq: final(self).sealed_segment_max_seq,
                ..*old(self)
            }),
    {
        let mut gone: Vec<u64> = Vec::new();
        let mut i: usize = 0;
        proof {
            assert(self.sealed_segment_max_seq@ =~= old(
                self,
            ).sealed_segment_max_seq@.remove_keys(gone@.to_set()));
        }
        while i < on_disk.len()
            invariant
                i <= on_disk@.len(),
                self.wf(),
                gone@ == segments_up_to(on_disk@, up_to, self.active_wal_id, i as int),
                self.sealed_segment_max_seq@ == old(
                    self,
                ).sealed_segment_max_seq@.remove_keys(gone@.to_set()),
                *self == (Engine {
                    sealed_segment_max_seq: self.sealed_segment_max_seq,
                    ..*old(self)
                }),
            decreases on_disk.len() - i,
        {
            let id: u64 = on_disk[i];
            if id <= up_to && id < self.active_wal_id {
                let ghost before = gone@;
                self.sealed_segment_max_seq.remove(id);
                gone.push(id);
                proof {
                    assert(gone@.to_set() =~= before.to_set().insert(id)) by {
                        assert forall|x: u64| #[trigger] gone@.to_set().contains(x)
                            <==> before.to_set().insert(id).contains(x) by {
                            if gone@.contains(x) {
                                let k = choose|k: int| 0 <= k < gone@.len() && gone@[k] == x;
                                if k < before.len() {
                                    assert(before[k] == x);
                                }
                            }
                            if before.contains(x) {
                                let k = choose|k: int| 0 <= k < before.len() && before[k] == x;
                                assert(gone@[k] == x);
                            }
                            if x == id {
                                assert(gone@[before.len() as int] == x);
                            }
                        }
                    }
                    assert(self.sealed_segment_max_seq@ =~= old(
                        self,
                    ).sealed_segment_max_seq@.remove_keys(gone@.to_set()));
                }
            }
            i = i + 1;
        }
        gone
    }
}

/// The segments that are unlinked: those up to `up_to` below the active one.
pub open spec fn segments_up_to(s: Seq<u64>, up_to: u64, active: u64, n: int) -> Seq<u64>
    decreases n,
{
    if n <= 0 {
        Seq::empty()
    } else if s[n - 1] <= up_to && s[n - 1] < active {
        segments_up_to(s, up_to, active, n - 1).push(s[n - 1])
    } else {
        segments_up_to(s, up_to, active, n - 1)
    }
}

/// Empty memtables at the front are gone.
pub open spec fn drops_empty_front(a: Seq<Arc<Memtable>>, b: Seq<Arc<Memtable>>) -> bool {
    &&& b.len() <= a.len()
    &&& b == a.skip(a.len() - b.len())
    &&& forall|i: int| 0 <= i < a.len() - b.len() ==> (#[trigger] a[i])@.len() == 0
}

/// A memtable that holds nothing can go.
proof fn empty_front_goes(old_l: Layers, new_l: Layers)
    requires
        old_l.wf(),
        in_sequence(old_l),
        old_l.immutables@.len() > 0,
        old_l.immutables@[0]@.len() == 0,
        new_l.active == old_l.active,
        new_l.tables == old_l.tables,
        new_l.immutables@ == old_l.immutables@.skip(1),
    ensures
        new_l.store() == old_l.store(),
        new_l.wf(),
        in_sequence(new_l),
{
    assert forall|v: Version| #[trigger] new_l.store().contains(v) <==> old_l.store().contains(
        v,
    ) by {
        store_cases(old_l, v);
        store_cases(new_l, v);
        if in_frozen(old_l, v) {
            let i = choose|i: int|
                0 <= i < old_l.immutables@.len() && (#[trigger] old_l.immutables@[i])@.contains(v);
            assert(i > 0);
            assert(new_l.immutables@[i - 1]@.contains(v));
        }
        if in_frozen(new_l, v) {
            let i = choose|i: int|
                0 <= i < new_l.immutables@.len() && (#[trigger] new_l.immutables@[i])@.contains(v);
            assert(old_l.immutables@[i + 1]@.contains(v));
        }
    }
    assert(new_l.store() =~= old_l.store());
    assert forall|i: int| 0 <= i < new_l.immutables@.len() implies (
    #[trigger] new_l.immutables@[i]).wf() by {
        assert(old_l.immutables@[i + 1].wf());
    }
    let m = memtables_of(old_l);
    let n = memtables_of(new_l);
    assert(n =~= m.skip(1));
    assert forall|i: int, j: int| 0 <= i < j < n.len() implies older(#[trigger] n[i], #[trigger] n[j]) by {
        assert(older(m[i + 1], m[j + 1]));
    }
    assert forall|i: int, j: int|
        0 <= i < new_l.tables@.len() && 0 <= j < n.len() implies all_above(
        #[trigger] n[j],
        (#[trigger] new_l.tables@[i]).meta.max_seq,
    ) by {
        assert(all_above(m[j + 1], old_l.tables@[i].meta.max_seq));
    }
}

} // verus!
