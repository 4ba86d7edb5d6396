//! What the engine reports of itself.

use vstd::prelude::*;
use crate::bytes::lex_le;
use crate::compaction::{at_level, bytes_where, bytes_where_bound, catalog_bytes, level_count, level_size};
use crate::engine::catalog::listed;
use crate::engine::read::last_seq;
use crate::engine::Engine;
use crate::errors::EngineResult;
use crate::iter::ScanDirection;
use crate::keys::KS_USER;
use crate::manifest::MetaView;
use crate::snapshot::pair_views;

verus! {

/// What is reported of a table.
#[derive(Debug, Clone, Copy, PartialEq, Eq, Structural)]
pub struct SstableStat {
    pub id: u64,
    pub size_bytes: u64,
    pub min_seq: u64,
    pub max_seq: u64,
    pub entries: u64,
}

/// What is reported of a log segment.
#[derive(Debug, Clone, Copy, PartialEq, Eq, Structural)]
pub struct WalSegmentStat {
    pub id: u64,
    pub first_seq: u64,
    pub max_seq: u64,
    pub size_bytes: u64,
    pub active: bool,
}

/// What the engine reports of itself.
#[derive(Debug)]
pub struct Stats {
    pub uptime_s: u64,
    pub last_durable_seq: u64,
    pub memtable_bytes: u64,
    pub memtable_entries: u64,
    pub immutable_memtables: u64,
    pub sstables: Vec<SstableStat>,
    pub wal_segments: Vec<WalSegmentStat>,
}

/// What is reported of a table with the given entry in the catalog.
pub open spec fn table_stat(m: MetaView) -> SstableStat {
    SstableStat {
        id: m.id,
        size_bytes: m.size_bytes,
        min_seq: m.min_seq,
        max_seq: m.max_seq,
        entries: 0,
    }
}

/// A sum that stops at the largest 64-bit number.
pub open spec fn capped_sum(a: nat, b: nat) -> nat {
    if a + b > u64::MAX {
        u64::MAX as nat
    } else {
        a + b
    }
}

/// The bytes of the keys and values of a list, as far as 64 bits show it.
pub open spec fn live_bytes(r: Seq<(Seq<u8>, Seq<u8>)>, n: int) -> nat
    decreases n,
{
    if n <= 0 {
        0
    } else {
        capped_sum(live_bytes(r, n - 1), capped_sum(r[n - 1].0.len(), r[n - 1].1.len()))
    }
}

/// The levels below `n` that hold tables, with their bytes.
pub open spec fn level_sizes(s: Seq<MetaView>, n: int) -> Seq<(u8, u64)>
    decreases n,
{
    if n <= 0 {
        Seq::empty()
    } else if level_count(s, n - 1) > 0 {
        level_sizes(s, n - 1).push(((n - 1) as u8, level_size(s, n - 1) as u64))
    } else {
        level_sizes(s, n - 1)
    }
}

/// The sizes of the tables of a level.
pub open spec fn sizes_at(s: Seq<MetaView>, level: u8) -> Seq<u64>
    decreases s.len(),
{
    if s.len() == 0 {
        Seq::empty()
    } else if s.last().level == level {
        sizes_at(s.drop_last(), level).push(s.last().size_bytes)
    } else {
        sizes_at(s.drop_last(), level)
    }
}

/// Sizes in ascending order.
pub open spec fn ascending_sizes(s: Seq<u64>) -> bool {
    forall|i: int, j: int| 0 <= i < j < s.len() ==> (#[trigger] s[i]) <= (#[trigger] s[j])
}

/// `t` lists the sizes of `s` in ascending order.
pub open spec fn sizes_in_order(s: Seq<u64>, t: Seq<u64>) -> bool {
    ascending_sizes(t) && t.to_multiset() == s.to_multiset()
}

/// Puts a size in its place.
fn insert_size(v: &mut Vec<u64>, x: u64)
    requires
        ascending_sizes(old(v)@),
    ensures
        ascending_sizes(final(v)@),
        final(v)@.to_multiset() == old(v)@.to_multiset().insert(x),
{
    let mut p: usize = v.len();
    while p > 0 && v[p - 1] > x
        invariant
            p <= v@.len(),
            v@ == old(v)@,
            forall|i: int| p <= i < v@.len() ==> #[trigger] v@[i] > x,
        decreases p,
    {
        p = p - 1;
    }
    proof {
        if p > 0 {
            assert forall|i: int| 0 <= i < p implies #[trigger] v@[i] <= x by {
                if i < p - 1 {
                    assert(v@[i] <= v@[p - 1]);
                }
            }
        }
        let t = v@.insert(p as int, x);
        t.to_multiset_ensures();
        assert(t.remove(p as int) =~= v@);
        assert(t[p as int] == x);
        assert(t.contains(x));
        assert(t.to_multiset() =~= v@.to_multiset().insert(x));
    }
    v.insert(p, x);
}

impl Engine {
    /// The bytes of all tables.
    pub fn estimate_disk_bytes(&self) -> (n: u64)
        requires
            catalog_bytes(self.catalog()) <= u64::MAX,
        ensures
            n == catalog_bytes(self.catalog()),
    {
        let ghost s = self.catalog();
        let mut n: u64 = 0;
        let mut i: usize = 0;
        assert(s.take(0) =~= Seq::<MetaView>::empty());
        while i < self.layers.tables.len()
            invariant
                i <= s.len(),
                s == self.catalog(),
                catalog_bytes(s) <= u64::MAX,
                n == catalog_bytes(s.take(i as int)),
            decreases self.layers.tables.len() - i,
        {
            proof {
                assert(s.take(i + 1).drop_last() =~= s.take(i as int));
                assert(s.take(i + 1).last() == s[i as int]);
                crate::engine::jobs::catalog_bytes_grow(s, i + 1);
            }
            n = n + self.layers.tables[i].meta.size_bytes;
            i = i + 1;
        }
        assert(s.take(s.len() as int) =~= s);
        n
    }

    /// The bytes of the keys and values that a reader gets now, at least one.
    pub open spec fn logical_bytes(&self, now_ms: u64) -> nat {
        let all = listed(
            self.store(),
            seq![KS_USER],
            seq![(KS_USER + 1) as u8],
            last_seq(self.seq@),
            now_ms,
        );
        let n = live_bytes(all, all.len() as int);
        if n > 0 {
            n
        } else {
            1
        }
    }

    /// The bytes of the user keys that have a value now and of their values, at least
    /// one.
    pub fn estimate_logical_live_bytes(&self, now_ms: u64) -> (r: EngineResult<u64>)
        requires
            self.wf(),
        ensures
            r matches Ok(x) && x == self.logical_bytes(now_ms),
    {
        let lo: Vec<u8> = vec![KS_USER];
        let hi: Vec<u8> = vec![KS_USER + 1];
        assert(lo@ =~= seq![KS_USER]);
        assert(hi@ =~= seq![(KS_USER + 1) as u8]);
        let ghost all = listed(self.store(), lo@, hi@, last_seq(self.seq@), now_ms);
        proof {
            assert(lex_le(lo@, hi@)) by {
                reveal_with_fuel(crate::bytes::lex_lt, 2);
            }
            crate::engine::scans::user_bounds_stay(lo@, hi@);
        }
        let pairs: Vec<(Vec<u8>, Vec<u8>)> = match self.scan(
            lo.as_slice(),
            hi.as_slice(),
            now_ms,
        ) {
            Ok(it) => it.collect(),
            Err(e) => {
                return Err(e);
            },
        };
        proof {
            crate::store::listing_is_unique(
                self.store(),
                lo@,
                hi@,
                last_seq(self.seq@),
                now_ms,
                ScanDirection::Forward,
                all,
                pair_views(pairs@),
            );
        }
        let mut total: u64 = 0;
        let mut i: usize = 0;
        while i < pairs.len()
            invariant
                i <= pairs@.len(),
                all == pair_views(pairs@),
                total == live_bytes(all, i as int),
            decreases pairs.len() - i,
        {
            assert(all[i as int] == (pairs@[i as int].0@, pairs@[i as int].1@));
            let one: u64 = (pairs[i].0.len() as u64).saturating_add(pairs[i].1.len() as u64);
            total = total.saturating_add(one);
            i = i + 1;
        }
        if total > 0 {
            Ok(total)
        } else {
            Ok(1)
        }
    }

    /// The bytes of the tables at each level that has any, by ascending level.
    pub fn disk_bytes_by_level(&self) -> (v: Vec<(u8, u64)>)
        requires
            catalog_bytes(self.catalog()) <= u64::MAX,
        ensures
            v@ == level_sizes(self.catalog(), 256),
    {
        let ghost s = self.catalog();
        let mut v: Vec<(u8, u64)> = Vec::new();
        let mut level: u16 = 0;
        while level < 256
            invariant
                level <= 256,
                s == self.catalog(),
                catalog_bytes(s) <= u64::MAX,
                v@ == level_sizes(s, level as int),
            decreases 256 - level,
        {
            let l: u8 = level as u8;
            if self.tables_at(l) > 0 {
                v.push((l, self.bytes_at(l)));
            }
            level = level + 1;
        }
        v
    }

    /// The bytes of the tables at a level.
    fn bytes_at(&self, level: u8) -> (n: u64)
        requires
            catalog_bytes(self.catalog()) <= u64::MAX,
        ensures
            n == level_size(self.catalog(), level as int),
    {
        let ghost s = self.catalog();
        let ghost p = at_level(level as int);
        let mut n: u64 = 0;
        let mut i: usize = 0;
        assert(s.take(0) =~= Seq::<MetaView>::empty());
        while i < self.layers.tables.len()
            invariant
                i <= s.len(),
                s == self.catalog(),
                p == at_level(level as int),
                catalog_bytes(s) <= u64::MAX,
                n == bytes_where(s.take(i as int), p),
            decreases self.layers.tables.len() - i,
        {
            let m: &crate::manifest::SstableMeta = &self.layers.tables[i].meta;
            proof {
                assert(s[i as int] == m@);
                assert(s.take(i + 1).drop_last() =~= s.take(i as int));
                assert(s.take(i + 1).last() == s[i as int]);
                bytes_where_bound(s.take(i + 1), p);
                crate::engine::jobs::catalog_bytes_grow(s, i + 1);
            }
            if m.level == level {
                n = n + m.size_bytes;
            }
            i = i + 1;
        }
        assert(s.take(s.len() as int) =~= s);
        n
    }

    /// The median and the largest size of the tables at the last level, zero for none.
    pub open spec fn shows_l2_sizes(&self, r: (u64, u64)) -> bool {
        let sizes = sizes_at(self.catalog(), self.cfg.compaction.max_level);
        if sizes.len() == 0 {
            r == (0u64, 0u64)
        } else {
            exists|t: Seq<u64>| #[trigger]
                sizes_in_order(sizes, t) && r == (
                    t[(sizes.len() / 2) as int],
                    t[sizes.len() - 1],
                )
        }
    }

    /// The smallest, the middle and the largest size of the tables of the deepest level,
    /// zeros where there are none.
    pub fn l2_file_size_stats(&self) -> (r: (u64, u64, u64))
        ensures
            ({
                let sizes = sizes_at(self.catalog(), self.cfg.compaction.max_level);
                if sizes.len() == 0 {
                    r == (0u64, 0u64, 0u64)
                } else {
                    exists|t: Seq<u64>| #[trigger]
                        sizes_in_order(sizes, t) && r == (
                            t[0],
                            t[(sizes.len() / 2) as int],
                            t[sizes.len() - 1],
                        )
                }
            }),
    {
        let ghost s = self.catalog();
        let level: u8 = self.cfg.compaction.max_level;
        let mut v: Vec<u64> = Vec::new();
        let mut i: usize = 0;
        proof {
            assert(s.take(0) =~= Seq::<MetaView>::empty());
            assert(v@ =~= sizes_at(s.take(0), level));
        }
        while i < self.layers.tables.len()
            invariant
                i <= s.len(),
                s == self.catalog(),
                sizes_in_order(sizes_at(s.take(i as int), level), v@),
            decreases self.layers.tables.len() - i,
        {
            proof {
                assert(s.take(i + 1).drop_last() =~= s.take(i as int));
                assert(s.take(i + 1).last() == s[i as int]);
            }
            if self.layers.tables[i].meta.level == level {
                let size: u64 = self.layers.tables[i].meta.size_bytes;
                insert_size(&mut v, size);
                proof {
                    let a = sizes_at(s.take(i as int), level);
                    a.to_multiset_ensures();
                }
            }
            i = i + 1;
        }
        proof {
            assert(s.take(s.len() as int) =~= s);
            v@.to_multiset_ensures();
            sizes_at(s, level).to_multiset_ensures();
        }
        let n: usize = v.len();
        if n == 0 {
            return (0, 0, 0);
        }
        assert(sizes_in_order(sizes_at(s, level), v@));
        (v[0], v[n / 2], v[n - 1])
    }

    /// Notes how long a catalog update took.
    pub fn record_apply_duration(&mut self, elapsed_ns: u64)
        ensures
            *final(self) == (Engine { apply_window: final(self).apply_window, ..*old(self) }),
            final(self).apply_window.count == crate::block_cache::wrapped(
                old(self).apply_window.count + 1,
            ),
            final(self).apply_window.sum_ns == crate::block_cache::wrapped(
                old(self).apply_window.sum_ns + elapsed_ns,
            ),
            final(self).apply_window.max_ns == crate::manifest::larger(
                old(self).apply_window.max_ns,
                elapsed_ns,
            ),
    {
        self.apply_window.record(elapsed_ns);
    }

    /// How many catalog updates there were since the last call, how long they took and
    /// how long the longest took, in nanoseconds.
    pub fn drain_apply_window_stats(&mut self) -> (r: (u64, u64, u64))
        ensures
            r == (
                old(self).apply_window.count,
                old(self).apply_window.sum_ns,
                old(self).apply_window.max_ns,
            ),
            *final(self) == (Engine {
                apply_window: crate::apply_worker::ManifestSyncWindow {
                    count: 0,
                    sum_ns: 0,
                    max_ns: 0,
                },
                ..*old(self)
            }),
    {
        self.apply_window.drain()
    }

    /// How many manifest syncs there were since the last call, how long they took and
    /// how long the longest took, in nanoseconds.
    pub fn drain_manifest_sync_window_stats(&mut self) -> (r: (u64, u64, u64))
        ensures
            r == (
                old(self).apply_scheduler.window.count,
                old(self).apply_scheduler.window.sum_ns,
                old(self).apply_scheduler.window.max_ns,
            ),
            *final(self) == (Engine {
                apply_scheduler: crate::apply_worker::ApplyScheduler {
                    window: crate::apply_worker::ManifestSyncWindow {
                        count: 0,
                        sum_ns: 0,
                        max_ns: 0,
                    },
                    ..old(self).apply_scheduler
                },
                ..*old(self)
            }),
    {
        self.apply_scheduler.window.drain()
    }

    /// What the engine reports of itself, given how long it has run and the log segments
    /// with their sizes.
    pub fn stats(&self, uptime_s: u64, segments: &Vec<(u64, u64)>) -> (r: Stats)
        requires
            self.wf(),
        ensures
            r.uptime_s == uptime_s,
            r.last_durable_seq == last_seq(self.seq@),
            r.memtable_bytes == crate::memtable::total_footprint(self.layers.active@),
            r.memtable_entries == self.layers.active@.len(),
            r.immutable_memtables == self.queued(),
            r.sstables@ == Seq::new(
                self.catalog().len(),
                |i: int| table_stat(self.catalog()[i]),
            ),
            r.wal_segments@ == Seq::new(
                segments@.len(),
                |i: int|
                    WalSegmentStat {
                        id: segments@[i].0,
                        first_seq: 0,
                        max_seq: 0,
                        size_bytes: segments@[i].1,
                        active: segments@[i].0 == self.active_wal_id,
                    },
            ),
    {
        let ghost s = self.catalog();
        let mut sstables: Vec<SstableStat> = Vec::new();
        let mut i: usize = 0;
        while i < self.layers.tables.len()
            invariant
                i <= s.len(),
                s == self.catalog(),
                sstables@.len() == i,
                forall|j: int| 0 <= j < i ==> #[trigger] sstables@[j] == table_stat(s[j]),
            decreases self.layers.tables.len() - i,
        {
            let m: &crate::manifest::SstableMeta = &self.layers.tables[i].meta;
            assert(s[i as int] == m@);
            sstables.push(
                SstableStat {
                    id: m.id,
                    size_bytes: m.size_bytes,
                    min_seq: m.min_seq,
                    max_seq: m.max_seq,
                    entries: 0,
                },
            );
            i = i + 1;
        }
        assert(sstables@ =~= Seq::new(s.len(), |i: int| table_stat(s[i])));
        let mut wal_segments: Vec<WalSegmentStat> = Vec::new();
        i = 0;
        while i < segments.len()
            invariant
                i <= segments@.len(),
                wal_segments@.len() == i,
                forall|j: int|
                    0 <= j < i ==> #[trigger] wal_segments@[j] == (WalSegmentStat {
                        id: segments@[j].0,
                        first_seq: 0,
                        max_seq: 0,
                        size_bytes: segments@[j].1,
                        active: segments@[j].0 == self.active_wal_id,
                    }),
            decreases segments.len() - i,
        {
            wal_segments.push(
                WalSegmentStat {
                    id: segments[i].0,
                    first_seq: 0,
                    max_seq: 0,
                    size_bytes: segments[i].1,
                    active: segments[i].0 == self.active_wal_id,
                },
            );
            i = i + 1;
        }
        Stats {
            uptime_s,
            last_durable_seq: self.current_seq(),
            memtable_bytes: self.layers.active.size_bytes() as u64,
            memtable_entries: self.layers.active.len() as u64,
            immutable_memtables: self.immutable_len() as u64,
            sstables,
            wal_segments,
        }
    }
}

} // verus!
