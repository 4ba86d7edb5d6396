//! Switches, the graceful stop, and catching up from installed log segments.

use vstd::prelude::*;
use crate::codec::{be_bytes, put_be};
use crate::engine::compact::same_reads;
use crate::engine::jobs::{raised, to_flush};
use crate::engine::open::{log_footprint, replayed_log, whole_log, written_by};
use crate::engine::read::{last_seq, top_of};
use crate::engine::Engine;
use crate::engine::settle::in_memtables;
use crate::errors::{EngineError, EngineResult};
use crate::manifest::larger;
use crate::memtable::total_footprint;
use crate::records::{sorted, Version};
use crate::shipping::ShipMode;
use crate::snapshot::memtable_runs;
use crate::text::{decimal, text_with_number};
use crate::wal::{
    max_entry_seq, segment_views, wal_views, ReplayOutcome, SegmentView, WalEntry, WalSegment,
    WalView, SEGMENT_HEADER_LEN,
};

verus! {

/// The number of operations of some records.
pub open spec fn ops_in(log: Seq<WalView>) -> nat
    decreases log.len(),
{
    if log.len() == 0 {
        0
    } else {
        ops_in(log.drop_last()) + log.last().ops.len()
    }
}

/// The memtables can be written out: there are numbers for the tables, the memtables'
/// versions can be counted, and an update of the catalog can wait.
pub open spec fn flushable(e: &Engine) -> bool {
    &&& e.apply_scheduler.pending_count < u64::MAX
    &&& e.next_sstable_id + e.layers.immutables@.len() + 1 < u64::MAX
    &&& e.layers.active@.len() * 10 <= usize::MAX
    &&& forall|i: int|
        0 <= i < e.layers.immutables@.len() ==> (#[trigger] e.layers.immutables@[i])@.len() * 10
            <= usize::MAX
}

/// What a graceful stop leaves to be done on the disk.
#[derive(Debug)]
pub struct Stopped {
    /// The bytes of the marker file, the last sequence number.
    pub marker: Vec<u8>,
    /// The number up to which log segments can be unlinked, where there is one.
    pub unlink_wal_up_to: Option<u64>,
}

impl Engine {
    /// Whether the memtables can be written out.
    pub fn can_flush(&self) -> (r: bool)
        ensures
            r == flushable(self),
    {
        let limit: usize = usize::MAX / 10;
        let mut i: usize = 0;
        while i < self.layers.immutables.len()
            invariant
                i <= self.layers.immutables@.len(),
                limit == usize::MAX / 10,
                forall|j: int|
                    0 <= j < i ==> (#[trigger] self.layers.immutables@[j])@.len() * 10
                        <= usize::MAX,
            decreases self.layers.immutables.len() - i,
        {
            if self.layers.immutables[i].len() > limit {
                return false;
            }
            i = i + 1;
        }
        let ids: u64 = u64::MAX - self.next_sstable_id;
        self.apply_scheduler.pending_applies() < u64::MAX && self.layers.active.len() <= limit && ids
            > 1 && (self.layers.immutables.len() as u64) < ids
            - 1
    }

    /// Sets whether writers leave the sync to a coordinator that does it for many of them.
    pub fn with_group_commit(self, enabled: bool) -> (e: Engine)
        ensures
            e == (Engine { group_commit: enabled, ..self }),
    {
        let mut e: Engine = self;
        e.group_commit = enabled;
        e
    }

    /// Whether writers leave the sync to a coordinator.
    pub fn group_commit_enabled(&self) -> (r: bool)
        ensures
            r == self.group_commit,
    {
        self.group_commit
    }

    /// Sets where sealed segments are shipped, and how.
    pub fn with_shipping(self, ship_dir: Option<String>, mode: ShipMode) -> (e: Engine)
        ensures
            e == (Engine { ship_dir, ship_mode: mode, ..self }),
    {
        let mut e: Engine = self;
        e.ship_dir = ship_dir;
        e.ship_mode = mode;
        e
    }

    /// Sets the key that authenticates what is noted of shipped segments. Without one the
    /// notes are not authenticated.
    pub fn with_shipping_hmac_key(self, key: Option<Vec<u8>>) -> (e: Engine)
        ensures
            e == (Engine { ship_hmac_key: key, ..self }),
    {
        let mut e: Engine = self;
        e.ship_hmac_key = key;
        e
    }

    /// Whether the last stop was graceful.
    pub fn was_clean_shutdown(&self) -> (r: bool)
        ensures
            r == self.clean_boot,
    {
        self.clean_boot
    }

    /// The number of frozen memtables that wait for the flush worker.
    pub fn immutable_len(&self) -> (n: usize)
        ensures
            n == self.queued(),
    {
        let n: usize = self.layers.immutables.len();
        if n > 0 && self.flush_scheduler.is_worker_busy() {
            n - 1
        } else {
            n
        }
    }

    /// The number of tables.
    pub fn sstable_count(&self) -> (n: usize)
        ensures
            n == self.catalog().len(),
    {
        self.layers.tables.len()
    }

    /// The next sequence number.
    pub fn seq_peek(&self) -> (n: u64)
        ensures
            n == self.seq@,
    {
        self.seq.peek()
    }

    /// The sealed segments with their largest sequence numbers, by ascending number.
    pub fn sealed_segment_max_seq_snapshot(&self) -> (v: Vec<(u64, u64)>)
        requires
            self.wf(),
        ensures
            crate::sorted_map::ascending(v@),
            crate::sorted_map::pairs_map(v@) == self.sealed_segment_max_seq@,
    {
        let pairs: &[(u64, u64)] = self.sealed_segment_max_seq.pairs();
        let mut v: Vec<(u64, u64)> = Vec::new();
        let mut i: usize = 0;
        while i < pairs.len()
            invariant
                i <= pairs@.len(),
                v@ == pairs@.take(i as int),
            decreases pairs.len() - i,
        {
            v.push(pairs[i]);
            assert(v@ =~= pairs@.take(i + 1));
            i = i + 1;
        }
        assert(v@ =~= pairs@);
        v
    }

    /// Whether the data directory is to be synced now.
    pub fn maybe_sync_data_dir(&mut self) -> (r: bool)
        ensures
            r == old(self).dir_fsync_pending,
            *final(self) == (Engine { dir_fsync_pending: false, ..*old(self) }),
    {
        let r: bool = self.dir_fsync_pending;
        self.dir_fsync_pending = false;
        r
    }

    /// Seals the active segment as if it were full, and returns its number. A segment of
    /// size zero stays.
    pub fn force_roll_wal_for_test(&mut self) -> (r: Option<u64>)
        requires
            old(self).wf(),
            old(self).active_wal_id < u64::MAX,
        ensures
            final(self).wf(),
            if old(self).active_wal_size == 0 {
                r is None && *final(self) == *old(self)
            } else {
                &&& r == Some(old(self).active_wal_id)
                &&& final(self).sealed_segment_max_seq@ == old(self).sealed_segment_max_seq@.insert(
                    old(self).active_wal_id,
                    old(self).buffered_seq,
                )
                &&& *final(self) == (Engine {
                    synced_seq: old(self).buffered_seq,
                    sealed_segment_max_seq: final(self).sealed_segment_max_seq,
                    active_wal_id: (old(self).active_wal_id + 1) as u64,
                    active_wal_size: SEGMENT_HEADER_LEN,
                    ..*old(self)
                })
            },
    {
        if self.active_wal_size == 0 {
            return None;
        }
        let synced: u64 = self.sync_wal();
        let sealed: u64 = self.active_wal_id;
        self.sealed_segment_max_seq.insert(sealed, self.buffered_seq);
        self.active_wal_id = sealed + 1;
        self.active_wal_size = SEGMENT_HEADER_LEN;
        Some(sealed)
    }

    /// What a graceful stop makes of an engine: a forced flush, and the log is synced.
    pub open spec fn shut_down_from(&self, before: &Engine) -> bool {
        let flushed = Engine { synced_seq: raised(before.synced_seq, to_flush(before.layers)), ..*self
        };
        &&& flushed.flushed_from(before)
        &&& self.synced_seq == self.buffered_seq
        &&& self.layers.active@.len() == 0
        &&& self.layers.immutables@.len() == 0
    }

    /// Prepares a graceful stop: everything is written out, compactions run until none is
    /// due, and the log is synced.
    pub fn shutdown(&mut self) -> (r: EngineResult<Stopped>)
        requires
            old(self).wf(),
            flushable(old(self)),
        ensures
            final(self).wf(),
            r is Err <==> old(self).apply_scheduler.shut_down && in_memtables(old(self)),
            match r {
                Ok(stopped) => {
                    &&& final(self).shut_down_from(old(self))
                    &&& stopped.marker@ == be_bytes(last_seq(old(self).seq@) as nat, 8)
                    &&& stopped.unlink_wal_up_to == old(self).segments_freed()
                },
                Err(e) => (e matches EngineError::Io(m) && m@ == "apply worker shut down"@)
                    && *final(self) == (Engine {
                    apply_scheduler: final(self).apply_scheduler,
                    ..*old(self)
                }),
            },
            same_reads(old(self).store(), final(self).store(), old(self).settled_watermark()),
    {
        let unlink_wal_up_to: Option<u64> = match self.force_flush() {
            Ok(freed) => freed,
            Err(e) => {
                return Err(e);
            },
        };
        let ghost flushed = *self;
        let synced: u64 = self.sync_wal();
        proof {
            assert(flushed == Engine {
                synced_seq: raised(old(self).synced_seq, to_flush(old(self).layers)),
                ..*self
            });
        }
        let mut marker: Vec<u8> = Vec::new();
        put_be(&mut marker, self.current_seq(), 8);
        assert(marker@ =~= be_bytes(last_seq(old(self).seq@) as nat, 8));
        Ok(Stopped { marker, unlink_wal_up_to })
    }

    /// The records of an installed segment that the tables do not hold yet.
    pub open spec fn missing_of(&self, s: SegmentView) -> Seq<WalView> {
        replayed_log(s.entries, top_of(self.catalog(), self.catalog().len() as int), None)
    }

    /// The memtables hold what some records write, in one run, which is frozen where it
    /// exceeds the memtable's size.
    pub open spec fn holds_replayed(&self, log: Seq<WalView>) -> bool {
        exists|run: Seq<Version>| #[trigger]
            sorted(run) && run.to_set() == written_by(log) && if total_footprint(run)
                <= self.cfg.memtable_flush_threshold {
                self.layers.active@ == run && self.layers.immutables@.len() == 0
            } else {
                self.layers.active@ == Seq::<Version>::empty() && memtable_runs(
                    self.layers.immutables@,
                ) == seq![run]
            }
    }

    /// What replaying a sealed segment makes of a settled engine: the records above the
    /// tables are in the memtables.
    pub open spec fn installed_on(&self, mid: &Engine, segment: WalSegment, n: usize) -> bool {
        let missing = self.missing_of(segment@);
        let top = max_entry_seq(wal_views(segment.entries@));
        let seen = larger(last_seq(mid.seq@), max_entry_seq(missing));
        &&& n == ops_in(missing)
        &&& self.store() == mid.store().union(written_by(missing))
        &&& self.holds_replayed(missing)
        &&& self.catalog() == mid.catalog()
        &&& self.seq@ == larger(mid.seq@, (max_entry_seq(missing) + 1) as u64)
        &&& self.buffered_seq == larger(mid.buffered_seq, seen)
        &&& self.synced_seq == larger(mid.synced_seq, seen)
        &&& self.sealed_segment_max_seq@ == (if top > 0 {
            mid.sealed_segment_max_seq@.insert(segment.id, top)
        } else {
            mid.sealed_segment_max_seq@
        })
    }

    /// What applying a sealed segment makes of an engine: the memtables are written out,
    /// compactions run until none is due, and the records above the tables are replayed.
    /// A damaged segment is refused.
    pub open spec fn installs(
        &self,
        before: &Engine,
        segment: WalSegment,
        r: EngineResult<usize>,
    ) -> bool {
        match r {
            Ok(n) => segment.outcome is Clean && exists|mid: Engine| #[trigger]
                mid.rests_after(before) && mid.kept_by_settling(before) && same_reads(
                    before.store(),
                    mid.store(),
                    before.settled_watermark(),
                ) && self.installed_on(&mid, segment, n),
            Err(e) => {
                &&& e matches EngineError::Io(m)
                &&& if before.refuses_to_settle() {
                    m@ == "apply worker shut down"@ && self.layers == before.layers
                } else {
                    &&& !(segment.outcome is Clean)
                    &&& m@ == "WAL: sealed segment "@ + decimal(segment.id as nat)
                        + " is damaged; refusing catch-up apply"@
                    &&& self.rests_after(before)
                }
                &&& same_reads(before.store(), self.store(), before.settled_watermark())
            },
        }
    }

    /// Applies a sealed log segment whose records can be held.
    pub(crate) fn replay_installed(&mut self, segment: WalSegment) -> (r: EngineResult<usize>)
        requires
            old(self).wf(),
            flushable(old(self)),
            log_footprint(wal_views(segment.entries@)) <= usize::MAX,
            max_entry_seq(wal_views(segment.entries@)) < u64::MAX,
        ensures
            final(self).wf(),
            final(self).installs(old(self), segment, r),
            segment.outcome is Clean && !old(self).refuses_to_settle() ==> r is Ok,
    {
        match self.settle() {
            Ok(_) => {},
            Err(e) => {
                return Err(e);
            },
        }
        let ghost flushed_engine = *self;
        match segment.outcome {
            ReplayOutcome::Clean => {},
            _ => {
                return Err(
                    EngineError::Io(
                        text_with_number(
                            "WAL: sealed segment ",
                            segment.id,
                            " is damaged; refusing catch-up apply",
                        ),
                    ),
                );
            },
        }
        let flushed: u64 = self.flushed_seq();
        let ghost log = wal_views(segment.entries@);
        let ghost missing = replayed_log(log, flushed, None);
        let mut top: u64 = 0;
        let mut seen: u64 = self.current_seq();
        let mut raise: u64 = 0;
        let mut applied: usize = 0;
        let mut i: usize = 0;
        proof {
            assert(log.take(0) =~= Seq::<WalView>::empty());
        }
        while i < segment.entries.len()
            invariant
                i <= segment.entries@.len(),
                log == wal_views(segment.entries@),
                log_footprint(log) <= usize::MAX,
                top == max_entry_seq(log.take(i as int)),
                raise == max_entry_seq(replay_part(log, flushed, i as int)),
                applied == ops_in(replay_part(log, flushed, i as int)),
                applied <= log_footprint(log.take(i as int)),
            decreases segment.entries.len() - i,
        {
            let e: &WalEntry = &segment.entries[i];
            proof {
                assert(log[i as int] == e@);
                assert(log.take(i + 1).drop_last() =~= log.take(i as int));
                assert(log.take(i + 1).last() == e@);
                ops_fit(e@);
                footprint_take(log, i + 1);
                let p = replay_part(log, flushed, i as int);
                assert(p.push(e@).drop_last() =~= p);
            }
            if e.seq > top {
                top = e.seq;
            }
            if e.seq > flushed {
                if e.seq > raise {
                    raise = e.seq;
                }
                assert(e@.ops.len() == e.ops@.len());
                applied = applied + e.ops.len();
            }
            i = i + 1;
        }
        proof {
            assert(log.take(log.len() as int) =~= log);
            replayed_below(log, flushed, log.len() as int);
        }
        if raise > seen {
            seen = raise;
        }
        if top > 0 {
            self.sealed_segment_max_seq.insert(segment.id, top);
        }
        proof {
            assert(self.wf());
        }
        self.seq.bump_to_at_least(raise + 1);
        let mut segments: Vec<WalSegment> = Vec::new();
        let ghost seg = segment@;
        segments.push(segment);
        proof {
            let segs = segment_views(segments@);
            assert(segs[0] == seg);
            assert(crate::engine::open::log_upto(segs, 0) =~= Seq::<WalView>::empty());
            assert(crate::engine::open::log_upto(segs, 1) =~= log) by {
                reveal_with_fuel(crate::engine::open::log_upto, 2);
            }
            assert(whole_log(segs) == log);
            assert(crate::engine::all_below(self.store(), self.seq@)) by {
                assert forall|v: Version| #[trigger] self.store().contains(v) implies v.0.seq
                    < self.seq@ by {
                    assert(flushed_engine.store().contains(v));
                }
            }
            assert(self.wf());
            assert(self.layers.active@ =~= Seq::<Version>::empty());
        }
        self.replay(&segments, flushed, None);
        if seen > self.buffered_seq {
            self.buffered_seq = seen;
        }
        if seen > self.synced_seq {
            self.synced_seq = seen;
        }
        let ghost run = self.layers.active@;
        let ghost frozen = memtable_runs(self.layers.immutables@);
        proof {
            self.layers.active.lemma_sorted();
            assert(frozen =~= Seq::<Seq<Version>>::empty());
        }
        self.maybe_freeze();
        proof {
            assert(frozen.push(run) =~= seq![run]);
            assert(sorted(run));
            assert(self.holds_replayed(missing));
            assert(flushed_engine.rests_after(old(self)));
            assert(self.installed_on(&flushed_engine, segment, applied));
        }
        Ok(applied)
    }
}

/// The first `n` records, as far as they lie above the tables.
spec fn replay_part(log: Seq<WalView>, flushed: u64, n: int) -> Seq<WalView> {
    crate::engine::open::replay_upto(log, flushed, None, n)
}

proof fn ops_fit(e: WalView)
    ensures
        e.ops.len() <= crate::memtable::total_footprint(e.writes()),
{
    versions_fit(e.writes());
}

proof fn versions_fit(s: Seq<Version>)
    ensures
        s.len() <= crate::memtable::total_footprint(s),
    decreases s.len(),
{
    if s.len() > 0 {
        versions_fit(s.drop_last());
    }
}

pub(crate) proof fn footprint_take(log: Seq<WalView>, n: int)
    requires
        0 <= n <= log.len(),
    ensures
        log_footprint(log.take(n)) <= log_footprint(log),
    decreases log.len(),
{
    if n == log.len() {
        assert(log.take(n) =~= log);
    } else {
        footprint_take(log.drop_last(), n);
        assert(log.drop_last().take(n) =~= log.take(n));
    }
}

proof fn replayed_below(log: Seq<WalView>, flushed: u64, n: int)
    requires
        0 <= n <= log.len(),
    ensures
        max_entry_seq(replay_part(log, flushed, n)) <= max_entry_seq(log.take(n)),
        log_footprint(replay_part(log, flushed, n)) <= log_footprint(log.take(n)),
    decreases n,
{
    if n == 0 {
        assert(log.take(0) =~= Seq::<WalView>::empty());
    } else {
        replayed_below(log, flushed, n - 1);
        assert(log.take(n).drop_last() =~= log.take(n - 1));
        assert(log.take(n).last() == log[n - 1]);
        let p = replay_part(log, flushed, n - 1);
        assert(p.push(log[n - 1]).drop_last() =~= p);
    }
}

} // verus!
