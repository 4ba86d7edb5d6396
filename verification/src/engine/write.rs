//! The write path: validation, backpressure, the log record and the memtable.

use std::sync::Arc;
use vstd::prelude::*;
use crate::compaction::{at_level, ids_where, level_count, pending, plannable, CompactionPlanner};
use crate::engine::{
    all_above, all_below, cache_agrees, cached_result_holds, in_frozen, in_sequence, memtables_of,
    newest_depends_on_key, older, store_cases, tables_below, Engine,
};
use crate::errors::{EngineError, EngineResult};
use crate::keys::MAX_IN_FLIGHT_WAL_BYTES;
use crate::manifest::{larger, meta_views, SstableMeta};
use crate::memtable::{footprint, total_footprint, Memtable};
use crate::records::{sorted, Version};
use crate::result_cache::{without_result_facts, ResultCache, ResultView};
use crate::snapshot::{memtable_runs, Layers};
use crate::store::{coherent, proper};
use crate::tenant_fair::{tenant_bytes, tenant_from_user_key};
use crate::text::{decimal, text_of, text_with_number};
use crate::wal::{
    op_version, op_views, rolls, should_roll, OpView, WalEntry, WalOp, WalView, SEGMENT_HEADER_LEN,
};

verus! {

/// What fairness accounting says of the writing tenant.
#[derive(Debug, Clone, Copy, PartialEq, Eq, Structural)]
pub struct WriteGate {
    /// Fairness is enforced.
    pub fair_on: bool,
    /// Stalls are to be put down to this tenant.
    pub noisy: bool,
    /// What the write puts fits the tenants' shares of the memtable.
    pub admits: bool,
}

/// The smallest of two sizes.
pub open spec fn at_most(a: int, b: int) -> int {
    if a <= b {
        a
    } else {
        b
    }
}

/// A size multiplied by a small factor, as far as it can be represented.
fn scaled(n: usize, by: usize) -> (r: usize)
    requires
        0 < by <= 5,
    ensures
        r == at_most(by * n, usize::MAX as int),
{
    if n > usize::MAX / by {
        assert(by * n > usize::MAX) by (nonlinear_arith)
            requires
                n > usize::MAX / by,
                by > 0,
        ;
        usize::MAX
    } else {
        assert(by * n <= usize::MAX) by (nonlinear_arith)
            requires
                n <= usize::MAX / by,
                by > 0,
        ;
        by * n
    }
}

impl Engine {
    /// The tenant of the key is the one to whom stalls are put down.
    pub open spec fn blamed(&self, key: Seq<u8>, gate: WriteGate) -> bool {
        gate.fair_on && gate.noisy && tenant_bytes(key) is Some
    }

    /// A tenant that stays within its share is spared the stalls of others.
    pub open spec fn spared(&self, key: Seq<u8>, gate: WriteGate) -> bool {
        gate.fair_on && !self.blamed(key, gate)
    }

    /// The number of frozen memtables that wait: all but the one that is out with the
    /// flush worker.
    pub open spec fn queued(&self) -> int {
        let n = self.layers.immutables@.len() as int;
        if self.flush_scheduler.worker_busy && n > 0 {
            n - 1
        } else {
            n
        }
    }

    /// The number of waiting memtables at which every write is refused.
    pub open spec fn hard_queue_limit(&self) -> int {
        let soft = self.cfg.max_immutable_memtables as int;
        let twice = at_most(2 * soft, usize::MAX as int);
        if twice > soft {
            twice
        } else {
            soft + 1
        }
    }

    /// The work that runs, waits or was asked for.
    pub open spec fn queue_depth(&self) -> int {
        (if self.compaction_scheduler.worker_busy {
            1int
        } else {
            0
        }) + (if self.compaction_scheduler.pending is Some {
            1int
        } else {
            0
        }) + (if self.flush_scheduler.worker_busy {
            1int
        } else {
            0
        }) + (if self.compaction_scheduler.compaction_needed {
            1int
        } else {
            0
        })
    }

    /// The number of level-0 tables at which writes stall.
    pub open spec fn l0_limit(&self) -> int {
        match self.cfg.l0_write_stall_threshold {
            Some(n) => n as int,
            None => {
                let five = at_most(5 * self.cfg.compaction.l0_trigger, usize::MAX as int);
                if five > 20 {
                    five
                } else {
                    20
                }
            },
        }
    }

    /// The waiting memtables are too many for a tenant that is not spared.
    pub open spec fn flush_stalls(&self) -> bool {
        self.queued() >= self.cfg.max_immutable_memtables
    }

    /// Why a write is refused for now, if it is.
    pub open spec fn busy_reason(&self, key: Seq<u8>, gate: WriteGate) -> Option<Seq<char>> {
        if self.freeze_writes {
            Some("writes frozen"@)
        } else if self.in_flight_wal_bytes > MAX_IN_FLIGHT_WAL_BYTES {
            Some("WAL in-flight limit"@)
        } else if self.queued() >= self.hard_queue_limit() {
            Some("flush queue full"@)
        } else if self.spared(key, gate) {
            None
        } else if self.flush_stalls() {
            Some("flush queue full"@)
        } else if self.queue_depth() >= 4 {
            Some("compaction backlog (queue depth "@ + decimal(self.queue_depth() as nat) + ")"@)
        } else if level_count(self.catalog(), 0) >= self.l0_limit() {
            Some(
                "L0 compaction backlog ("@ + decimal(level_count(self.catalog(), 0)) + " files)"@,
            )
        } else {
            None
        }
    }

    /// A refusal is charged to the tenant: it is to blame, and the refusal is one that
    /// a tenant within its share would have been spared.
    pub open spec fn charges(&self, key: Seq<u8>, gate: WriteGate) -> bool {
        &&& self.blamed(key, gate)
        &&& !self.freeze_writes
        &&& self.in_flight_wal_bytes <= MAX_IN_FLIGHT_WAL_BYTES
        &&& self.queued() < self.hard_queue_limit()
        &&& self.busy_reason(key, gate) is Some
    }

    /// How long an accepted write is to wait, in microseconds: up to a millisecond
    /// above the soft limit on compaction debt and up to five above the hard limit, and
    /// at least two for a tenant to blame.
    pub open spec fn slowdown_us(&self, key: Seq<u8>, gate: WriteGate) -> int {
        let p = pending(self.catalog(), self.cfg.compaction) as int;
        let hard = self.cfg.compaction.hard_pending_compaction_bytes as int;
        let soft = self.cfg.compaction.soft_pending_compaction_bytes as int;
        let debt = if hard > 0 && p >= hard {
            1000 * at_most(5, (hard + 4 * (p - hard)) / hard)
        } else if soft > 0 && p > soft {
            at_most(1000, (100 * soft + 900 * (p - soft)) / soft)
        } else {
            0
        };
        if self.blamed(key, gate) && debt < 2000 {
            2000
        } else {
            debt
        }
    }

    /// The engine once it has accepted a write of the key: the write's slowdown is set.
    pub open spec fn accepting(&self, key: Seq<u8>, gate: WriteGate) -> Engine {
        Engine {
            pending_write_slowdown_us: self.slowdown_us(key, gate) as u64,
            stall_charge: false,
            ..*self
        }
    }

    /// The catalog entries of the tables.
    pub fn metas(&self) -> (v: Vec<SstableMeta>)
        ensures
            meta_views(v@) == self.catalog(),
    {
        let mut v: Vec<SstableMeta> = Vec::new();
        let mut i: usize = 0;
        while i < self.layers.tables.len()
            invariant
                i <= self.layers.tables@.len(),
                v@.len() == i,
                forall|j: int| 0 <= j < i ==> (#[trigger] v@[j])@ == self.layers.tables@[j].meta@,
            decreases self.layers.tables.len() - i,
        {
            v.push(self.layers.tables[i].meta.clone());
            i = i + 1;
        }
        assert(meta_views(v@) =~= self.catalog());
        v
    }

    /// The number of tables at a level.
    pub(crate) fn tables_at(&self, level: u8) -> (n: usize)
        ensures
            n == level_count(self.catalog(), level as int),
    {
        let ghost s = self.catalog();
        let ghost p = at_level(level as int);
        let mut n: usize = 0;
        let mut i: usize = 0;
        assert(s.take(0) =~= Seq::empty());
        while i < self.layers.tables.len()
            invariant
                i <= self.layers.tables@.len(),
                s == self.catalog(),
                p == at_level(level as int),
                n == ids_where(s.take(i as int), p).len(),
                n <= i,
            decreases self.layers.tables.len() - i,
        {
            proof {
                assert(s.take(i + 1).drop_last() =~= s.take(i as int));
                assert(s.take(i + 1).last() == self.layers.tables@[i as int].meta@);
            }
            if self.layers.tables[i].meta.level == level {
                n = n + 1;
            }
            i = i + 1;
        }
        assert(s.take(s.len() as int) =~= s);
        n
    }

    /// The bytes that wait to be compacted.
    pub fn estimate_pending_compaction_bytes(&self) -> (n: u64)
        requires
            plannable(self.catalog(), self.cfg.compaction),
        ensures
            n == pending(self.catalog(), self.cfg.compaction),
    {
        let metas: Vec<SstableMeta> = self.metas();
        CompactionPlanner::new(metas.as_slice(), &self.cfg.compaction).estimate_pending_bytes()
    }

    /// Whether a write of the key is accepted now. Sets the slowdown that an accepted
    /// write is to observe, and whether a refusal is charged to the tenant.
    pub fn check_backpressure_for_key(&mut self, key: &[u8], gate: WriteGate) -> (r: EngineResult<
        (),
    >)
        requires
            plannable(old(self).catalog(), old(self).cfg.compaction),
            old(self).cfg.max_immutable_memtables < usize::MAX,
        ensures
            match r {
                Ok(_) => old(self).busy_reason(key@, gate) is None && *final(self) == old(
                    self,
                ).accepting(key@, gate),
                Err(e) => old(self).busy_reason(key@, gate) matches Some(m) && (
                e matches EngineError::EngineBusy(t) && t@ == m) && *final(self) == (Engine {
                    pending_write_slowdown_us: 0,
                    stall_charge: old(self).charges(key@, gate),
                    ..*old(self)
                }),
            },
    {
        self.pending_write_slowdown_us = 0;
        self.stall_charge = false;
        if self.freeze_writes {
            return Err(EngineError::EngineBusy(text_of("writes frozen")));
        }
        if self.in_flight_wal_bytes > MAX_IN_FLIGHT_WAL_BYTES {
            return Err(EngineError::EngineBusy(text_of("WAL in-flight limit")));
        }
        let blamed: bool = gate.fair_on && gate.noisy && tenant_from_user_key(key).is_some();
        let spared: bool = gate.fair_on && !blamed;
        let queued: usize = self.immutable_len();
        let soft_queue: usize = self.cfg.max_immutable_memtables;
        let twice: usize = scaled(soft_queue, 2);
        let hard_queue: usize = if twice > soft_queue {
            twice
        } else {
            soft_queue + 1
        };
        if queued >= hard_queue {
            return Err(EngineError::EngineBusy(text_of("flush queue full")));
        }
        if queued >= soft_queue && !spared {
            self.stall_charge = blamed;
            return Err(EngineError::EngineBusy(text_of("flush queue full")));
        }
        let asked: usize = if self.compaction_scheduler.compaction_needed() {
            1
        } else {
            0
        };
        let depth: usize = self.compaction_scheduler.queue_depth()
            + self.flush_scheduler.queue_depth() + asked;
        if depth >= 4 && !spared {
            self.stall_charge = blamed;
            return Err(
                EngineError::EngineBusy(
                    text_with_number("compaction backlog (queue depth ", depth as u64, ")"),
                ),
            );
        }
        let l0_count: usize = self.tables_at(0);
        let l0_limit: usize = match self.cfg.l0_write_stall_threshold {
            Some(n) => n,
            None => {
                let five: usize = scaled(self.cfg.compaction.l0_trigger, 5);
                if five > 20 {
                    five
                } else {
                    20
                }
            },
        };
        if l0_count >= l0_limit && !spared {
            self.stall_charge = blamed;
            return Err(
                EngineError::EngineBusy(
                    text_with_number("L0 compaction backlog (", l0_count as u64, " files)"),
                ),
            );
        }
        let debt: u64 = self.estimate_pending_compaction_bytes();
        let hard: u64 = self.cfg.compaction.hard_pending_compaction_bytes;
        let soft: u64 = self.cfg.compaction.soft_pending_compaction_bytes;
        let mut wait: u64 = 0;
        if hard > 0 && debt >= hard {
            let ms: u128 = (hard as u128 + 4 * (debt - hard) as u128) / hard as u128;
            wait = if ms > 5 {
                5000
            } else {
                1000 * ms as u64
            };
        } else if soft > 0 && debt > soft {
            let us: u128 = (100 * soft as u128 + 900 * (debt - soft) as u128) / soft as u128;
            wait = if us > 1000 {
                1000
            } else {
                us as u64
            };
        }
        if blamed && wait < 2000 {
            wait = 2000;
        }
        self.pending_write_slowdown_us = wait;
        Ok(())
    }

    /// Takes the slowdown that the last accepted write is to observe.
    pub fn take_write_slowdown(&mut self) -> (us: u64)
        ensures
            us == old(self).pending_write_slowdown_us,
            *final(self) == (Engine { pending_write_slowdown_us: 0, ..*old(self) }),
    {
        let us: u64 = self.pending_write_slowdown_us;
        self.pending_write_slowdown_us = 0;
        us
    }

    /// Whether the last refusal is to be charged to the writing tenant.
    pub fn take_stall_charge(&mut self) -> (r: bool)
        ensures
            r == old(self).stall_charge,
            *final(self) == (Engine { stall_charge: false, ..*old(self) }),
    {
        let r: bool = self.stall_charge;
        self.stall_charge = false;
        r
    }

    /// Refuses writes until `unfreeze_writes`.
    pub fn freeze_writes(&mut self)
        ensures
            *final(self) == (Engine { freeze_writes: true, ..*old(self) }),
    {
        self.freeze_writes = true;
    }

    pub fn unfreeze_writes(&mut self)
        ensures
            *final(self) == (Engine { freeze_writes: false, ..*old(self) }),
    {
        self.freeze_writes = false;
    }

    pub fn writes_frozen(&self) -> (r: bool)
        ensures
            r == self.freeze_writes,
    {
        self.freeze_writes
    }

    /// The largest sequence number in the log, durable or not.
    pub fn last_buffered_seq(&self) -> (n: u64)
        ensures
            n == self.buffered_seq,
    {
        self.buffered_seq
    }

    /// Notes that the log was synced, and returns the largest sequence number that is
    /// now known to be durable.
    pub fn sync_wal(&mut self) -> (n: u64)
        ensures
            n == old(self).buffered_seq,
            *final(self) == (Engine { synced_seq: old(self).buffered_seq, ..*old(self) }),
    {
        self.synced_seq = self.buffered_seq;
        self.synced_seq
    }
}

/// No two operations write one key.
pub open spec fn keys_distinct(ops: Seq<OpView>) -> bool {
    forall|i: int, j: int|
        0 <= i < j < ops.len() ==> (#[trigger] ops[i]).key != (#[trigger] ops[j]).key
}

/// A write on its way to the log: it has its sequence number, and its record is to be
/// appended.
#[derive(Debug)]
pub struct PendingWrite {
    pub entry: WalEntry,
    /// The record's bytes.
    pub bytes: Vec<u8>,
    /// The log segment is to be synced and sealed first, and the record starts a new
    /// one.
    pub seals: bool,
}

impl PendingWrite {
    pub open spec fn wf(&self) -> bool {
        &&& keys_distinct(self.entry@.ops)
        &&& self.entry@.fits()
        &&& self.bytes@ == self.entry@.encoded()
    }
}

/// The written versions have the record's sequence number and distinct keys.
proof fn writes_are_coherent(e: WalView)
    requires
        keys_distinct(e.ops),
    ensures
        coherent(e.writes().to_set()),
        forall|v: Version| #[trigger] e.writes().to_set().contains(v) ==> v.0.seq == e.seq,
{
    let w = e.writes();
    assert forall|a: Version, b: Version|
        #![trigger w.to_set().contains(a), w.to_set().contains(b)]
        w.to_set().contains(a) && w.to_set().contains(b) && a.0.user_key == b.0.user_key && a.0.seq
            == b.0.seq implies a == b by {
        let i = choose|i: int| 0 <= i < w.len() && w[i] == a;
        let j = choose|j: int| 0 <= j < w.len() && w[j] == b;
        assert(e.ops[i].key == a.0.user_key && e.ops[j].key == b.0.user_key);
    }
    assert forall|a: Version| #[trigger] w.to_set().contains(a) implies proper(a) && a.0.seq
        == e.seq by {
        let i = choose|i: int| 0 <= i < w.len() && w[i] == a;
    }
}

/// Adding newer versions to a coherent store keeps it coherent.
proof fn newer_versions_join(a: Set<Version>, b: Set<Version>, n: u64)
    requires
        coherent(a),
        coherent(b),
        all_below(a, n),
        forall|v: Version| #[trigger] b.contains(v) ==> v.0.seq == n,
    ensures
        coherent(a.union(b)),
{
    let u = a.union(b);
    assert forall|v: Version| #[trigger] u.contains(v) implies proper(v) by {
        if !a.contains(v) {
            assert(b.contains(v));
        }
    }
    assert forall|v: Version, w: Version|
        #![trigger u.contains(v), u.contains(w)]
        u.contains(v) && u.contains(w) && v.0.user_key == w.0.user_key && v.0.seq
            == w.0.seq implies v == w by {
        if a.contains(v) {
            if !a.contains(w) {
                assert(b.contains(w));
            }
        } else {
            assert(b.contains(v));
            if a.contains(w) {
            } else {
                assert(b.contains(w));
            }
        }
    }
}

/// The layers with another memtable for writes, which holds more.
pub proof fn active_grows(old_l: Layers, new_l: Layers, added: Set<Version>)
    requires
        new_l.immutables == old_l.immutables,
        new_l.tables == old_l.tables,
        forall|v: Version| #[trigger]
            new_l.active@.contains(v) <==> old_l.active@.contains(v) || added.contains(v),
    ensures
        new_l.store() == old_l.store().union(added),
{
    assert forall|v: Version| #[trigger] new_l.store().contains(v) <==> old_l.store().union(
        added,
    ).contains(v) by {
        store_cases(old_l, v);
        store_cases(new_l, v);
        assert(in_frozen(old_l, v) == in_frozen(new_l, v));
    }
    assert(new_l.store() =~= old_l.store().union(added));
}

/// Freezing the memtable moves versions between layers.
pub proof fn freezing_keeps_store(old_l: Layers, new_l: Layers)
    requires
        new_l.tables == old_l.tables,
        new_l.active@ == Seq::<Version>::empty(),
        memtable_runs(new_l.immutables@) == memtable_runs(old_l.immutables@).push(old_l.active@),
    ensures
        new_l.store() == old_l.store(),
{
    let a = memtable_runs(old_l.immutables@);
    let b = memtable_runs(new_l.immutables@);
    assert forall|v: Version| #[trigger] new_l.store().contains(v) <==> old_l.store().contains(
        v,
    ) by {
        store_cases(old_l, v);
        store_cases(new_l, v);
        if in_frozen(new_l, v) {
            let i = choose|i: int|
                0 <= i < new_l.immutables@.len() && (#[trigger] new_l.immutables@[i])@.contains(v);
            assert(b[i].contains(v));
            if i < a.len() {
                assert(b[i] == a[i]);
                assert(old_l.immutables@[i]@.contains(v));
            } else {
                assert(b[i] == old_l.active@);
            }
        }
        if in_frozen(old_l, v) {
            let i = choose|i: int|
                0 <= i < old_l.immutables@.len() && (#[trigger] old_l.immutables@[i])@.contains(v);
            assert(b[i] == a[i]);
            assert(new_l.immutables@[i]@.contains(v));
        }
        if old_l.active@.contains(v) {
            assert(b[a.len() as int] == old_l.active@);
            assert(new_l.immutables@[a.len() as int]@.contains(v));
        }
    }
    assert(new_l.store() =~= old_l.store());
}

impl Engine {
    /// The record is newer than everything that the engine holds.
    pub open spec fn is_new(&self, e: WalView) -> bool {
        &&& e.seq < self.seq@
        &&& all_below(self.store(), e.seq)
        &&& tables_below(self.layers.tables@, e.seq)
    }

    /// The sizes that a record adds to can be represented.
    pub open spec fn room_for(&self, e: WalView) -> bool {
        &&& total_footprint(self.layers.active@) + total_footprint(e.writes()) <= usize::MAX
        &&& self.in_flight_wal_bytes + SEGMENT_HEADER_LEN + e.encoded().len() <= usize::MAX
        &&& self.active_wal_id < u64::MAX
    }

    /// Gives a write its sequence number and its log record.
    pub fn stage_write(&mut self, ops: Vec<WalOp>) -> (w: PendingWrite)
        requires
            old(self).seq@ < u64::MAX,
            keys_distinct(op_views(ops@)),
            (WalView { seq: old(self).seq@, ops: op_views(ops@) }).fits(),
        ensures
            w.wf(),
            w.entry@ == (WalView { seq: old(self).seq@, ops: op_views(ops@) }),
            w.seals == rolls(old(self).active_wal_size as nat, w.bytes@.len()),
            final(self).seq@ == old(self).seq@ + 1,
            *final(self) == (Engine { seq: final(self).seq, ..*old(self) }),
            old(self).wf() ==> final(self).wf() && final(self).is_new(w.entry@),
    {
        let seq: u64 = self.seq.next();
        let entry = WalEntry { seq, ops };
        let bytes: Vec<u8> = entry.encode();
        let seals: bool = should_roll(self.active_wal_size, bytes.len());
        PendingWrite { entry, bytes, seals }
    }

    /// The log's state after a record was appended.
    pub open spec fn logged(&self, before: &Engine, e: WalView) -> bool {
        self.logged_with(before, e, before.group_commit)
    }

    /// The log's state after a record was appended, and synced where commits are not
    /// grouped.
    pub open spec fn logged_with(&self, before: &Engine, e: WalView, grouped: bool) -> bool {
        let buffered = larger(before.buffered_seq, e.seq);
        let len = e.encoded().len();
        let seals = rolls(before.active_wal_size as nat, len);
        &&& self.buffered_seq == buffered
        &&& self.synced_seq == (if !grouped {
            buffered
        } else if seals {
            before.buffered_seq
        } else {
            before.synced_seq
        })
        &&& self.in_flight_wal_bytes == before.in_flight_wal_bytes + len
        &&& if seals {
            &&& self.active_wal_id == before.active_wal_id + 1
            &&& self.active_wal_size == SEGMENT_HEADER_LEN + len
            &&& self.sealed_segment_max_seq@ == before.sealed_segment_max_seq@.insert(
                before.active_wal_id,
                before.buffered_seq,
            )
        } else {
            &&& self.active_wal_id == before.active_wal_id
            &&& self.active_wal_size == before.active_wal_size + len
            &&& self.sealed_segment_max_seq == before.sealed_segment_max_seq
        }
    }

    /// Notes that a record was appended.
    pub(crate) fn note_append(&mut self, w: &PendingWrite)
        requires
            old(self).wf(),
            w.wf(),
            old(self).room_for(w.entry@),
            w.seals == rolls(old(self).active_wal_size as nat, w.bytes@.len()),
        ensures
            final(self).wf(),
            final(self).logged(old(self), w.entry@),
            *final(self) == (Engine {
                buffered_seq: final(self).buffered_seq,
                synced_seq: final(self).synced_seq,
                in_flight_wal_bytes: final(self).in_flight_wal_bytes,
                active_wal_id: final(self).active_wal_id,
                active_wal_size: final(self).active_wal_size,
                sealed_segment_max_seq: final(self).sealed_segment_max_seq,
                ..*old(self)
            }),
    {
        let len: usize = w.bytes.len();
        if w.seals {
            self.synced_seq = self.buffered_seq;
            self.sealed_segment_max_seq.insert(self.active_wal_id, self.buffered_seq);
            self.active_wal_id = self.active_wal_id + 1;
            self.active_wal_size = SEGMENT_HEADER_LEN;
        }
        self.active_wal_size = self.active_wal_size + len;
        self.in_flight_wal_bytes = self.in_flight_wal_bytes + len;
        if w.entry.seq > self.buffered_seq {
            self.buffered_seq = w.entry.seq;
        }
        if !self.group_commit {
            self.synced_seq = self.buffered_seq;
        }
    }

    /// Puts the versions that a record writes into the memtable, and drops the cached
    /// lookups of its keys.
    pub(crate) fn insert_entry(&mut self, e: &WalEntry)
        requires
            old(self).wf(),
            keys_distinct(e@.ops),
            old(self).is_new(e@),
            total_footprint(old(self).layers.active@) + total_footprint(e@.writes()) <= usize::MAX,
        ensures
            final(self).wf(),
            final(self).store() == old(self).store().union(e@.writes().to_set()),
            joins(final(self).layers.active@, old(self).layers.active@, e@.writes()),
            total_footprint(final(self).layers.active@) == total_footprint(
                old(self).layers.active@,
            ) + total_footprint(e@.writes()),
            final(self).layers.immutables == old(self).layers.immutables,
            final(self).layers.tables == old(self).layers.tables,
            final(self).result_cache is Some == old(self).result_cache is Some,
            *final(self) == (Engine {
                layers: final(self).layers,
                result_cache: final(self).result_cache,
                ..*old(self)
            }),
    {
        let ghost w = e@.writes();
        let ghost before = self.layers;
        let ghost start = *self;
        let n: usize = e.ops.len();
        let mut i: usize = 0;
        proof {
            assert(w.take(0) =~= Seq::<Version>::empty());
        }
        while i < n
            invariant
                i <= n == e.ops@.len(),
                w == e@.writes(),
                keys_distinct(e@.ops),
                start == *old(self),
                before == start.layers,
                start.is_new(e@),
                *self == (Engine {
                    layers: self.layers,
                    result_cache: self.result_cache,
                    ..start
                }),
                self.layers.active.wf(),
                self.layers.immutables == before.immutables,
                self.layers.tables == before.tables,
                forall|v: Version| #[trigger]
                    self.layers.active@.contains(v) <==> before.active@.contains(v) || w.take(
                        i as int,
                    ).contains(v),
                total_footprint(before.active@) + total_footprint(w) <= usize::MAX,
                total_footprint(self.layers.active@) == total_footprint(before.active@)
                    + total_footprint(w.take(i as int)),
                start.result_cache is Some == self.result_cache is Some,
                self.result_cache matches Some(c) ==> c.wf() && spared_results(
                    c@.slots,
                    start.result_cache->0@.slots,
                    e@.ops,
                    i as int,
                ),
                start.wf(),
            decreases n - i,
        {
            let op: &WalOp = &e.ops[i];
            assert(e@.ops[i as int] == op@);
            assert(w[i as int] == op_version(op@, e@.seq));
            let (key, entry) = op.to_pair(e.seq);
            let ghost new = (key@, entry@);
            let ghost active = self.layers.active@;
            proof {
                assert(w.take(i + 1).drop_last() =~= w.take(i as int));
                assert(w.take(i + 1).last() == new);
                footprint_prefix(w, i + 1);
                assert forall|v: Version| #[trigger] active.contains(v) implies v.0 != new.0 by {
                    if before.active@.contains(v) {
                        store_cases(before, v);
                        assert(start.store().contains(v));
                    } else {
                        let j = choose|j: int|
                            0 <= j < w.take(i as int).len() && w.take(i as int)[j] == v;
                        assert(w[j] == op_version(e@.ops[j], e@.seq));
                        assert(e@.ops[j].key != e@.ops[i as int].key);
                    }
                }
            }
            self.layers.active.insert(key, entry);
            proof {
                let t0 = w.take(i as int);
                let t1 = w.take(i + 1);
                assert forall|v: Version| #[trigger]
                    self.layers.active@.contains(v) <==> before.active@.contains(v) || t1.contains(
                    v,
                ) by {
                    if t1.contains(v) {
                        let j = choose|j: int| 0 <= j < t1.len() && t1[j] == v;
                        if j < i {
                            assert(t0[j] == v);
                        }
                    }
                    if t0.contains(v) {
                        let j = choose|j: int| 0 <= j < t0.len() && t0[j] == v;
                        assert(t1[j] == v);
                    }
                    if v == new {
                        assert(t1[i as int] == v);
                    }
                }
            }
            let mut cache: Option<ResultCache> = self.result_cache.take();
            if let Some(c) = &mut cache {
                proof {
                    without_result_facts(c@.slots, op@.key);
                }
                c.invalidate(op.key.as_slice());
            }
            self.result_cache = cache;
            i = i + 1;
        }
        proof {
            assert(w.take(n as int) =~= w);
            let added = w.to_set();
            assert forall|v: Version| #[trigger]
                self.layers.active@.contains(v) <==> before.active@.contains(v) || added.contains(
                v,
            ) by {}
            self.layers.active.lemma_sorted();
            active_grows(before, self.layers, added);
            writes_are_coherent(e@);
            newer_versions_join(before.store(), added, e@.seq);
            entry_keeps_sequence(before, self.layers, added, e@.seq);
            if let Some(c) = &self.result_cache {
                assert(cache_agrees(c@.slots, self.store())) by {
                    entry_keeps_cache(start, *self, e@, c@.slots);
                }
            }
        }
    }

    /// The engine is `before`, with the memtable frozen where it exceeds its size.
    pub open spec fn settled(&self, before: &Engine) -> bool {
        if total_footprint(before.layers.active@) <= before.cfg.memtable_flush_threshold {
            *self == *before
        } else {
            &&& self.layers.active@ == Seq::<Version>::empty()
            &&& memtable_runs(self.layers.immutables@) == memtable_runs(
                before.layers.immutables@,
            ).push(before.layers.active@)
            &&& self.layers.tables == before.layers.tables
            &&& *self == (Engine { layers: self.layers, ..*before })
        }
    }

    /// Freezes the memtable where it exceeds its size.
    pub fn maybe_freeze(&mut self)
        requires
            old(self).wf(),
        ensures
            final(self).wf(),
            final(self).store() == old(self).store(),
            final(self).settled(old(self)),
    {
        if self.layers.active.size_bytes() > self.cfg.memtable_flush_threshold {
            self.freeze_active();
        }
    }

    /// Freezes the memtable.
    pub fn freeze_active(&mut self)
        requires
            old(self).wf(),
        ensures
            final(self).wf(),
            final(self).store() == old(self).store(),
            final(self).layers.active@ == Seq::<Version>::empty(),
            memtable_runs(final(self).layers.immutables@) == memtable_runs(
                old(self).layers.immutables@,
            ).push(old(self).layers.active@),
            final(self).layers.tables == old(self).layers.tables,
            *final(self) == (Engine { layers: final(self).layers, ..*old(self) }),
    {
        let ghost before = self.layers;
        let mut frozen: Memtable = Memtable::new();
        std::mem::swap(&mut frozen, &mut self.layers.active);
        self.layers.immutables.push(Arc::new(frozen));
        proof {
            assert(memtable_runs(self.layers.immutables@) =~= memtable_runs(
                before.immutables@,
            ).push(before.active@));
            freezing_keeps_store(before, self.layers);
            let a = memtables_of(before);
            let b = memtables_of(self.layers);
            assert(b =~= a.push(Seq::<Version>::empty()));
            assert forall|i: int, j: int| 0 <= i < j < b.len() implies older(
                #[trigger] b[i],
                #[trigger] b[j],
            ) by {
                if j < a.len() {
                    assert(older(a[i], a[j]));
                }
            }
            assert forall|i: int, j: int|
                0 <= i < self.layers.tables@.len() && 0 <= j < b.len() implies all_above(
                #[trigger] b[j],
                (#[trigger] self.layers.tables@[i]).meta.max_seq,
            ) by {
                if j < a.len() {
                    assert(all_above(a[j], before.tables@[i].meta.max_seq));
                }
            }
            assert forall|i: int| 0 <= i < self.layers.immutables@.len() implies (
            #[trigger] self.layers.immutables@[i]).wf() by {
                if i < before.immutables@.len() {
                    assert(before.immutables@[i].wf());
                }
            }
        }
    }

    /// Completes a write whose record was appended to the log, and synced where commits
    /// are not grouped. A write that could not be logged leaves nothing behind.
    pub fn finish_write(&mut self, w: PendingWrite, logged: EngineResult<()>) -> (r: EngineResult<
        u64,
    >)
        requires
            old(self).wf(),
            w.wf(),
            old(self).is_new(w.entry@),
            old(self).room_for(w.entry@),
            w.seals == rolls(old(self).active_wal_size as nat, w.bytes@.len()),
        ensures
            final(self).wf(),
            match logged {
                Ok(_) => r == Ok::<u64, EngineError>(w.entry.seq) && final(self).seq == old(
                    self,
                ).seq && final(self).wrote(old(self), w.entry@) && final(self).flags_of(old(self)),
                Err(e) => r == Err::<u64, EngineError>(e) && *final(self) == *old(self),
            },
    {
        match logged {
            Err(e) => Err(e),
            Ok(_) => {
                self.note_append(&w);
                self.insert_entry(&w.entry);
                self.maybe_freeze();
                Ok(w.entry.seq)
            },
        }
    }

    /// The memtable took up what the record writes, and was frozen where that made it
    /// exceed its size.
    pub open spec fn took_up(&self, before: &Engine, e: WalView) -> bool {
        exists|grown: Seq<Version>| #[trigger]
            joins(grown, before.layers.active@, e.writes()) && if total_footprint(grown)
                <= before.cfg.memtable_flush_threshold {
                self.layers.active@ == grown && self.layers.immutables == before.layers.immutables
            } else {
                &&& self.layers.active@ == Seq::<Version>::empty()
                &&& memtable_runs(self.layers.immutables@) == memtable_runs(
                    before.layers.immutables@,
                ).push(grown)
            }
    }

    /// The engine holds what it held before and what the record writes, and the record
    /// is in the log.
    pub open spec fn wrote_record(&self, before: &Engine, e: WalView) -> bool {
        &&& self.store() == before.store().union(e.writes().to_set())
        &&& self.layers.tables == before.layers.tables
        &&& self.logged(before, e)
        &&& self.same_setup(before)
    }

    /// The record was written, and the memtable frozen where it then exceeded its size.
    pub open spec fn wrote(&self, before: &Engine, e: WalView) -> bool {
        self.wrote_record(before, e) && self.took_up(before, e)
    }

    /// The slowdown and the charge are those of `other`.
    pub open spec fn flags_of(&self, other: &Engine) -> bool {
        self.pending_write_slowdown_us == other.pending_write_slowdown_us && self.stall_charge
            == other.stall_charge
    }
}

/// `s` lists in order what `a` and `b` hold.
pub open spec fn joins(s: Seq<Version>, a: Seq<Version>, b: Seq<Version>) -> bool {
    &&& sorted(s)
    &&& forall|v: Version| #[trigger] s.contains(v) <==> a.contains(v) || b.contains(v)
}

/// The cached results that stay: those whose keys are none of the first `n` written.
pub open spec fn spared_results(
    now: Seq<ResultView>,
    before: Seq<ResultView>,
    ops: Seq<OpView>,
    n: int,
) -> bool {
    forall|x: ResultView| #[trigger]
        now.contains(x) ==> before.contains(x) && forall|j: int|
            0 <= j < n ==> (#[trigger] ops[j]).key != x.key
}

pub(crate) proof fn footprint_prefix(s: Seq<Version>, n: int)
    requires
        0 < n <= s.len(),
    ensures
        total_footprint(s.take(n)) <= total_footprint(s),
        total_footprint(s.take(n)) == total_footprint(s.take(n - 1)) + footprint(s[n - 1]),
    decreases s.len() - n,
{
    assert(s.take(n).drop_last() =~= s.take(n - 1));
    if n == s.len() {
        assert(s.take(n) =~= s);
    } else {
        footprint_prefix(s, n + 1);
    }
}

proof fn entry_keeps_sequence(old_l: Layers, new_l: Layers, added: Set<Version>, n: u64)
    requires
        in_sequence(old_l),
        new_l.immutables == old_l.immutables,
        new_l.tables == old_l.tables,
        forall|v: Version| #[trigger]
            new_l.active@.contains(v) <==> old_l.active@.contains(v) || added.contains(v),
        forall|v: Version| #[trigger] added.contains(v) ==> v.0.seq == n,
        all_below(old_l.store(), n),
        tables_below(old_l.tables@, n),
    ensures
        in_sequence(new_l),
{
    let a = memtables_of(old_l);
    let b = memtables_of(new_l);
    let last = a.len() - 1;
    assert forall|i: int, j: int| 0 <= i < j < b.len() implies older(#[trigger] b[i], #[trigger] b[j]) by {
        assert(b[i] == a[i]);
        assert forall|v: Version, w: Version|
            #![trigger b[i].contains(v), b[j].contains(w)]
            b[i].contains(v) && b[j].contains(w) implies v.0.seq < w.0.seq by {
            assert(older(a[i], a[j]));
            assert(a[i].contains(v));
            if j < last {
                assert(b[j] == a[j]);
            } else if old_l.active@.contains(w) {
                assert(a[j].contains(w));
            } else {
                store_cases(old_l, v);
                assert(old_l.immutables@[i]@.contains(v));
                assert(old_l.store().contains(v));
            }
        }
    }
    assert forall|i: int, j: int| 0 <= i < new_l.tables@.len() && 0 <= j < b.len() implies all_above(
        #[trigger] b[j],
        (#[trigger] new_l.tables@[i]).meta.max_seq,
    ) by {
        assert(all_above(a[j], old_l.tables@[i].meta.max_seq));
        assert forall|v: Version| #[trigger] b[j].contains(v) implies v.0.seq
            > new_l.tables@[i].meta.max_seq by {
            if j < last {
                assert(b[j] == a[j]);
            } else if old_l.active@.contains(v) {
                assert(a[j].contains(v));
            }
        }
    }
}

proof fn entry_keeps_cache(before: Engine, after: Engine, e: WalView, slots: Seq<ResultView>)
    requires
        before.wf(),
        before.result_cache is Some,
        coherent(after.store()),
        after.store() == before.store().union(e.writes().to_set()),
        spared_results(slots, before.result_cache->0@.slots, e.ops, e.ops.len() as int),
    ensures
        cache_agrees(slots, after.store()),
{
    let old_slots = before.result_cache->0@.slots;
    assert forall|i: int| 0 <= i < slots.len() implies cached_result_holds(
        #[trigger] slots[i],
        after.store(),
    ) by {
        let x = slots[i];
        assert(slots.contains(x));
        let j = choose|j: int| 0 <= j < old_slots.len() && old_slots[j] == x;
        assert(cached_result_holds(old_slots[j], before.store()));
        assert forall|v: Version|
            v.0.user_key == x.key implies (#[trigger] before.store().contains(v)
            <==> after.store().contains(v)) by {
            if e.writes().to_set().contains(v) {
                let k = choose|k: int| 0 <= k < e.writes().len() && e.writes()[k] == v;
                assert(e.ops[k].key == v.0.user_key);
            }
        }
        newest_depends_on_key(before.store(), after.store(), x.key, u64::MAX);
    }
}

} // verus!
