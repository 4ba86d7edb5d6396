//! Writes: puts, deletions and atomic batches, with and without a write policy.

use vstd::prelude::*;
use crate::bytes::{bytes_eq, copy_bytes};
use crate::compaction::{catalog_bytes, plannable};
use crate::engine::jobs::catalog_bytes_grow;
use crate::engine::write::{PendingWrite, WriteGate};
use crate::engine::{batch_ops, BatchOp, Engine};
use crate::errors::{EngineError, EngineResult};
use crate::keys::{
    user_key_fault, user_key_ok, validate_user_key, validate_value, value_fault, value_ok,
    MAX_BATCH_KEYS, MAX_KEY_BYTES, MAX_VALUE_BYTES,
};
use crate::manifest::MetaView;
use crate::memtable::total_footprint;
use crate::records::Version;
use crate::store::value_at;
use crate::tenant_fair::{tenant_bytes, tenant_from_user_key};
use crate::text::{decimal, text_of, text_with_number};
use crate::codec::be_bytes_len;
use crate::wal::{op_version, op_views, ops_encoded, OpView, WalCommand, WalOp, WalView};

verus! {

/// Why a write is refused.
pub enum Refusal {
    InvalidKey(Seq<char>),
    InvalidValue(Seq<char>),
    Busy(Seq<char>),
}

impl Refusal {
    /// The error that tells of the refusal.
    pub open spec fn is(self, e: EngineError) -> bool {
        match self {
            Refusal::InvalidKey(m) => e matches EngineError::InvalidKey(t) && t@ == m,
            Refusal::InvalidValue(m) => e matches EngineError::InvalidValue(t) && t@ == m,
            Refusal::Busy(m) => e matches EngineError::EngineBusy(t) && t@ == m,
        }
    }
}

/// The operation of a put.
pub open spec fn put_op(key: Seq<u8>, value: Seq<u8>, expires_at: u64) -> OpView {
    OpView { command: WalCommand::Put, expires_at, key, value }
}

/// The operation of a deletion.
pub open spec fn del_op(key: Seq<u8>) -> OpView {
    OpView { command: WalCommand::Del, expires_at: 0, key, value: Seq::empty() }
}

/// The operation puts a value on behalf of a tenant.
pub open spec fn takes_share(op: OpView) -> bool {
    op.command is Put && tenant_bytes(op.key) is Some
}

/// One of the first `n` operations puts a value on behalf of a tenant.
pub open spec fn some_take_share(ops: Seq<OpView>, n: int) -> bool {
    exists|i: int| 0 <= i < n && takes_share(#[trigger] ops[i])
}

/// Why operations are refused for their tenants' shares of the memtable, if they are.
pub open spec fn share_refusal(ops: Seq<OpView>, gate: WriteGate) -> Option<Refusal> {
    if !gate.admits && some_take_share(ops, ops.len() as int) {
        Some(Refusal::Busy("fair memtable share exhausted"@))
    } else {
        None
    }
}

/// The first fault among the first `n` operations of a batch: of each in turn the key,
/// the value, and whether an earlier operation writes the same key.
pub open spec fn batch_fault(ops: Seq<OpView>, n: int) -> Option<Refusal>
    decreases n,
{
    if n <= 0 {
        None
    } else {
        match batch_fault(ops, n - 1) {
            Some(f) => Some(f),
            None => {
                let op = ops[n - 1];
                if !user_key_ok(op.key) {
                    Some(Refusal::InvalidKey(user_key_fault(op.key)))
                } else if !value_ok(op.value) {
                    Some(Refusal::InvalidValue(value_fault(op.value)))
                } else if key_occurs(ops, n - 1, op.key) {
                    Some(Refusal::InvalidKey("duplicate key in batch"@))
                } else {
                    None
                }
            },
        }
    }
}

/// One of the first `n` operations writes the key.
pub open spec fn key_occurs(ops: Seq<OpView>, n: int, key: Seq<u8>) -> bool {
    exists|i: int| 0 <= i < n && (#[trigger] ops[i]).key == key
}

/// Why a batch is refused before any other check.
pub open spec fn batch_size_fault(n: nat) -> Option<Refusal> {
    if n == 0 {
        Some(Refusal::InvalidKey("empty batch"@))
    } else if n > MAX_BATCH_KEYS {
        Some(
            Refusal::InvalidKey(
                "batch size "@ + decimal(n) + " exceeds MAX_BATCH_KEYS 1024"@,
            ),
        )
    } else {
        None
    }
}

pub proof fn faultless_batch(ops: Seq<OpView>, n: int)
    requires
        0 <= n <= ops.len(),
        batch_fault(ops, n) is None,
    ensures
        forall|i: int|
            0 <= i < n ==> user_key_ok((#[trigger] ops[i]).key) && value_ok(ops[i].value),
        forall|i: int, j: int|
            0 <= i < j < n ==> (#[trigger] ops[i]).key != (#[trigger] ops[j]).key,
    decreases n,
{
    if n > 0 {
        faultless_batch(ops, n - 1);
        assert forall|i: int| 0 <= i < n - 1 implies (#[trigger] ops[i]).key != ops[n - 1].key by {
            assert(!key_occurs(ops, n - 1, ops[n - 1].key));
        }
    }
}

proof fn fault_stays(ops: Seq<OpView>, k: int, n: int)
    requires
        0 < k <= n,
        batch_fault(ops, k) is Some,
    ensures
        batch_fault(ops, n) == batch_fault(ops, k),
    decreases n,
{
    if k < n {
        fault_stays(ops, k, n - 1);
    }
}

proof fn ops_encoded_len(ops: Seq<OpView>)
    requires
        ops_small(ops),
    ensures
        ops_encoded(ops).len() <= ops.len() * 16842769,
    decreases ops.len(),
{
    if ops.len() > 0 {
        let t = ops.skip(1);
        assert(ops_small(t)) by {
            assert forall|i: int| 0 <= i < t.len() implies (#[trigger] t[i]).key.len()
                <= MAX_KEY_BYTES && t[i].value.len() <= MAX_VALUE_BYTES by {
                assert(t[i] == ops[i + 1]);
            }
        }
        ops_encoded_len(t);
        be_bytes_len(ops[0].expires_at as nat, 8);
        be_bytes_len(ops[0].key.len(), 4);
        be_bytes_len(ops[0].value.len(), 4);
        assert(ops[0].key.len() <= MAX_KEY_BYTES);
    }
}

/// Keys and values are within their limits.
pub open spec fn ops_small(ops: Seq<OpView>) -> bool {
    forall|i: int|
        0 <= i < ops.len() ==> (#[trigger] ops[i]).key.len() <= MAX_KEY_BYTES && ops[i].value.len()
            <= MAX_VALUE_BYTES
}

/// A record within the limits fits its length fields.
pub proof fn small_entry_fits(e: WalView)
    requires
        ops_small(e.ops),
        e.ops.len() <= MAX_BATCH_KEYS,
    ensures
        e.fits(),
{
    ops_encoded_len(e.ops);
    be_bytes_len(e.seq as nat, 8);
    be_bytes_len(e.ops.len(), 4);
    assert forall|i: int| 0 <= i < e.ops.len() implies (#[trigger] e.ops[i]).fits() by {}
}

proof fn ops_encoded_push(s: Seq<OpView>, op: OpView)
    ensures
        ops_encoded(s.push(op)) == ops_encoded(s) + op.encoded(),
    decreases s.len(),
{
    if s.len() == 0 {
        assert(s.push(op).skip(1) =~= Seq::<OpView>::empty());
        assert(ops_encoded(s.push(op).skip(1)) =~= Seq::<u8>::empty());
        assert(ops_encoded(s.push(op)) =~= ops_encoded(s) + op.encoded());
    } else {
        assert(s.push(op).skip(1) =~= s.skip(1).push(op));
        ops_encoded_push(s.skip(1), op);
        assert(ops_encoded(s.push(op)) =~= ops_encoded(s) + op.encoded());
    }
}

impl Engine {
    /// The engine can take a write of these operations: the sequence numbers are not
    /// exhausted, and the sizes can be represented.
    pub open spec fn can_take(&self, ops: Seq<OpView>) -> bool {
        self.seq@ < u64::MAX && self.room_for(WalView { seq: self.seq@, ops })
    }

    /// The engine's measures for backpressure can be represented.
    pub open spec fn measurable(&self) -> bool {
        plannable(self.catalog(), self.cfg.compaction) && self.cfg.max_immutable_memtables
            < usize::MAX
    }

    /// Whether the compaction debt can be summed up and the flush queue bounded.
    pub fn can_measure(&self) -> (r: bool)
        ensures
            r == self.measurable(),
    {
        let ghost cat = self.catalog();
        let mut bytes: u64 = 0;
        let mut i: usize = 0;
        assert(cat.take(0) =~= Seq::<MetaView>::empty());
        while i < self.layers.tables.len()
            invariant
                i <= self.layers.tables@.len(),
                cat == self.catalog(),
                bytes == catalog_bytes(cat.take(i as int)),
            decreases self.layers.tables.len() - i,
        {
            let size: u64 = self.layers.tables[i].meta.size_bytes;
            proof {
                assert(cat.take(i + 1).drop_last() =~= cat.take(i as int));
                assert(cat.take(i + 1).last() == self.layers.tables@[i as int].meta@);
                catalog_bytes_grow(cat, i + 1);
            }
            match bytes.checked_add(size) {
                Some(sum) => {
                    bytes = sum;
                },
                None => {
                    return false;
                },
            }
            i = i + 1;
        }
        assert(cat.take(cat.len() as int) =~= cat);
        self.cfg.compaction.max_level < u8::MAX && self.cfg.max_immutable_memtables < usize::MAX
    }

    /// Whether the engine can take a write of these operations.
    pub fn has_room(&self, ops: &Vec<WalOp>) -> (r: bool)
        requires
            self.wf(),
        ensures
            r == self.can_take(op_views(ops@)),
    {
        let ghost views = op_views(ops@);
        let ghost e = WalView { seq: self.seq@, ops: views };
        let ghost w = e.writes();
        proof {
            be_bytes_len(e.seq as nat, 8);
            be_bytes_len(e.ops.len(), 4);
            be_bytes_len(e.payload().len(), 8);
            be_bytes_len(crate::checksum::crc32(e.payload()) as nat, 4);
        }
        assert(e.encoded().len() == 24 + ops_encoded(views).len());
        if self.seq.peek() == u64::MAX || self.active_wal_id == u64::MAX {
            return false;
        }
        let mut foot: usize = self.layers.active.size_bytes();
        let flying: usize = self.in_flight_wal_bytes;
        if usize::MAX - flying < 33 {
            return false;
        }
        let mut bytes: usize = flying + 33;
        let mut i: usize = 0;
        proof {
            assert(w.take(0) =~= Seq::<Version>::empty());
            assert(views.take(0) =~= Seq::<OpView>::empty());
        }
        while i < ops.len()
            invariant
                i <= ops@.len(),
                views == op_views(ops@),
                e == (WalView { seq: self.seq@, ops: views }),
                w == e.writes(),
                self.wf(),
                foot == total_footprint(self.layers.active@) + total_footprint(w.take(i as int)),
                bytes == self.in_flight_wal_bytes + 33 + ops_encoded(views.take(i as int)).len(),
                e.encoded().len() == 24 + ops_encoded(views).len(),
            decreases ops.len() - i,
        {
            let op: &WalOp = &ops[i];
            proof {
                assert(views[i as int] == op@);
                assert(w[i as int] == op_version(op@, e.seq));
                assert(w.take(i + 1).drop_last() =~= w.take(i as int));
                assert(w.take(i + 1).last() == w[i as int]);
                assert(views.take(i + 1) =~= views.take(i as int).push(op@));
                ops_encoded_push(views.take(i as int), op@);
                be_bytes_len(op@.expires_at as nat, 8);
                be_bytes_len(op@.key.len(), 4);
                be_bytes_len(op@.value.len(), 4);
                sizes_grow(w, views, i + 1);
            }
            let k: usize = op.key.len();
            let v: usize = op.value.len();
            let kept: usize = match op.command {
                WalCommand::Put => v,
                WalCommand::Del => 0,
            };
            if usize::MAX - k < 65 || usize::MAX - k - 65 < kept || usize::MAX - k - 65 - kept
                < foot {
                return false;
            }
            foot = foot + k + 65 + kept;
            if usize::MAX - k < 17 || usize::MAX - k - 17 < v || usize::MAX - k - 17 - v < bytes {
                return false;
            }
            bytes = bytes + k + 17 + v;
            i = i + 1;
        }
        assert(w.take(w.len() as int) =~= w);
        assert(views.take(views.len() as int) =~= views);
        true
    }
}

proof fn sizes_grow(w: Seq<Version>, ops: Seq<OpView>, n: int)
    requires
        0 <= n <= ops.len(),
        w.len() == ops.len(),
    ensures
        total_footprint(w.take(n)) <= total_footprint(w),
        ops_encoded(ops.take(n)).len() <= ops_encoded(ops).len(),
    decreases ops.len() - n,
{
    if n == ops.len() {
        assert(w.take(n) =~= w);
        assert(ops.take(n) =~= ops);
    } else {
        sizes_grow(w, ops, n + 1);
        assert(w.take(n + 1).drop_last() =~= w.take(n));
        assert(ops.take(n + 1) =~= ops.take(n).push(ops[n]));
        ops_encoded_push(ops.take(n), ops[n]);
    }
}

impl Engine {
    /// Why a put is refused before its tenant's share is looked at, if it is.
    pub open spec fn put_blocked(&self, key: Seq<u8>, value: Seq<u8>, gate: WriteGate) -> Option<
        Refusal,
    > {
        if !user_key_ok(key) {
            Some(Refusal::InvalidKey(user_key_fault(key)))
        } else if !value_ok(value) {
            Some(Refusal::InvalidValue(value_fault(value)))
        } else {
            match self.busy_reason(key, gate) {
                Some(m) => Some(Refusal::Busy(m)),
                None => None,
            }
        }
    }

    /// Why a put is refused, if it is.
    pub open spec fn put_refusal(&self, key: Seq<u8>, value: Seq<u8>, gate: WriteGate) -> Option<
        Refusal,
    > {
        match self.put_blocked(key, value, gate) {
            Some(f) => Some(f),
            None => share_refusal(seq![put_op(key, value, 0)], gate),
        }
    }

    /// Why a deletion is refused, if it is.
    pub open spec fn del_refusal(&self, key: Seq<u8>, gate: WriteGate) -> Option<Refusal> {
        if !user_key_ok(key) {
            Some(Refusal::InvalidKey(user_key_fault(key)))
        } else {
            match self.busy_reason(key, gate) {
                Some(m) => Some(Refusal::Busy(m)),
                None => None,
            }
        }
    }

    /// Why a batch is refused, if it is.
    pub open spec fn batch_refusal(&self, ops: Seq<OpView>, gate: WriteGate) -> Option<Refusal> {
        match self.batch_blocked(ops, gate) {
            Some(f) => Some(f),
            None => share_refusal(ops, gate),
        }
    }

    /// Why a batch is refused before its tenants' shares are looked at, if it is.
    pub open spec fn batch_blocked(&self, ops: Seq<OpView>, gate: WriteGate) -> Option<Refusal> {
        match batch_size_fault(ops.len()) {
            Some(f) => Some(f),
            None => match batch_fault(ops, ops.len() as int) {
                Some(f) => Some(f),
                None => match self.busy_reason(ops[0].key, gate) {
                    Some(m) => Some(Refusal::Busy(m)),
                    None => None,
                },
            },
        }
    }

    /// Only the slowdown and the charge may differ.
    pub open spec fn untouched(&self, before: &Engine) -> bool {
        *self == (Engine {
            pending_write_slowdown_us: self.pending_write_slowdown_us,
            stall_charge: self.stall_charge,
            ..*before
        })
    }

    /// Checks that a put is valid and accepted now, but for its tenant's share.
    pub(crate) fn check_put(&mut self, key: &[u8], value: &[u8], gate: WriteGate) -> (r:
        EngineResult<()>)
        requires
            old(self).measurable(),
        ensures
            match r {
                Ok(_) => old(self).put_blocked(key@, value@, gate) is None && *final(self) == old(
                    self,
                ).accepting(key@, gate),
                Err(e) => old(self).put_blocked(key@, value@, gate) matches Some(f) && f.is(e),
            },
            final(self).untouched(old(self)),
    {
        match validate_user_key(key) {
            Err(e) => {
                return Err(e);
            },
            Ok(_) => {},
        }
        match validate_value(value) {
            Err(e) => {
                return Err(e);
            },
            Ok(_) => {},
        }
        self.check_backpressure_for_key(key, gate)
    }

    /// Checks that a put is valid and accepted now.
    pub fn prepare_put(&mut self, key: &[u8], value: &[u8], gate: WriteGate) -> (r: EngineResult<()>)
        requires
            old(self).measurable(),
        ensures
            match r {
                Ok(_) => old(self).put_refusal(key@, value@, gate) is None && *final(self) == old(
                    self,
                ).accepting(key@, gate),
                Err(e) => old(self).put_refusal(key@, value@, gate) matches Some(f) && f.is(e),
            },
            final(self).untouched(old(self)),
    {
        match self.check_put(key, value, gate) {
            Err(e) => Err(e),
            Ok(_) => {
                proof {
                    share_of_put(key@, value@, 0);
                }
                admit_put(key, gate)
            },
        }
    }

    /// Checks that a deletion is valid and accepted now.
    pub fn prepare_del(&mut self, key: &[u8], gate: WriteGate) -> (r: EngineResult<()>)
        requires
            old(self).measurable(),
        ensures
            match r {
                Ok(_) => old(self).del_refusal(key@, gate) is None && *final(self) == old(
                    self,
                ).accepting(key@, gate),
                Err(e) => old(self).del_refusal(key@, gate) matches Some(f) && f.is(e),
            },
            final(self).untouched(old(self)),
    {
        match validate_user_key(key) {
            Err(e) => {
                return Err(e);
            },
            Ok(_) => {},
        }
        self.check_backpressure_for_key(key, gate)
    }

    /// Checks that a batch is valid and accepted now.
    pub fn prepare_batch(&mut self, ops: &Vec<BatchOp>, gate: WriteGate) -> (r: EngineResult<()>)
        requires
            old(self).measurable(),
        ensures
            match r {
                Ok(_) => old(self).batch_refusal(batch_ops(ops@), gate) is None && *final(self)
                    == old(self).accepting(batch_ops(ops@)[0].key, gate),
                Err(e) => old(self).batch_refusal(batch_ops(ops@), gate) matches Some(f) && f.is(e),
            },
            final(self).untouched(old(self)),
    {
        match self.check_batch(ops, gate) {
            Err(e) => Err(e),
            Ok(_) => admit_batch(ops, gate),
        }
    }

    /// Checks that a batch is valid and accepted now, but for its tenants' shares.
    pub(crate) fn check_batch(&mut self, ops: &Vec<BatchOp>, gate: WriteGate) -> (r: EngineResult<
        (),
    >)
        requires
            old(self).measurable(),
        ensures
            match r {
                Ok(_) => old(self).batch_blocked(batch_ops(ops@), gate) is None && *final(self)
                    == old(self).accepting(batch_ops(ops@)[0].key, gate),
                Err(e) => old(self).batch_blocked(batch_ops(ops@), gate) matches Some(f) && f.is(e),
            },
            final(self).untouched(old(self)),
    {
        let ghost views = batch_ops(ops@);
        let n: usize = ops.len();
        if n == 0 {
            return Err(EngineError::InvalidKey(text_of("empty batch")));
        }
        if n > MAX_BATCH_KEYS {
            return Err(
                EngineError::InvalidKey(
                    text_with_number("batch size ", n as u64, " exceeds MAX_BATCH_KEYS 1024"),
                ),
            );
        }
        let mut i: usize = 0;
        while i < n
            invariant
                i <= n == ops@.len(),
                0 < n <= MAX_BATCH_KEYS,
                views == batch_ops(ops@),
                batch_fault(views, i as int) is None,
                *self == *old(self),
            decreases n - i,
        {
            let op: &BatchOp = &ops[i];
            assert(views[i as int] == op.op());
            proof {
                if batch_fault(views, i + 1) is Some {
                    fault_stays(views, i + 1, n as int);
                }
            }
            match validate_user_key(op.key()) {
                Err(e) => {
                    return Err(e);
                },
                Ok(_) => {},
            }
            match op {
                BatchOp::Put { value, .. } => {
                    match validate_value(value.as_slice()) {
                        Err(e) => {
                            return Err(e);
                        },
                        Ok(_) => {},
                    }
                },
                BatchOp::Del { .. } => {},
            }
            let mut j: usize = 0;
            while j < i
                invariant
                    j <= i < n == ops@.len(),
                    views == batch_ops(ops@),
                    op.op() == views[i as int],
                    forall|k: int| 0 <= k < j ==> (#[trigger] views[k]).key != op.op().key,
                    0 < n <= MAX_BATCH_KEYS,
                    batch_fault(views, i as int) is None,
                    user_key_ok(op.op().key),
                    value_ok(op.op().value),
                    batch_fault(views, i + 1) is Some ==> batch_fault(views, n as int)
                        == batch_fault(views, i + 1),
                    *self == *old(self),
                decreases i - j,
            {
                assert(views[j as int] == ops@[j as int].op());
                if bytes_eq(ops[j].key(), op.key()) {
                    assert(key_occurs(views, i as int, op.op().key));
                    return Err(EngineError::InvalidKey(text_of("duplicate key in batch")));
                }
                j = j + 1;
            }
            assert(!key_occurs(views, i as int, op.op().key));
            i = i + 1;
        }
        assert(views[0] == ops@[0].op());
        self.check_backpressure_for_key(ops[0].key(), gate)
    }

    /// Writes a value under a key, and returns the write's sequence number. An
    /// `expires_at` of zero means no expiry. The log is taken to accept the record;
    /// where it may fail, `prepare_put`, `stage_write` and `finish_write` do the same
    /// in steps.
    pub fn put(&mut self, key: Vec<u8>, value: Vec<u8>, expires_at: u64, gate: WriteGate) -> (r:
        EngineResult<u64>)
        requires
            old(self).wf(),
            old(self).measurable(),
            old(self).can_take(seq![put_op(key@, value@, expires_at)]),
        ensures
            final(self).wf(),
            match r {
                Ok(n) => {
                    &&& old(self).put_refusal(key@, value@, gate) is None
                    &&& n == old(self).seq@
                    &&& final(self).seq@ == n + 1
                    &&& final(self).wrote(
                        old(self),
                        WalView { seq: n, ops: seq![put_op(key@, value@, expires_at)] },
                    )
                    &&& final(self).pending_write_slowdown_us == old(self).slowdown_us(key@, gate)
                },
                Err(e) => {
                    &&& old(self).put_refusal(key@, value@, gate) matches Some(f) && f.is(e)
                    &&& final(self).untouched(old(self))
                },
            },
    {
        match self.prepare_put(key.as_slice(), value.as_slice(), gate) {
            Err(e) => {
                return Err(e);
            },
            Ok(_) => {},
        }
        let mut ops: Vec<WalOp> = Vec::new();
        let ghost op = put_op(key@, value@, expires_at);
        ops.push(WalOp { command: WalCommand::Put, expires_at, key, value });
        assert(op_views(ops@) =~= seq![op]);
        proof {
            small_entry_fits(WalView { seq: self.seq@, ops: seq![op] });
        }
        let w: PendingWrite = self.stage_write(ops);
        self.finish_write(w, Ok(()))
    }

    /// Deletes a key. Returns whether it held a value, and the write's sequence number.
    pub fn del(&mut self, key: Vec<u8>, gate: WriteGate, now_ms: u64) -> (r: EngineResult<
        (bool, u64),
    >)
        requires
            old(self).wf(),
            old(self).measurable(),
            old(self).can_take(seq![del_op(key@)]),
        ensures
            final(self).wf(),
            match r {
                Ok((existed, n)) => {
                    &&& old(self).del_refusal(key@, gate) is None
                    &&& existed == (value_at(old(self).store(), key@, u64::MAX, now_ms) is Some)
                    &&& n == old(self).seq@
                    &&& final(self).seq@ == n + 1
                    &&& final(self).wrote(
                        old(self),
                        WalView { seq: n, ops: seq![del_op(key@)] },
                    )
                    &&& final(self).pending_write_slowdown_us == old(self).slowdown_us(key@, gate)
                },
                Err(e) => {
                    &&& old(self).del_refusal(key@, gate) matches Some(f) && f.is(e)
                    &&& final(self).untouched(old(self))
                },
            },
    {
        match self.prepare_del(key.as_slice(), gate) {
            Err(e) => {
                return Err(e);
            },
            Ok(_) => {},
        }
        let existed: bool = self.layers.read(key.as_slice(), u64::MAX, now_ms).is_some();
        let mut ops: Vec<WalOp> = Vec::new();
        let ghost op = del_op(key@);
        let value: Vec<u8> = Vec::new();
        ops.push(WalOp { command: WalCommand::Del, expires_at: 0, key, value });
        assert(op_views(ops@) =~= seq![op]);
        proof {
            small_entry_fits(WalView { seq: self.seq@, ops: seq![op] });
        }
        let w: PendingWrite = self.stage_write(ops);
        match self.finish_write(w, Ok(())) {
            Ok(n) => Ok((existed, n)),
            Err(e) => Err(e),
        }
    }

    /// Writes a batch: all of its operations or none. They share one sequence number,
    /// so that no key may occur twice.
    pub fn write_batch(&mut self, ops: Vec<BatchOp>, gate: WriteGate) -> (r: EngineResult<u64>)
        requires
            old(self).wf(),
            old(self).measurable(),
            old(self).can_take(batch_ops(ops@)),
        ensures
            final(self).wf(),
            match r {
                Ok(n) => {
                    &&& old(self).batch_refusal(batch_ops(ops@), gate) is None
                    &&& n == old(self).seq@
                    &&& final(self).seq@ == n + 1
                    &&& final(self).wrote(old(self), WalView { seq: n, ops: batch_ops(ops@) })
                    &&& final(self).pending_write_slowdown_us == old(self).slowdown_us(
                        batch_ops(ops@)[0].key,
                        gate,
                    )
                },
                Err(e) => {
                    &&& old(self).batch_refusal(batch_ops(ops@), gate) matches Some(f) && f.is(e)
                    &&& final(self).untouched(old(self))
                },
            },
    {
        match self.prepare_batch(&ops, gate) {
            Err(e) => {
                return Err(e);
            },
            Ok(_) => {},
        }
        let ghost views = batch_ops(ops@);
        proof {
            faultless_batch(views, views.len() as int);
            small_entry_fits(WalView { seq: self.seq@, ops: views });
        }
        let wal_ops: Vec<WalOp> = to_wal_ops(&ops);
        let w: PendingWrite = self.stage_write(wal_ops);
        self.finish_write(w, Ok(()))
    }
}

/// A put takes a share where its key names a tenant.
pub(crate) proof fn share_of_put(key: Seq<u8>, value: Seq<u8>, expires_at: u64)
    ensures
        some_take_share(seq![put_op(key, value, expires_at)], 1) <==> tenant_bytes(key) is Some,
{
    let s = seq![put_op(key, value, expires_at)];
    assert(takes_share(s[0]) <==> tenant_bytes(key) is Some);
}

/// Whether the tenant of a key has its share of the memtable for a put.
pub(crate) fn admit_put(key: &[u8], gate: WriteGate) -> (r: EngineResult<()>)
    ensures
        r is Ok <==> gate.admits || tenant_bytes(key@) is None,
        r matches Err(e) ==> Refusal::Busy("fair memtable share exhausted"@).is(e),
{
    if !gate.admits && tenant_from_user_key(key).is_some() {
        return Err(EngineError::EngineBusy(text_of("fair memtable share exhausted")));
    }
    Ok(())
}

/// Whether the tenants of a batch have their shares of the memtable for its puts.
pub(crate) fn admit_batch(ops: &Vec<BatchOp>, gate: WriteGate) -> (r: EngineResult<()>)
    ensures
        match r {
            Ok(_) => share_refusal(batch_ops(ops@), gate) is None,
            Err(e) => share_refusal(batch_ops(ops@), gate) matches Some(f) && f.is(e),
        },
{
    let ghost views = batch_ops(ops@);
    let mut i: usize = 0;
    while i < ops.len()
        invariant
            i <= ops@.len(),
            views == batch_ops(ops@),
            !gate.admits ==> !some_take_share(views, i as int),
        decreases ops.len() - i,
    {
        assert(views[i as int] == ops@[i as int].op());
        if !ops[i].is_delete() {
            match admit_put(ops[i].key(), gate) {
                Err(e) => {
                    assert(takes_share(views[i as int]));
                    return Err(e);
                },
                Ok(_) => {},
            }
        }
        i = i + 1;
    }
    Ok(())
}

/// The operations of a batch as the log holds them.
pub(crate) fn to_wal_ops(ops: &Vec<BatchOp>) -> (v: Vec<WalOp>)
    ensures
        op_views(v@) == batch_ops(ops@),
{
    let mut v: Vec<WalOp> = Vec::new();
    let mut i: usize = 0;
    while i < ops.len()
        invariant
            i <= ops@.len(),
            v@.len() == i,
            forall|j: int| 0 <= j < i ==> (#[trigger] v@[j])@ == ops@[j].op(),
        decreases ops.len() - i,
    {
        let op: WalOp = match &ops[i] {
            BatchOp::Put { key, value, expires_at } => WalOp {
                command: WalCommand::Put,
                expires_at: *expires_at,
                key: copy_bytes(key.as_slice()),
                value: copy_bytes(value.as_slice()),
            },
            BatchOp::Del { key } => WalOp {
                command: WalCommand::Del,
                expires_at: 0,
                key: copy_bytes(key.as_slice()),
                value: Vec::new(),
            },
        };
        assert(op@.value =~= ops@[i as int].op().value);
        assert(op@ == ops@[i as int].op());
        v.push(op);
        i = i + 1;
    }
    assert(op_views(v@) =~= batch_ops(ops@));
    v
}

} // verus!
