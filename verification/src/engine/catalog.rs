//! Coarse operations: deletion by prefix, the system keyspace, the sweep of expired
//! entries, and the metadata of base snapshots.

use vstd::prelude::*;
use crate::bytes::{bytes_eq, copy_bytes};
use crate::engine::admin::flushable;
use crate::engine::laws::record_changes_its_keys;
use crate::engine::ops::{del_op, key_occurs, put_op, small_entry_fits, Refusal};
use crate::engine::policed::is_full;
use crate::engine::read::last_seq;
use crate::engine::write::{joins, PendingWrite, WriteGate};
use crate::engine::{
    all_above, batch_ops, in_frozen, memtables_of, older, store_cases, BatchOp, Engine,
};
use crate::entry::Entry;
use crate::errors::{EngineError, EngineResult};
use crate::iter::ScanDirection;
use crate::keys::{
    system_key_fault, system_key_ok, validate_system_key, validate_value, value_fault, value_ok,
    InternalKey, MAX_BATCH_KEYS,
};
use crate::memtable::{footprint, total_footprint};
use crate::records::{sorted, versions, visible, Version};
use crate::snapshot::{after_prefix, pair_views};
use crate::sstable::copy_pairs;
use crate::store::{listing, newest_is, value_at};
use crate::text::{decimal, text_of, text_with_number};
use crate::wal::{op_version, op_views, OpView, WalCommand, WalEntry, WalOp, WalView};

verus! {

impl Engine {
    /// Why a system record is refused, if it is. No tenant is spared or blamed for it.
    pub open spec fn sys_put_refusal(&self, key: Seq<u8>, value: Seq<u8>, gate: WriteGate) -> Option<
        Refusal,
    > {
        if !system_key_ok(key) {
            Some(Refusal::InvalidKey(system_key_fault(key)))
        } else if !value_ok(value) {
            Some(Refusal::InvalidValue(value_fault(value)))
        } else {
            match self.busy_reason(Seq::empty(), gate) {
                Some(m) => Some(Refusal::Busy(m)),
                None => None,
            }
        }
    }

    /// Why the deletion of a system record is refused, if it is.
    pub open spec fn sys_del_refusal(&self, key: Seq<u8>, gate: WriteGate) -> Option<Refusal> {
        if !system_key_ok(key) {
            Some(Refusal::InvalidKey(system_key_fault(key)))
        } else {
            match self.busy_reason(Seq::empty(), gate) {
                Some(m) => Some(Refusal::Busy(m)),
                None => None,
            }
        }
    }

    /// The engine holds what it held before and what the record writes, and the record
    /// is durable in the log.
    pub open spec fn wrote_durably(&self, before: &Engine, e: WalView) -> bool {
        &&& self.store() == before.store().union(e.writes().to_set())
        &&& self.took_up(before, e)
        &&& self.layers.tables == before.layers.tables
        &&& self.logged_with(before, e, false)
        &&& self.same_setup(before)
    }

    /// Checks whether writes are accepted now, whoever writes.
    fn check_backpressure(&mut self, gate: WriteGate) -> (r: EngineResult<()>)
        requires
            old(self).measurable(),
        ensures
            match r {
                Ok(_) => old(self).busy_reason(Seq::empty(), gate) is None,
                Err(e) => old(self).busy_reason(Seq::empty(), gate) matches Some(m) && (
                Refusal::Busy(m)).is(e),
            },
            final(self).untouched(old(self)),
    {
        let none: Vec<u8> = Vec::new();
        assert(none@ =~= Seq::<u8>::empty());
        self.check_backpressure_for_key(none.as_slice(), gate)
    }

    /// Writes a system record. It is durable when this returns.
    pub fn sys_put(&mut self, key: Vec<u8>, value: Vec<u8>, gate: WriteGate) -> (r: EngineResult<
        (),
    >)
        requires
            old(self).wf(),
            old(self).measurable(),
            old(self).can_take(seq![put_op(key@, value@, 0)]),
        ensures
            final(self).wf(),
            match r {
                Ok(_) => {
                    &&& old(self).sys_put_refusal(key@, value@, gate) is None
                    &&& final(self).seq@ == old(self).seq@ + 1
                    &&& final(self).wrote_durably(
                        old(self),
                        WalView { seq: old(self).seq@, ops: seq![put_op(key@, value@, 0)] },
                    )
                },
                Err(e) => {
                    &&& old(self).sys_put_refusal(key@, value@, gate) matches Some(f) && f.is(e)
                    &&& final(self).untouched(old(self))
                },
            },
    {
        match validate_system_key(key.as_slice()) {
            Err(e) => {
                return Err(e);
            },
            Ok(_) => {},
        }
        match validate_value(value.as_slice()) {
            Err(e) => {
                return Err(e);
            },
            Ok(_) => {},
        }
        match self.check_backpressure(gate) {
            Err(e) => {
                return Err(e);
            },
            Ok(_) => {},
        }
        let ghost op = put_op(key@, value@, 0);
        let mut ops: Vec<WalOp> = Vec::new();
        ops.push(WalOp { command: WalCommand::Put, expires_at: 0, key, value });
        assert(op_views(ops@) =~= seq![op]);
        proof {
            small_entry_fits(WalView { seq: self.seq@, ops: seq![op] });
        }
        let w: PendingWrite = self.stage_write(ops);
        match self.finish_write(w, Ok(())) {
            Ok(_) => {
                let synced: u64 = self.sync_wal();
                Ok(())
            },
            Err(e) => Err(e),
        }
    }

    /// Writes a system record along with a user write: in the same way to the log, and
    /// without a check whether writes are accepted now. For the bookkeeping of a write
    /// policy.
    pub fn sys_put_policy(&mut self, key: Vec<u8>, value: Vec<u8>) -> (r: EngineResult<()>)
        requires
            old(self).wf(),
            old(self).can_take(seq![put_op(key@, value@, 0)]),
        ensures
            final(self).wf(),
            match r {
                Ok(_) => {
                    &&& system_key_ok(key@) && value_ok(value@)
                    &&& final(self).seq@ == old(self).seq@ + 1
                    &&& final(self).wrote_record(
                        old(self),
                        WalView { seq: old(self).seq@, ops: seq![put_op(key@, value@, 0)] },
                    )
                    &&& joins(
                        final(self).layers.active@,
                        old(self).layers.active@,
                        (WalView {
                            seq: old(self).seq@,
                            ops: seq![put_op(key@, value@, 0)],
                        }).writes(),
                    )
                    &&& final(self).layers.immutables == old(self).layers.immutables
                },
                Err(e) => *final(self) == *old(self) && if !system_key_ok(key@) {
                    (Refusal::InvalidKey(system_key_fault(key@))).is(e)
                } else {
                    !value_ok(value@) && (Refusal::InvalidValue(value_fault(value@))).is(e)
                },
            },
    {
        match validate_system_key(key.as_slice()) {
            Err(e) => {
                return Err(e);
            },
            Ok(_) => {},
        }
        match validate_value(value.as_slice()) {
            Err(e) => {
                return Err(e);
            },
            Ok(_) => {},
        }
        let ghost op = put_op(key@, value@, 0);
        let mut ops: Vec<WalOp> = Vec::new();
        ops.push(WalOp { command: WalCommand::Put, expires_at: 0, key, value });
        assert(op_views(ops@) =~= seq![op]);
        proof {
            small_entry_fits(WalView { seq: self.seq@, ops: seq![op] });
        }
        let w: PendingWrite = self.stage_write(ops);
        self.note_append(&w);
        self.insert_entry(&w.entry);
        Ok(())
    }

    /// The value of a system record.
    pub fn sys_get(&self, key: &[u8], now_ms: u64) -> (r: EngineResult<Option<Vec<u8>>>)
        requires
            self.wf(),
        ensures
            match r {
                Ok(Some(x)) => system_key_ok(key@) && value_at(
                    self.store(),
                    key@,
                    u64::MAX,
                    now_ms,
                ) == Some(x@),
                Ok(None) => system_key_ok(key@) && value_at(
                    self.store(),
                    key@,
                    u64::MAX,
                    now_ms,
                ) is None,
                Err(e) => !system_key_ok(key@) && (Refusal::InvalidKey(system_key_fault(key@))).is(
                    e,
                ),
            },
    {
        match validate_system_key(key) {
            Err(e) => {
                return Err(e);
            },
            Ok(_) => {},
        }
        Ok(self.layers.read(key, u64::MAX, now_ms))
    }

    /// Deletes a system record, durably. Returns whether it was there.
    pub fn sys_del(&mut self, key: Vec<u8>, gate: WriteGate, now_ms: u64) -> (r: EngineResult<bool>)
        requires
            old(self).wf(),
            old(self).measurable(),
            old(self).can_take(seq![del_op(key@)]),
        ensures
            final(self).wf(),
            match r {
                Ok(existed) => {
                    &&& old(self).sys_del_refusal(key@, gate) is None
                    &&& existed == (value_at(old(self).store(), key@, u64::MAX, now_ms) is Some)
                    &&& final(self).seq@ == old(self).seq@ + 1
                    &&& final(self).wrote_durably(
                        old(self),
                        WalView { seq: old(self).seq@, ops: seq![del_op(key@)] },
                    )
                },
                Err(e) => {
                    &&& old(self).sys_del_refusal(key@, gate) matches Some(f) && f.is(e)
                    &&& final(self).untouched(old(self))
                },
            },
    {
        match validate_system_key(key.as_slice()) {
            Err(e) => {
                return Err(e);
            },
            Ok(_) => {},
        }
        match self.check_backpressure(gate) {
            Err(e) => {
                return Err(e);
            },
            Ok(_) => {},
        }
        let existed: bool = self.layers.read(key.as_slice(), u64::MAX, now_ms).is_some();
        let ghost op = del_op(key@);
        let value: Vec<u8> = Vec::new();
        let mut ops: Vec<WalOp> = Vec::new();
        ops.push(WalOp { command: WalCommand::Del, expires_at: 0, key, value });
        assert(op_views(ops@) =~= seq![op]);
        proof {
            small_entry_fits(WalView { seq: self.seq@, ops: seq![op] });
        }
        let w: PendingWrite = self.stage_write(ops);
        match self.finish_write(w, Ok(())) {
            Ok(_) => {
                let synced: u64 = self.sync_wal();
                Ok(existed)
            },
            Err(e) => Err(e),
        }
    }
}

/// A value past its expiry.
pub open spec fn expired_value(v: Version, now_ms: u64) -> bool {
    v.1.value is Some && v.1.expired_at(now_ms)
}

/// The distinct keys of the values among the first `n` versions that are past their
/// expiry.
pub open spec fn expired_keys(s: Seq<Version>, now_ms: u64, n: int) -> Seq<Seq<u8>>
    decreases n,
{
    if n <= 0 {
        Seq::empty()
    } else {
        let before = expired_keys(s, now_ms, n - 1);
        let v = s[n - 1];
        if expired_value(v, now_ms) && !before.contains(v.0.user_key) {
            before.push(v.0.user_key)
        } else {
            before
        }
    }
}

/// The `i`-th of the ordered versions is the newest of its key.
pub open spec fn leads(s: Seq<Version>, i: int) -> bool {
    i == 0 || s[i - 1].0.user_key != s[i].0.user_key
}

/// The keys among the first `n` versions whose newest version is a value past its
/// expiry.
pub open spec fn swept_keys(s: Seq<Version>, now_ms: u64, n: int) -> Seq<Seq<u8>>
    decreases n,
{
    if n <= 0 {
        Seq::empty()
    } else if leads(s, n - 1) && expired_value(s[n - 1], now_ms) {
        swept_keys(s, now_ms, n - 1).push(s[n - 1].0.user_key)
    } else {
        swept_keys(s, now_ms, n - 1)
    }
}

/// Tombstones of the given keys, with consecutive sequence numbers from `first` on.
pub open spec fn tombstones(keys: Seq<Seq<u8>>, first: u64) -> Set<Version> {
    Set::new(
        |v: Version|
            exists|j: int|
                0 <= j < keys.len() && v == op_version(
                    del_op(#[trigger] keys[j]),
                    (first + j) as u64,
                ),
    )
}

proof fn last_expired(s: Seq<Version>, now_ms: u64, n: int, key: Seq<u8>)
    requires
        sorted(s),
        0 <= n <= s.len(),
        n < s.len() ==> s[n].0.user_key == key,
    ensures
        n < s.len() ==> (expired_keys(s, now_ms, n).contains(key) <==> expired_keys(
            s,
            now_ms,
            n,
        ).len() > 0 && expired_keys(s, now_ms, n).last() == key),
        expired_keys(s, now_ms, n).len() <= n,
        forall|i: int|
            0 <= i < expired_keys(s, now_ms, n).len() ==> exists|k: int|
                0 <= k < n && (#[trigger] s[k]).0.user_key == #[trigger] expired_keys(
                    s,
                    now_ms,
                    n,
                )[i],
    decreases n,
{
    if n > 0 {
        let a = expired_keys(s, now_ms, n - 1);
        let b = expired_keys(s, now_ms, n);
        let k = s[n - 1].0.user_key;
        last_expired(s, now_ms, n - 1, k);
        assert forall|i: int| 0 <= i < b.len() implies exists|k: int|
            0 <= k < n && (#[trigger] s[k]).0.user_key == #[trigger] b[i] by {
            if i < a.len() {
                assert(b[i] == a[i]);
                let j = choose|j: int| 0 <= j < n - 1 && (#[trigger] s[j]).0.user_key == a[i];
                assert(s[j].0.user_key == b[i]);
            } else {
                assert(s[n - 1].0.user_key == b[i]);
            }
        }
        if n < s.len() && b.contains(key) {
            let i = choose|i: int| 0 <= i < b.len() && b[i] == key;
            let j = choose|j: int| 0 <= j < n && (#[trigger] s[j]).0.user_key == b[i];
            if j < n - 1 {
                assert(s[j].0.lt(s[n - 1].0));
                assert(s[n - 1].0.lt(s[n].0));
                same_key_between(s[j].0, s[n - 1].0, s[n].0);
            }
            assert(k == key);
            if b.len() == a.len() {
                assert(b == a);
                assert(a.contains(k));
            } else {
                assert(b.last() == k);
            }
        }
        if b.len() > 0 && b.last() == key {
            assert(b[b.len() - 1] == key);
        }
    }
}

pub(crate) proof fn same_key_between(
    a: crate::keys::KeyView,
    b: crate::keys::KeyView,
    c: crate::keys::KeyView,
)
    requires
        a.lt(b),
        b.lt(c),
        a.user_key == c.user_key,
    ensures
        b.user_key == a.user_key,
{
    if b.user_key != a.user_key {
        crate::bytes::lex_lt_asymmetric(a.user_key, b.user_key);
    }
}

/// A key whose newest version in the memtable is a value past its expiry has no value.
proof fn leading_expired_reads_none(
    before: Engine,
    i: int,
    upper: u64,
    now_ms: u64,
    t: u64,
)
    requires
        before.wf(),
        0 <= i < before.layers.active@.len(),
        leads(before.layers.active@, i),
        expired_value(before.layers.active@[i], now_ms),
        upper >= before.seq@,
        t >= now_ms,
    ensures
        value_at(before.store(), before.layers.active@[i].0.user_key, upper, t) is None,
{
    let l = before.layers;
    let s = l.active@;
    let v = s[i];
    let key = v.0.user_key;
    l.active.lemma_sorted();
    store_cases(l, v);
    assert(s.contains(v));
    assert(before.store().contains(v));
    assert forall|w: Version| #[trigger] before.store().contains(w) && visible(
        w,
        key,
        upper,
    ) implies w.0.seq <= v.0.seq by {
        store_cases(l, w);
        let m = memtables_of(l);
        let last = m.len() - 1;
        assert(m[last] == s);
        if s.contains(w) {
            let k = choose|k: int| 0 <= k < s.len() && s[k] == w;
            if k < i {
                if k < i - 1 {
                    assert(s[k].0.lt(s[i - 1].0));
                    assert(s[i - 1].0.lt(s[i].0));
                    same_key_between(s[k].0, s[i - 1].0, s[i].0);
                }
                assert(s[i - 1].0.user_key == key);
            } else if k > i {
                assert(s[i].0.lt(s[k].0));
                if lex_lt_key(v, w) {
                    crate::bytes::lex_lt_irreflexive(key);
                }
            }
        } else if in_frozen(l, w) {
            let q = choose|q: int|
                0 <= q < l.immutables@.len() && (#[trigger] l.immutables@[q])@.contains(w);
            assert(m[q] == l.immutables@[q]@);
            assert(older(m[q], m[last]));
        } else {
            let q = choose|q: int|
                0 <= q < l.tables@.len() && (#[trigger] l.tables@[q]).reader@.contains(w);
            assert(l.tables@[q].wf());
            assert(all_above(m[last], l.tables@[q].meta.max_seq));
        }
    }
    newest_is(before.store(), key, upper, v);
}

spec fn lex_lt_key(a: Version, b: Version) -> bool {
    crate::bytes::lex_lt(a.0.user_key, b.0.user_key)
}

/// One more tombstone.
proof fn one_more_tombstone(keys: Seq<Seq<u8>>, key: Seq<u8>, first: u64, e: WalView)
    requires
        first + keys.len() <= u64::MAX,
        e == (WalView { seq: (first + keys.len()) as u64, ops: seq![del_op(key)] }),
    ensures
        tombstones(keys.push(key), first) == tombstones(keys, first).union(e.writes().to_set()),
{
    let more = keys.push(key);
    let w = e.writes();
    assert forall|v: Version| #[trigger] tombstones(more, first).contains(v) <==> tombstones(
        keys,
        first,
    ).union(w.to_set()).contains(v) by {
        if tombstones(more, first).contains(v) {
            let j = choose|j: int|
                0 <= j < more.len() && v == op_version(
                    del_op(#[trigger] more[j]),
                    (first + j) as u64,
                );
            if j < keys.len() {
                assert(more[j] == keys[j]);
            } else {
                assert(w[0] == v);
            }
        }
        if tombstones(keys, first).contains(v) {
            let j = choose|j: int|
                0 <= j < keys.len() && v == op_version(
                    del_op(#[trigger] keys[j]),
                    (first + j) as u64,
                );
            assert(more[j] == keys[j]);
        }
        if w.to_set().contains(v) {
            let j = choose|j: int| 0 <= j < w.len() && w[j] == v;
            assert(w[j] == op_version(e.ops[j], e.seq));
            assert(more[keys.len() as int] == key);
        }
    }
    assert(tombstones(more, first) =~= tombstones(keys, first).union(w.to_set()));
}

proof fn footprint_step(s: Seq<Version>, i: int)
    requires
        0 <= i < s.len(),
    ensures
        total_footprint(s.take(i + 1)) == total_footprint(s.take(i)) + footprint(s[i]),
        total_footprint(s.take(i + 1)) <= total_footprint(s),
    decreases s.len() - i,
{
    assert(s.take(i + 1).drop_last() =~= s.take(i));
    if i + 1 < s.len() {
        footprint_step(s, i + 1);
    } else {
        assert(s.take(i + 1) =~= s);
    }
}

impl Engine {
    /// Puts a tombstone over every key whose newest version in the memtable is a value
    /// past its expiry. Returns the number of keys with such values. No reader notices.
    pub fn sweep_expired(&mut self, now_ms: u64) -> (n: usize)
        requires
            old(self).wf(),
            old(self).seq@ + old(self).layers.active@.len() < u64::MAX,
            2 * total_footprint(old(self).layers.active@) <= usize::MAX,
        ensures
            final(self).wf(),
            ({
                let s = old(self).layers.active@;
                let swept = swept_keys(s, now_ms, s.len() as int);
                &&& n == expired_keys(s, now_ms, s.len() as int).len()
                &&& final(self).seq@ == old(self).seq@ + swept.len()
                &&& final(self).store() == old(self).store().union(
                    tombstones(swept, old(self).seq@),
                )
            }),
            forall|key: Seq<u8>, upper: u64, t: u64|
                t >= now_ms ==> #[trigger] value_at(final(self).store(), key, upper, t) == value_at(
                    old(self).store(),
                    key,
                    upper,
                    t,
                ),
            final(self).layers.immutables == old(self).layers.immutables,
            final(self).layers.tables == old(self).layers.tables,
            *final(self) == (Engine {
                seq: final(self).seq,
                layers: final(self).layers,
                result_cache: final(self).result_cache,
                ..*old(self)
            }),
    {
        let ghost before = *self;
        let ghost s = self.layers.active@;
        let pairs: Vec<(InternalKey, Entry)> = copy_pairs(self.layers.active.iter());
        proof {
            self.layers.active.lemma_sorted();
            assert(versions(pairs@) == s);
            assert(s.take(0) =~= Seq::<Version>::empty());
            assert(self.store().union(tombstones(Seq::empty(), self.seq@)) =~= self.store());
        }
        let mut count: usize = 0;
        let mut counted: Option<Vec<u8>> = None;
        let mut i: usize = 0;
        while i < pairs.len()
            invariant
                i <= pairs@.len(),
                versions(pairs@) == s,
                sorted(s),
                before == *old(self),
                before.wf(),
                s == before.layers.active@,
                before.seq@ + s.len() < u64::MAX,
                2 * total_footprint(s) <= usize::MAX,
                self.wf(),
                count == expired_keys(s, now_ms, i as int).len(),
                count <= i,
                match counted {
                    Some(k) => count > 0 && expired_keys(s, now_ms, i as int).last() == k@,
                    None => count == 0,
                },
                swept_keys(s, now_ms, i as int).len() <= i,
                self.seq@ == before.seq@ + swept_keys(s, now_ms, i as int).len(),
                self.store() == before.store().union(
                    tombstones(swept_keys(s, now_ms, i as int), before.seq@),
                ),
                total_footprint(self.layers.active@) <= total_footprint(s) + total_footprint(
                    s.take(i as int),
                ),
                forall|key: Seq<u8>, upper: u64, t: u64|
                    t >= now_ms ==> #[trigger] value_at(self.store(), key, upper, t) == value_at(
                        before.store(),
                        key,
                        upper,
                        t,
                    ),
                self.layers.immutables == before.layers.immutables,
                self.layers.tables == before.layers.tables,
                *self == (Engine {
                    seq: self.seq,
                    layers: self.layers,
                    result_cache: self.result_cache,
                    ..before
                }),
            decreases pairs.len() - i,
        {
            let ghost v = s[i as int];
            let ghost swept = swept_keys(s, now_ms, i as int);
            assert(v == (pairs@[i as int].0@, pairs@[i as int].1@));
            proof {
                last_expired(s, now_ms, i as int, v.0.user_key);
                footprint_step(s, i as int);
            }
            let past: bool = pairs[i].1.is_expired(now_ms) && !pairs[i].1.is_tombstone();
            if past {
                let known: bool = match &counted {
                    Some(k) => bytes_eq(k.as_slice(), pairs[i].0.user_key.as_slice()),
                    None => false,
                };
                if !known {
                    count = count + 1;
                    counted = Some(copy_bytes(pairs[i].0.user_key.as_slice()));
                }
                let first: bool = i == 0 || !bytes_eq(
                    pairs[i - 1].0.user_key.as_slice(),
                    pairs[i].0.user_key.as_slice(),
                );
                proof {
                    if i > 0 {
                        assert(s[i - 1] == (pairs@[i - 1].0@, pairs@[i - 1].1@));
                    }
                    assert(first == leads(s, i as int));
                }
                if first {
                    let ghost was = *self;
                    let seq: u64 = self.seq.next();
                    let key: Vec<u8> = copy_bytes(pairs[i].0.user_key.as_slice());
                    let e: WalEntry = WalEntry::del(seq, key);
                    let ghost key_view = v.0.user_key;
                    proof {
                        assert(e@.ops =~= seq![del_op(key_view)]);
                        assert(e@.writes().len() == 1);
                        assert(e@.writes()[0] == op_version(del_op(key_view), seq));
                        assert(e@.writes().drop_last() =~= Seq::<Version>::empty());
                        assert(total_footprint(e@.writes()) == footprint(e@.writes()[0])) by {
                            assert(total_footprint(e@.writes().drop_last()) == 0);
                        }
                    }
                    self.insert_entry(&e);
                    proof {
                        one_more_tombstone(swept, key_view, before.seq@, e@);
                        assert(self.store() =~= before.store().union(
                            tombstones(swept.push(key_view), before.seq@),
                        ));
                        assert forall|key: Seq<u8>, upper: u64, t: u64|
                            t >= now_ms implies #[trigger] value_at(self.store(), key, upper, t)
                            == value_at(before.store(), key, upper, t) by {
                            record_changes_its_keys(was.store(), e@, key, upper);
                            assert(value_at(was.store(), key, upper, t) == value_at(
                                before.store(),
                                key,
                                upper,
                                t,
                            ));
                            if key == key_view && upper >= seq {
                                assert(e@.ops[0].key == key);
                                leading_expired_reads_none(before, i as int, upper, now_ms, t);
                            } else if upper >= seq {
                                if key_occurs(e@.ops, 1, key) {
                                    let k = choose|k: int|
                                        0 <= k < 1 && (#[trigger] e@.ops[k]).key == key;
                                }
                            }
                        }
                    }
                }
            }
            i = i + 1;
        }
        count
    }
}

/// What a reader gets in a range, keys ascending.
pub open spec fn listed(s: Set<Version>, lo: Seq<u8>, hi: Seq<u8>, upper: u64, now_ms: u64) -> Seq<
    (Seq<u8>, Seq<u8>),
> {
    choose|r: Seq<(Seq<u8>, Seq<u8>)>| #[trigger]
        listing(s, lo, hi, upper, now_ms, ScanDirection::Forward, r)
}

/// One of the first `n` pairs has the key.
pub open spec fn among(r: Seq<(Seq<u8>, Seq<u8>)>, n: int, key: Seq<u8>) -> bool {
    exists|i: int| 0 <= i < n && (#[trigger] r[i]).0 == key
}

/// The deletions of the pairs from `lo` up to `hi`.
pub open spec fn deletions(r: Seq<(Seq<u8>, Seq<u8>)>, lo: int, hi: int) -> Seq<OpView> {
    Seq::new((hi - lo) as nat, |k: int| del_op(r[lo + k].0))
}

/// The keys of the first `n` pairs are deleted and all others as they were. Readers
/// below the sequence number `first` notice nothing.
pub open spec fn deleted_first(
    before: Set<Version>,
    after: Set<Version>,
    r: Seq<(Seq<u8>, Seq<u8>)>,
    n: int,
    first: u64,
) -> bool {
    &&& forall|key: Seq<u8>, t: u64| #[trigger]
        value_at(after, key, u64::MAX, t) == (if among(r, n, key) {
            None
        } else {
            value_at(before, key, u64::MAX, t)
        })
    &&& forall|key: Seq<u8>, upper: u64, t: u64|
        upper < first ==> #[trigger] value_at(after, key, upper, t) == value_at(
            before,
            key,
            upper,
            t,
        )
}

proof fn batch_deletes_more(
    start: Set<Version>,
    was: Engine,
    now: Engine,
    r: Seq<(Seq<u8>, Seq<u8>)>,
    lo: int,
    hi: int,
    first: u64,
)
    requires
        was.wf(),
        now.wf(),
        deleted_first(start, was.store(), r, lo, first),
        first <= was.seq@,
        0 <= lo < hi <= r.len(),
        forall|i: int, j: int| 0 <= i < j < r.len() ==> (#[trigger] r[i]).0 != (#[trigger] r[j]).0,
        now.wrote_record(&was, WalView { seq: was.seq@, ops: deletions(r, lo, hi) }),
    ensures
        deleted_first(start, now.store(), r, hi, first),
{
    let ops = deletions(r, lo, hi);
    let e = WalView { seq: was.seq@, ops };
    assert forall|i: int, j: int| 0 <= i < j < ops.len() implies (#[trigger] ops[i]).key != (
    #[trigger] ops[j]).key by {
        assert(r[lo + i].0 != r[lo + j].0);
    }
    assert forall|key: Seq<u8>, t: u64| #[trigger]
        value_at(now.store(), key, u64::MAX, t) == (if among(r, hi, key) {
        None
    } else {
        value_at(start, key, u64::MAX, t)
    }) by {
        record_changes_its_keys(was.store(), e, key, u64::MAX);
        assert(value_at(was.store(), key, u64::MAX, t) == (if among(r, lo, key) {
            None
        } else {
            value_at(start, key, u64::MAX, t)
        }));
        if key_occurs(ops, ops.len() as int, key) {
            let k = choose|k: int| 0 <= k < ops.len() && (#[trigger] ops[k]).key == key;
            assert(r[lo + k].0 == key);
            assert(among(r, hi, key));
        } else {
            if among(r, hi, key) {
                let i = choose|i: int| 0 <= i < hi && (#[trigger] r[i]).0 == key;
                if i >= lo {
                    assert(ops[i - lo].key == key);
                }
                assert(among(r, lo, key));
            }
            if among(r, lo, key) {
                let i = choose|i: int| 0 <= i < lo && (#[trigger] r[i]).0 == key;
                assert(among(r, hi, key));
            }
        }
    }
    assert forall|key: Seq<u8>, upper: u64, t: u64|
        upper < first implies #[trigger] value_at(now.store(), key, upper, t) == value_at(
        start,
        key,
        upper,
        t,
    ) by {
        record_changes_its_keys(was.store(), e, key, upper);
        assert(value_at(was.store(), key, upper, t) == value_at(start, key, upper, t));
    }
}

impl Engine {
    /// The pairs whose keys start with a prefix, as a reader gets them now.
    pub open spec fn under_prefix(&self, prefix: Seq<u8>, now_ms: u64) -> Seq<(Seq<u8>, Seq<u8>)> {
        listed(self.store(), prefix, after_prefix(prefix), last_seq(self.seq@), now_ms)
    }

    /// The engine does not take the deletions of the next keys after the first `done`,
    /// and the error says why.
    pub open spec fn stops_deleting(
        &self,
        all: Seq<(Seq<u8>, Seq<u8>)>,
        done: int,
        gate: WriteGate,
        e: EngineError,
    ) -> bool {
        let next = deletions(
            all,
            done,
            if all.len() - done > MAX_BATCH_KEYS {
                done + MAX_BATCH_KEYS
            } else {
                all.len() as int
            },
        );
        ||| is_full(e) && !self.can_take(next)
        ||| self.batch_refusal(next, gate) matches Some(f) && f.is(e)
    }

    /// Deletes some of the listed keys in one batch.
    fn delete_some(
        &mut self,
        pairs: &Vec<(Vec<u8>, Vec<u8>)>,
        from: usize,
        to: usize,
        gate: WriteGate,
    ) -> (r: EngineResult<u64>)
        requires
            old(self).wf(),
            old(self).measurable(),
            from < to <= pairs@.len(),
        ensures
            final(self).wf(),
            ({
                let want = deletions(pair_views(pairs@), from as int, to as int);
                match r {
                    Ok(_) => {
                        &&& old(self).can_take(want)
                        &&& old(self).batch_refusal(want, gate) is None
                        &&& final(self).seq@ == old(self).seq@ + 1
                        &&& final(self).wrote_record(
                            old(self),
                            WalView { seq: old(self).seq@, ops: want },
                        )
                    },
                    Err(e) => {
                        &&& final(self).untouched(old(self))
                        &&& final(self).can_take(want) == old(self).can_take(want)
                        &&& final(self).batch_refusal(want, gate) == old(self).batch_refusal(
                            want,
                            gate,
                        )
                        &&& if old(self).can_take(want) {
                            old(self).batch_refusal(want, gate) matches Some(f) && f.is(e)
                        } else {
                            is_full(e)
                        }
                    },
                }
            }),
    {
        let ghost all = pair_views(pairs@);
        let ghost want = deletions(all, from as int, to as int);
        let mut ops: Vec<BatchOp> = Vec::new();
        let mut j: usize = from;
        while j < to
            invariant
                from <= j <= to <= pairs@.len(),
                all == pair_views(pairs@),
                ops@.len() == j - from,
                forall|k: int|
                    0 <= k < ops@.len() ==> (#[trigger] ops@[k]).op() == del_op(all[from + k].0),
            decreases to - j,
        {
            let key: Vec<u8> = copy_bytes(pairs[j].0.as_slice());
            assert(all[j as int].0 == key@);
            let op = BatchOp::Del { key };
            assert(op.op() == del_op(key@));
            ops.push(op);
            j = j + 1;
        }
        assert(batch_ops(ops@) =~= want);
        let wal_ops: Vec<WalOp> = crate::engine::ops::to_wal_ops(&ops);
        if !self.has_room(&wal_ops) {
            return Err(EngineError::EngineBusy(text_of("engine full")));
        }
        let ghost was = *self;
        let r: EngineResult<u64> = self.write_batch(ops, gate);
        assert(r is Err ==> self.busy_reason(want[0].key, gate) == was.busy_reason(
            want[0].key,
            gate,
        ));
        r
    }

    /// Deletes every key that starts with a prefix and has a value now, in atomic
    /// batches. Returns the number of keys. Where a batch is refused, those before it
    /// stay deleted.
    pub fn delete_prefix(&mut self, prefix: &[u8], gate: WriteGate, now_ms: u64) -> (r:
        EngineResult<u64>)
        requires
            old(self).wf(),
            old(self).measurable(),
        ensures
            final(self).wf(),
            ({
                let all = old(self).under_prefix(prefix@, now_ms);
                let whole = deletions(all, 0, all.len() as int);
                &&& listing(
                    old(self).store(),
                    prefix@,
                    after_prefix(prefix@),
                    last_seq(old(self).seq@),
                    now_ms,
                    ScanDirection::Forward,
                    all,
                )
                &&& match r {
                    Ok(n) => n == all.len() && deleted_first(
                        old(self).store(),
                        final(self).store(),
                        all,
                        all.len() as int,
                        old(self).seq@,
                    ),
                    Err(e) => exists|done: int|
                        {
                            &&& 0 <= done < all.len()
                            &&& done % 1024 == 0
                            &&& #[trigger] deleted_first(
                                old(self).store(),
                                final(self).store(),
                                all,
                                done,
                                old(self).seq@,
                            )
                            &&& final(self).stops_deleting(all, done, gate, e)
                        },
                }
                &&& all.len() == 0 ==> r is Ok
                &&& 0 < all.len() <= MAX_BATCH_KEYS && old(self).can_take(whole)
                    && old(self).batch_refusal(whole, gate) is None ==> r is Ok
                &&& 0 < all.len() <= MAX_BATCH_KEYS && old(self).can_take(whole)
                    && old(self).batch_refusal(whole, gate) is Some ==> (r matches Err(e)
                    && old(self).batch_refusal(whole, gate)->0.is(e))
            }),
            final(self).layers.tables == old(self).layers.tables,
            final(self).same_setup(old(self)),
    {
        let ghost before = *self;
        let ghost all = self.under_prefix(prefix@, now_ms);
        let pairs: Vec<(Vec<u8>, Vec<u8>)> = match self.snapshot().prefix_scan(
            prefix,
            now_ms,
        ) {
            Ok(it) => it.collect(),
            Err(e) => {
                return Err(e);
            },
        };
        proof {
            crate::store::listing_is_unique(
                self.store(),
                prefix@,
                after_prefix(prefix@),
                last_seq(self.seq@),
                now_ms,
                ScanDirection::Forward,
                all,
                pair_views(pairs@),
            );
            assert forall|i: int, j: int| 0 <= i < j < all.len() implies (#[trigger] all[i]).0 != (
            #[trigger] all[j]).0 by {
                assert(crate::iter::key_ahead(ScanDirection::Forward, all[i].0, all[j].0));
                crate::bytes::lex_lt_irreflexive(all[i].0);
            }
        }
        let n: usize = pairs.len();
        let mut i: usize = 0;
        while i < n
            invariant
                n == pairs@.len(),
                i <= n,
                i % 1024 == 0 || i == n,
                i == 0 || i == n || i >= 1024,
                all == pair_views(pairs@),
                before == *old(self),
                all == before.under_prefix(prefix@, now_ms),
                listing(
                    before.store(),
                    prefix@,
                    after_prefix(prefix@),
                    last_seq(before.seq@),
                    now_ms,
                    ScanDirection::Forward,
                    all,
                ),
                forall|a: int, b: int|
                    0 <= a < b < all.len() ==> (#[trigger] all[a]).0 != (#[trigger] all[b]).0,
                self.wf(),
                self.measurable(),
                before.seq@ <= self.seq@,
                i == 0 ==> *self == before,
                deleted_first(before.store(), self.store(), all, i as int, before.seq@),
                self.layers.tables == before.layers.tables,
                self.same_setup(&before),
                i == n && n <= 1024 && n > 0 && before.can_take(
                    deletions(all, 0, all.len() as int),
                ) ==> before.batch_refusal(deletions(all, 0, all.len() as int), gate) is None,
            decreases n - i,
        {
            let end: usize = if n - i > MAX_BATCH_KEYS {
                i + MAX_BATCH_KEYS
            } else {
                n
            };
            let ghost was = *self;
            match self.delete_some(&pairs, i, end, gate) {
                Ok(_) => {},
                Err(e) => {
                    return Err(e);
                },
            }
            proof {
                batch_deletes_more(
                    before.store(),
                    was,
                    *self,
                    all,
                    i as int,
                    end as int,
                    before.seq@,
                );
            }
            i = end;
        }
        Ok(n as u64)
    }

    /// Writes all memtables out and runs compactions until none can run. Returns whether
    /// that is because none is due, or because a worker is at one.
    pub fn compact_all(&mut self) -> (r: EngineResult<bool>)
        requires
            old(self).wf(),
            flushable(old(self)),
        ensures
            final(self).wf(),
            r is Err <==> old(self).refuses_to_settle(),
            match r {
                Ok(done) => {
                    &&& final(self).rests_after(old(self))
                    &&& final(self).kept_by_settling(old(self))
                    &&& final(self).layers.active@.len() == 0
                    &&& final(self).layers.immutables@.len() == 0
                    &&& done == final(self).compactable()
                },
                Err(e) => (e matches EngineError::Io(m) && m@ == "apply worker shut down"@)
                    && *final(self) == (Engine {
                    apply_scheduler: final(self).apply_scheduler,
                    ..*old(self)
                }),
            },
            crate::engine::compact::same_reads(
                old(self).store(),
                final(self).store(),
                old(self).settled_watermark(),
            ),
    {
        match self.settle() {
            Ok(_) => Ok(self.can_compact()),
            Err(e) => Err(e),
        }
    }
}

/// The text of the metadata file of a base snapshot.
pub fn snapmeta_text(snapshot_seq: u64) -> (r: String)
    ensures
        r@ == "{\"snapshot_seq\":"@ + decimal(snapshot_seq as nat) + "}\n"@,
{
    text_with_number("{\"snapshot_seq\":", snapshot_seq, "}\n")
}

} // verus!
