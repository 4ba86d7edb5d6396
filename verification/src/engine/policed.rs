//! Writes under a write policy.

use vstd::prelude::*;
use crate::engine::ops::{
    admit_batch, admit_put, del_op, put_op, share_of_put, share_refusal, small_entry_fits, to_wal_ops,
};
use crate::engine::write::{freezing_keeps_store, joins, PendingWrite, WriteGate};
use crate::engine::{batch_ops, newest_depends_on_key, BatchOp, Engine};
use crate::errors::{EngineError, EngineResult};
use crate::keys::user_key_ok;
use crate::memtable::total_footprint;
use crate::policy::{is_user, user_part, NoopWritePolicy, WriteFacts, WritePolicy};
use crate::records::{visible, Version};
use crate::store::value_at;
use crate::text::text_of;
use crate::wal::{op_views, OpView, WalCommand, WalOp, WalView};

verus! {

/// What a record adds to the user data.
pub open spec fn user_writes(ops: Seq<OpView>, seq: u64) -> Set<Version> {
    (WalView { seq, ops }).writes().to_set()
}

/// The error for a write that the engine can no longer represent.
pub open spec fn is_full(e: EngineError) -> bool {
    e matches EngineError::EngineBusy(m) && m@ == "engine full"@
}

/// What is known of an operation.
pub open spec fn op_facts(ops: Seq<OpView>, i: int, existing: Option<usize>) -> WriteFacts {
    WriteFacts {
        key: ops[i].key,
        value_len: ops[i].value.len() as usize,
        existing_value_len: existing,
        is_delete: ops[i].command is Del,
    }
}

proof fn user_part_grows(a: Set<Version>, ops: Seq<OpView>, seq: u64)
    requires
        forall|i: int| 0 <= i < ops.len() ==> user_key_ok((#[trigger] ops[i]).key),
    ensures
        user_part(a.union(user_writes(ops, seq))) == user_part(a).union(user_writes(ops, seq)),
{
    let w = (WalView { seq, ops }).writes();
    assert forall|v: Version| #[trigger] w.to_set().contains(v) implies is_user(v) by {
        let i = choose|i: int| 0 <= i < w.len() && w[i] == v;
        assert(user_key_ok(ops[i].key));
    }
    assert(user_part(a.union(w.to_set())) =~= user_part(a).union(w.to_set()));
}

impl Engine {
    /// The length of the value that a key holds.
    pub open spec fn held_len(&self, key: Seq<u8>, now_ms: u64) -> Option<usize> {
        match value_at(self.store(), key, u64::MAX, now_ms) {
            Some(x) => Some(x.len() as usize),
            None => None,
        }
    }

    /// The length of the value that a key holds.
    pub(crate) fn existing_len(&self, key: &[u8], now_ms: u64) -> (r: Option<usize>)
        requires
            self.wf(),
        ensures
            r == self.held_len(key@, now_ms),
    {
        match self.layers.read(key, u64::MAX, now_ms) {
            Some(x) => Some(x.len()),
            None => None,
        }
    }

    /// The engine's user data is that of `before` and what the operations write at some
    /// sequence number from that of `before` on.
    pub open spec fn added_user_data(&self, before: &Engine, ops: Seq<OpView>, seq: u64) -> bool {
        seq >= before.seq@ && self.seq@ > seq && user_part(self.store()) == user_part(
            before.store(),
        ).union(user_writes(ops, seq))
    }

    /// Stages, logs and completes a write of operations, where they can be represented.
    fn commit_ops(&mut self, ops: Vec<WalOp>) -> (r: EngineResult<u64>)
        requires
            old(self).wf(),
            crate::engine::write::keys_distinct(op_views(ops@)),
            (WalView { seq: old(self).seq@, ops: op_views(ops@) }).fits(),
            forall|i: int|
                0 <= i < op_views(ops@).len() ==> user_key_ok((#[trigger] op_views(ops@)[i]).key),
        ensures
            final(self).wf(),
            match r {
                Ok(n) => {
                    &&& final(self).added_user_data(old(self), op_views(ops@), n)
                    &&& old(self).can_take(op_views(ops@))
                    &&& final(self).committed(old(self), op_views(ops@), n)
                },
                Err(e) => is_full(e) && *final(self) == *old(self) && !old(self).can_take(
                    op_views(ops@),
                ),
            },
    {
        let ghost views = op_views(ops@);
        if !self.has_room(&ops) {
            return Err(EngineError::EngineBusy(text_of("engine full")));
        }
        let ghost before = *self;
        let w: PendingWrite = self.stage_write(ops);
        proof {
            user_part_grows(before.store(), views, before.seq@);
        }
        self.note_append(&w);
        self.insert_entry(&w.entry);
        Ok(w.entry.seq)
    }

    /// The engine came out of `before` by a write of the operations under the next
    /// sequence number. The memtable has taken them up and is not frozen yet.
    pub open spec fn committed(&self, before: &Engine, ops: Seq<OpView>, n: u64) -> bool {
        let e = WalView { seq: n, ops };
        &&& n == before.seq@
        &&& self.seq@ == n + 1
        &&& self.wrote_record(before, e)
        &&& joins(self.layers.active@, before.layers.active@, e.writes())
        &&& self.layers.immutables == before.layers.immutables
    }

    /// How a write ends that the policy allowed, where that left the engine as `ready`:
    /// it is refused for the tenants' shares or for want of room, or it is committed and
    /// leaves the engine as `done`.
    pub open spec fn ends(
        ready: Engine,
        ops: Seq<OpView>,
        gate: WriteGate,
        r: EngineResult<u64>,
        done: Engine,
    ) -> bool {
        match share_refusal(ops, gate) {
            Some(f) => r matches Err(e) && f.is(e) && done == ready,
            None => if ready.can_take(ops) {
                r matches Ok(n) && done.committed(&ready, ops, n)
            } else {
                r matches Err(e) && is_full(e) && done == ready
            },
        }
    }

    /// What comes after a write that left the engine as `done`: the policy is told of what
    /// was written, and then the memtable is frozen where it exceeds its size.
    pub open spec fn closes<P: WritePolicy>(
        &self,
        policy: &P,
        facts: Seq<WriteFacts>,
        done: Engine,
        r: EngineResult<u64>,
    ) -> bool {
        if r is Ok {
            exists|after: Engine| #[trigger]
                told_from(policy, facts, done, after) && self.settled(&after)
        } else {
            *self == done
        }
    }

    /// How a write of one operation ends that nothing but the policy, a share or want of
    /// room stops, from the state `before` in which the policy is asked.
    pub open spec fn decided<P: WritePolicy>(
        &self,
        policy: &P,
        before: Engine,
        facts: WriteFacts,
        op: OpView,
        gate: WriteGate,
        r: EngineResult<u64>,
    ) -> bool {
        if !policy.allows(before, facts) {
            r matches Err(e) && policy.refuses_with(before, facts, e) && policy.asked(
                before,
                facts,
                *self,
            )
        } else {
            exists|ready: Engine, done: Engine|
                #![trigger policy.asked(before, facts, ready), Engine::ends(ready, seq![op], gate, r, done)]
                policy.asked(before, facts, ready) && ready.keeps_user_data(&before)
                    && Engine::ends(ready, seq![op], gate, r, done) && self.closes(
                    policy,
                    seq![facts],
                    done,
                    r,
                )
        }
    }

    /// Writes a value under a key as `put` does, asking a policy first and telling it
    /// afterwards.
    pub fn put_with_policy<P: WritePolicy>(
        &mut self,
        policy: &P,
        key: Vec<u8>,
        value: Vec<u8>,
        expires_at: u64,
        gate: WriteGate,
        now_ms: u64,
    ) -> (r: EngineResult<u64>)
        requires
            old(self).wf(),
            old(self).measurable(),
        ensures
            final(self).wf(),
            match old(self).put_blocked(key@, value@, gate) {
                Some(f) => r matches Err(e) && f.is(e) && final(self).untouched(old(self)),
                None => final(self).decided(
                    policy,
                    old(self).accepting(key@, gate),
                    WriteFacts {
                        key: key@,
                        value_len: value@.len() as usize,
                        existing_value_len: if policy.looks_up() {
                            old(self).held_len(key@, now_ms)
                        } else {
                            None
                        },
                        is_delete: false,
                    },
                    put_op(key@, value@, expires_at),
                    gate,
                    r,
                ),
            },
            match r {
                Ok(n) => final(self).added_user_data(
                    old(self),
                    seq![put_op(key@, value@, expires_at)],
                    n,
                ),
                Err(e) => final(self).keeps_user_data(old(self)),
            },
    {
        match self.check_put(key.as_slice(), value.as_slice(), gate) {
            Err(e) => {
                return Err(e);
            },
            Ok(_) => {},
        }
        let existing: Option<usize> = if policy.needs_existing_len() {
            self.existing_len(key.as_slice(), now_ms)
        } else {
            None
        };
        let value_len: usize = value.len();
        let ghost facts = WriteFacts {
            key: key@,
            value_len,
            existing_value_len: existing,
            is_delete: false,
        };
        let ghost op = put_op(key@, value@, expires_at);
        match policy.pre_write(self, key.as_slice(), value_len, existing, false) {
            Err(e) => {
                return Err(e);
            },
            Ok(_) => {},
        }
        let ghost ready = *self;
        proof {
            share_of_put(key@, value@, expires_at);
        }
        match admit_put(key.as_slice(), gate) {
            Err(e) => {
                assert(Engine::ends(ready, seq![op], gate, Err::<u64, EngineError>(e), ready));
                return Err(e);
            },
            Ok(_) => {},
        }
        let kept: Vec<u8> = crate::bytes::copy_bytes(key.as_slice());
        let mut ops: Vec<WalOp> = Vec::new();
        ops.push(WalOp { command: WalCommand::Put, expires_at, key, value });
        assert(op_views(ops@) =~= seq![op]);
        proof {
            small_entry_fits(WalView { seq: self.seq@, ops: seq![op] });
        }
        let r: EngineResult<u64> = self.commit_ops(ops);
        let ghost done = *self;
        assert(Engine::ends(ready, seq![op], gate, r, done));
        if r.is_ok() {
            policy.post_write(self, kept.as_slice(), value_len, existing, false);
            proof {
                told_once(policy, facts, done, *self);
            }
            self.maybe_freeze();
        }
        r
    }

    /// Deletes a key as `del` does, asking a policy first and telling it afterwards.
    pub fn del_with_policy<P: WritePolicy>(
        &mut self,
        policy: &P,
        key: Vec<u8>,
        gate: WriteGate,
        now_ms: u64,
    ) -> (r: EngineResult<(bool, u64)>)
        requires
            old(self).wf(),
            old(self).measurable(),
        ensures
            final(self).wf(),
            match old(self).del_refusal(key@, gate) {
                Some(f) => r matches Err(e) && f.is(e) && final(self).untouched(old(self)),
                None => final(self).decided(
                    policy,
                    old(self).accepting(key@, gate),
                    WriteFacts {
                        key: key@,
                        value_len: 0,
                        existing_value_len: old(self).held_len(key@, now_ms),
                        is_delete: true,
                    },
                    del_op(key@),
                    gate,
                    match r {
                        Ok((_, n)) => Ok(n),
                        Err(e) => Err(e),
                    },
                ),
            },
            match r {
                Ok((existed, n)) => {
                    &&& existed == (value_at(old(self).store(), key@, u64::MAX, now_ms) is Some)
                    &&& final(self).added_user_data(old(self), seq![del_op(key@)], n)
                },
                Err(e) => final(self).keeps_user_data(old(self)),
            },
    {
        match self.prepare_del(key.as_slice(), gate) {
            Err(e) => {
                return Err(e);
            },
            Ok(_) => {},
        }
        let existing: Option<usize> = self.existing_len(key.as_slice(), now_ms);
        let ghost op = del_op(key@);
        let ghost facts = WriteFacts {
            key: key@,
            value_len: 0,
            existing_value_len: existing,
            is_delete: true,
        };
        match policy.pre_write(self, key.as_slice(), 0, existing, true) {
            Err(e) => {
                return Err(e);
            },
            Ok(_) => {},
        }
        let ghost ready = *self;
        let kept: Vec<u8> = crate::bytes::copy_bytes(key.as_slice());
        let mut ops: Vec<WalOp> = Vec::new();
        let value: Vec<u8> = Vec::new();
        ops.push(WalOp { command: WalCommand::Del, expires_at: 0, key, value });
        assert(op_views(ops@) =~= seq![op]);
        proof {
            small_entry_fits(WalView { seq: self.seq@, ops: seq![op] });
        }
        let r: EngineResult<u64> = self.commit_ops(ops);
        let ghost done = *self;
        assert(Engine::ends(ready, seq![op], gate, r, done));
        match r {
            Err(e) => Err(e),
            Ok(n) => {
                policy.post_write(self, kept.as_slice(), 0, existing, true);
                proof {
                    told_once(policy, facts, done, *self);
                }
                self.maybe_freeze();
                Ok((existing.is_some(), n))
            },
        }
    }

    /// What a policy is told of the operations of a batch.
    pub open spec fn batch_facts<P: WritePolicy>(
        &self,
        policy: &P,
        ops: Seq<OpView>,
        now_ms: u64,
    ) -> Seq<WriteFacts> {
        Seq::new(
            ops.len(),
            |i: int|
                op_facts(
                    ops,
                    i,
                    if policy.looks_up() {
                        self.held_len(ops[i].key, now_ms)
                    } else {
                        None
                    },
                ),
        )
    }

    /// How a batch ends that nothing but the policy, a share or want of room stops, from
    /// the state `before` in which the policy is first asked. It is asked about each
    /// operation in turn, until it refuses one.
    pub open spec fn decided_batch<P: WritePolicy>(
        &self,
        policy: &P,
        before: Engine,
        facts: Seq<WriteFacts>,
        ops: Seq<OpView>,
        gate: WriteGate,
        r: EngineResult<u64>,
    ) -> bool {
        exists|states: Seq<Engine>, k: int| #[trigger]
            allowed_first(policy, before, facts, states, k) && if k < facts.len() {
                &&& !policy.allows(states[k], facts[k])
                &&& r matches Err(e) && policy.refuses_with(states[k], facts[k], e)
                &&& policy.asked(states[k], facts[k], *self)
            } else {
                exists|done: Engine| #[trigger]
                    Engine::ends(states[k], ops, gate, r, done) && self.closes(
                        policy,
                        facts,
                        done,
                        r,
                    )
            }
    }

    /// Writes a batch as `write_batch` does. A policy is asked about every operation
    /// before anything is written, and one refusal refuses the whole batch.
    pub fn write_batch_with_policy<P: WritePolicy>(
        &mut self,
        policy: &P,
        ops: Vec<BatchOp>,
        gate: WriteGate,
        now_ms: u64,
    ) -> (r: EngineResult<u64>)
        requires
            old(self).wf(),
            old(self).measurable(),
        ensures
            final(self).wf(),
            match old(self).batch_blocked(batch_ops(ops@), gate) {
                Some(f) => r matches Err(e) && f.is(e) && final(self).untouched(old(self)),
                None => final(self).decided_batch(
                    policy,
                    old(self).accepting(batch_ops(ops@)[0].key, gate),
                    old(self).batch_facts(policy, batch_ops(ops@), now_ms),
                    batch_ops(ops@),
                    gate,
                    r,
                ),
            },
            match r {
                Ok(n) => final(self).added_user_data(old(self), batch_ops(ops@), n),
                Err(e) => final(self).keeps_user_data(old(self)),
            },
    {
        let ghost views = batch_ops(ops@);
        match self.check_batch(&ops, gate) {
            Err(e) => {
                return Err(e);
            },
            Ok(_) => {},
        }
        proof {
            crate::engine::ops::faultless_batch(views, views.len() as int);
        }
        let ghost facts = old(self).batch_facts(policy, views, now_ms);
        let ghost before = *self;
        let ghost mut states: Seq<Engine> = seq![before];
        let looks_up: bool = policy.needs_existing_len();
        let n: usize = ops.len();
        let mut existing_lens: Vec<Option<usize>> = Vec::new();
        let mut i: usize = 0;
        while i < n
            invariant
                i <= n == ops@.len(),
                views == batch_ops(ops@),
                forall|j: int| 0 <= j < n ==> user_key_ok((#[trigger] views[j]).key),
                looks_up == policy.looks_up(),
                old(self).wf(),
                facts == old(self).batch_facts(policy, views, now_ms),
                before == old(self).accepting(views[0].key, gate),
                old(self).batch_blocked(views, gate) is None,
                existing_lens@.len() == i,
                forall|j: int|
                    0 <= j < i ==> facts[j] == #[trigger] op_facts(views, j, existing_lens@[j]),
                self.wf(),
                self.keeps_user_data(old(self)),
                allowed_first(policy, before, facts, states, i as int),
                states.len() == i + 1,
                states.last() == *self,
            decreases n - i,
        {
            proof {
                assert(views[i as int] == ops@[i as int].op());
                held_len_kept(*old(self), *self, views[i as int].key, now_ms);
            }
            let existing: Option<usize> = if looks_up {
                self.existing_len(ops[i].key(), now_ms)
            } else {
                None
            };
            existing_lens.push(existing);
            assert(facts[i as int] == op_facts(views, i as int, existing));
            match policy.pre_write(
                self,
                ops[i].key(),
                ops[i].value_len(),
                existing,
                ops[i].is_delete(),
            ) {
                Err(e) => {
                    assert(allowed_first(policy, before, facts, states, i as int));
                    return Err(e);
                },
                Ok(_) => {},
            }
            proof {
                let was = states;
                states = states.push(*self);
                assert(states.drop_last() =~= was);
                assert forall|j: int| 0 <= j < i + 1 implies policy.allows(
                    states[j],
                    #[trigger] facts[j],
                ) && policy.asked(states[j], facts[j], states[j + 1]) by {
                    if j < i {
                        assert(policy.allows(was[j], facts[j]));
                    }
                }
            }
            i = i + 1;
        }
        let ghost ready = *self;
        match admit_batch(&ops, gate) {
            Err(e) => {
                assert(Engine::ends(
                    states[n as int],
                    views,
                    gate,
                    Err::<u64, EngineError>(e),
                    ready,
                ));
                return Err(e);
            },
            Ok(_) => {},
        }
        proof {
            small_entry_fits(WalView { seq: self.seq@, ops: views });
        }
        let wal_ops: Vec<WalOp> = to_wal_ops(&ops);
        let r: EngineResult<u64> = self.commit_ops(wal_ops);
        let ghost mut done: Seq<Engine> = seq![*self];
        assert(Engine::ends(states[n as int], views, gate, r, *self));
        let seq: u64 = match r {
            Err(e) => {
                return Err(e);
            },
            Ok(seq) => seq,
        };
        let mut j: usize = 0;
        while j < n
            invariant
                j <= n == ops@.len() == existing_lens@.len(),
                n == facts.len(),
                views == batch_ops(ops@),
                forall|q: int|
                    0 <= q < n ==> facts[q] == #[trigger] op_facts(views, q, existing_lens@[q]),
                self.wf(),
                self.added_user_data(old(self), views, seq),
                done.len() == j + 1,
                done.last() == *self,
                Engine::ends(ready, views, gate, Ok::<u64, EngineError>(seq), done[0]),
                forall|q: int|
                    0 <= q < j ==> policy.told(done[q], #[trigger] facts[q], done[q + 1]),
            decreases n - j,
        {
            assert(views[j as int] == ops@[j as int].op());
            assert(facts[j as int] == op_facts(views, j as int, existing_lens@[j as int]));
            policy.post_write(
                self,
                ops[j].key(),
                ops[j].value_len(),
                existing_lens[j],
                ops[j].is_delete(),
            );
            proof {
                let was = done;
                done = done.push(*self);
                assert forall|q: int| 0 <= q < j + 1 implies policy.told(
                    done[q],
                    #[trigger] facts[q],
                    done[q + 1],
                ) by {
                    if q < j {
                        assert(policy.told(was[q], facts[q], was[q + 1]));
                    }
                }
            }
            j = j + 1;
        }
        assert(told_all(policy, facts, done));
        assert(told_from(policy, facts, done[0], *self));
        self.maybe_freeze();
        Ok(seq)
    }
}

/// The policy was asked about the first `k` writes in turn and allowed them, which took
/// the engine through the states.
pub open spec fn allowed_first<P: WritePolicy>(
    policy: &P,
    before: Engine,
    facts: Seq<WriteFacts>,
    states: Seq<Engine>,
    k: int,
) -> bool {
    &&& 0 <= k <= facts.len()
    &&& states.len() == k + 1
    &&& states[0] == before
    &&& forall|i: int|
        0 <= i < k ==> policy.allows(states[i], #[trigger] facts[i]) && policy.asked(
            states[i],
            facts[i],
            states[i + 1],
        )
}

/// The policy was told of the writes in turn, which took the engine through the states.
pub open spec fn told_all<P: WritePolicy>(
    policy: &P,
    facts: Seq<WriteFacts>,
    states: Seq<Engine>,
) -> bool {
    &&& states.len() == facts.len() + 1
    &&& forall|i: int|
        0 <= i < facts.len() ==> policy.told(states[i], #[trigger] facts[i], states[i + 1])
}

/// Telling the policy of the writes in turn takes the engine from one state to another.
pub open spec fn told_from<P: WritePolicy>(
    policy: &P,
    facts: Seq<WriteFacts>,
    before: Engine,
    after: Engine,
) -> bool {
    exists|states: Seq<Engine>| #[trigger]
        told_all(policy, facts, states) && states[0] == before && states.last() == after
}

proof fn told_once<P: WritePolicy>(policy: &P, facts: WriteFacts, before: Engine, after: Engine)
    requires
        policy.told(before, facts, after),
    ensures
        told_from(policy, seq![facts], before, after),
{
    let states = seq![before, after];
    assert(told_all(policy, seq![facts], states));
}

/// The value that a user key holds depends on the user data alone.
proof fn held_len_kept(a: Engine, b: Engine, key: Seq<u8>, now_ms: u64)
    requires
        a.wf(),
        b.wf(),
        b.keeps_user_data(&a),
        user_key_ok(key),
    ensures
        a.held_len(key, now_ms) == b.held_len(key, now_ms),
{
    assert forall|v: Version| visible(v, key, u64::MAX) implies (#[trigger] a.store().contains(v)
        <==> b.store().contains(v)) by {
        assert(is_user(v));
        assert(user_part(a.store()).contains(v) == a.store().contains(v));
        assert(user_part(b.store()).contains(v) == b.store().contains(v));
    }
    newest_depends_on_key(a.store(), b.store(), key, u64::MAX);
}

/// A write under the policy that allows everything ends as one without a policy.
pub proof fn noop_policy_is_no_policy(
    before: Engine,
    after: Engine,
    facts: WriteFacts,
    op: OpView,
    gate: WriteGate,
    r: EngineResult<u64>,
)
    requires
        after.decided(&NoopWritePolicy, before, facts, op, gate, r),
    ensures
        match share_refusal(seq![op], gate) {
            Some(f) => r matches Err(e) && f.is(e) && after == before,
            None => if before.can_take(seq![op]) {
                &&& r == Ok::<u64, EngineError>(before.seq@)
                &&& after.seq@ == before.seq@ + 1
                &&& after.wrote(&before, WalView { seq: before.seq@, ops: seq![op] })
            } else {
                r matches Err(e) && is_full(e) && after == before
            },
        },
{
    let p = NoopWritePolicy;
    let (ready, done) = choose|ready: Engine, done: Engine|
        #![trigger p.asked(before, facts, ready), Engine::ends(ready, seq![op], gate, r, done)]
        p.asked(before, facts, ready) && ready.keeps_user_data(&before) && Engine::ends(
            ready,
            seq![op],
            gate,
            r,
            done,
        ) && after.closes(&p, seq![facts], done, r);
    if r is Ok {
        let e = WalView { seq: before.seq@, ops: seq![op] };
        let told = choose|told: Engine| #[trigger]
            told_from(&p, seq![facts], done, told) && after.settled(&told);
        let states = choose|states: Seq<Engine>| #[trigger]
            told_all(&p, seq![facts], states) && states[0] == done && states.last() == told;
        assert(p.told(states[0], seq![facts][0], states[1]));
        assert(told == done);
        assert(joins(done.layers.active@, before.layers.active@, e.writes()));
        if total_footprint(done.layers.active@) > done.cfg.memtable_flush_threshold {
            freezing_keeps_store(done.layers, after.layers);
        }
        assert(after.took_up(&before, e));
    }
}

} // verus!
