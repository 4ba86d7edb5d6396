//! Writes: which are accepted, how long they wait, and what they leave behind.

use vstd::prelude::*;
use crate::compaction::{pending, plannable};
use crate::engine::ops::{batch_fault, put_op, Refusal};
use crate::engine::write::WriteGate;
use crate::engine::Engine;
use crate::keys::{system_key_ok, user_key_fault, user_key_ok, value_fault, value_ok};
use crate::laws::planner::{size_is_sum, tables_at};
use crate::memtable::total_footprint;
use crate::policy::WritePolicy;
use crate::records::Version;
use crate::store::value_at;
use crate::wal::{rolls, OpView, WalCommand, WalView};

verus! {

/// A key of the user keyspace has from one to sixty-four times 1024 bytes and begins with
/// a one; one of the system keyspace begins with a zero. A value has at most sixteen times
/// 1024 times 1024 bytes.
pub proof fn limits_of_keys_and_values(key: Seq<u8>, value: Seq<u8>)
    ensures
        user_key_ok(key) <==> 1 <= key.len() <= 65_536 && key[0] == 1,
        system_key_ok(key) <==> 1 <= key.len() <= 65_536 && key[0] == 0,
        value_ok(value) <==> value.len() <= 16_777_216,
{
}

/// The key names its tenant.
pub open spec fn names_tenant(key: Seq<u8>) -> bool {
    key.len() >= 17 && key[0] == 1
}

/// The tenant of the key is to blame for a backlog.
pub open spec fn to_blame(key: Seq<u8>, gate: WriteGate) -> bool {
    gate.fair_on && gate.noisy && names_tenant(key)
}

/// A count of one where something holds.
pub open spec fn one_if(b: bool) -> int {
    if b {
        1
    } else {
        0
    }
}

/// The memtables that wait for the flush worker: all that are frozen but the one that it
/// has.
pub open spec fn waiting(e: Engine) -> int {
    let n = e.layers.immutables@.len() as int;
    if n > 0 {
        n - one_if(e.flush_scheduler.worker_busy)
    } else {
        0
    }
}

/// The jobs that run, wait or were asked for.
pub open spec fn depth(e: Engine) -> int {
    one_if(e.compaction_scheduler.worker_busy) + one_if(e.compaction_scheduler.pending is Some)
        + one_if(e.compaction_scheduler.compaction_needed) + one_if(e.flush_scheduler.worker_busy)
}

/// Nothing keeps every write out: writes are not frozen, at most 256 times 1024 times 1024
/// bytes of the log are in flight, and fewer memtables wait than twice the number at which
/// writes stall.
pub open spec fn open_to_some(e: Engine) -> bool {
    &&& !e.freeze_writes
    &&& e.in_flight_wal_bytes <= 268_435_456
    &&& waiting(e) < 2 * e.cfg.max_immutable_memtables || waiting(e)
        <= e.cfg.max_immutable_memtables
    &&& waiting(e) < usize::MAX
}

/// The backlog keeps no write out: fewer memtables wait than the number at which writes
/// stall, fewer than four jobs are at hand, and level 0 has fewer tables than the threshold,
/// which is five times the trigger of its compaction and at least twenty where none is set.
pub open spec fn open_to_all(e: Engine) -> bool {
    &&& waiting(e) < e.cfg.max_immutable_memtables
    &&& depth(e) < 4
    &&& match e.cfg.l0_write_stall_threshold {
        Some(n) => tables_at(e.catalog(), 0) < n,
        None => tables_at(e.catalog(), 0) < 20 || tables_at(e.catalog(), 0) < 5
            * e.cfg.compaction.l0_trigger,
    }
}

/// When a write is refused for now. A tenant that is not to blame is spared the backlog
/// where shares are fair.
pub proof fn writes_wait_for_the_backlog(e: Engine, key: Seq<u8>, gate: WriteGate)
    requires
        e.cfg.max_immutable_memtables < usize::MAX,
        e.cfg.compaction.l0_trigger * 5 <= usize::MAX,
        e.cfg.max_immutable_memtables * 2 <= usize::MAX,
        e.layers.immutables@.len() < usize::MAX,
    ensures
        e.busy_reason(key, gate) is None <==> open_to_some(e) && (open_to_all(e) || (gate.fair_on
            && !to_blame(key, gate))),
        e.freeze_writes ==> e.busy_reason(key, gate) == Some("writes frozen"@),
        !e.freeze_writes && e.in_flight_wal_bytes > 268_435_456 ==> e.busy_reason(key, gate) == Some(
            "WAL in-flight limit"@,
        ),
        !e.freeze_writes && e.in_flight_wal_bytes <= 268_435_456 && !open_to_some(e)
            ==> e.busy_reason(key, gate) == Some("flush queue full"@),
        open_to_some(e) && !(gate.fair_on && !to_blame(key, gate)) && waiting(e)
            >= e.cfg.max_immutable_memtables ==> e.busy_reason(key, gate) == Some(
            "flush queue full"@,
        ),
        e.charges(key, gate) <==> to_blame(key, gate) && open_to_some(e) && !open_to_all(e),
{
    size_is_sum(e.catalog(), 0);
}

/// How long an accepted write waits, in microseconds. From the hard limit on the debt on it
/// waits whole milliseconds: one at the limit, one more for each quarter of the limit, five
/// at most. Above the soft limit it waits a tenth of a millisecond and another nine tenths
/// by the time the debt has doubled, and no longer. A tenant to blame waits at least two
/// milliseconds.
pub proof fn writes_slow_down_with_the_debt(e: Engine, key: Seq<u8>, gate: WriteGate)
    requires
        plannable(e.catalog(), e.cfg.compaction),
    ensures
        ({
            let p = pending(e.catalog(), e.cfg.compaction) as int;
            let hard = e.cfg.compaction.hard_pending_compaction_bytes as int;
            let soft = e.cfg.compaction.soft_pending_compaction_bytes as int;
            let w = e.slowdown_us(key, gate);
            &&& to_blame(key, gate) ==> w >= 2000
            &&& hard > 0 && p >= hard && !(to_blame(key, gate) && w == 2000) ==> exists|k: int|
                {
                    &&& 1 <= k <= 5
                    &&& w == #[trigger] (k * 1000)
                    &&& k * hard <= hard + 4 * (p - hard)
                    &&& k < 5 ==> hard + 4 * (p - hard) < (k + 1) * hard
                }
            &&& (hard == 0 || p < hard) && 0 < soft < p && !to_blame(key, gate) ==> {
                &&& 100 <= w <= 1000
                &&& w * soft <= 100 * soft + 900 * (p - soft)
                &&& w < 1000 ==> 100 * soft + 900 * (p - soft) < (w + 1) * soft
            }
            &&& (hard == 0 || p < hard) && (soft == 0 || p <= soft) && !to_blame(key, gate) ==> w
                == 0
            &&& (hard == 0 || p < hard) && to_blame(key, gate) ==> w == 2000
            &&& hard > 0 && p >= hard && to_blame(key, gate) && w == 2000 ==> hard + 4 * (p - hard)
                < 3 * hard
        }),
{
    let p = pending(e.catalog(), e.cfg.compaction) as int;
    let hard = e.cfg.compaction.hard_pending_compaction_bytes as int;
    let soft = e.cfg.compaction.soft_pending_compaction_bytes as int;
    let w = e.slowdown_us(key, gate);
    if hard > 0 && p >= hard {
        let x = hard + 4 * (p - hard);
        let q = x / hard;
        assert(q * hard <= x < (q + 1) * hard) by (nonlinear_arith)
            requires
                q == x / hard,
                hard > 0,
        ;
        assert(q >= 1) by (nonlinear_arith)
            requires
                q == x / hard,
                x >= hard,
                hard > 0,
        ;
        let k = if q < 5 {
            q
        } else {
            5
        };
        assert(k * hard <= x) by (nonlinear_arith)
            requires
                k <= q,
                q * hard <= x,
                hard > 0,
        ;
        if to_blame(key, gate) && w == 2000 {
            assert((k + 1) * hard <= 3 * hard) by (nonlinear_arith)
                requires
                    k <= 2,
                    hard > 0,
            ;
        } else {
            assert(w == k * 1000);
        }
    } else if soft > 0 && p > soft {
        let x = 100 * soft + 900 * (p - soft);
        let q = x / soft;
        assert(q * soft <= x < (q + 1) * soft) by (nonlinear_arith)
            requires
                q == x / soft,
                soft > 0,
        ;
        assert(q >= 100) by (nonlinear_arith)
            requires
                q == x / soft,
                x >= 100 * soft,
                soft > 0,
        ;
        let k = if q < 1000 {
            q
        } else {
            1000
        };
        assert(k * soft <= x) by (nonlinear_arith)
            requires
                k <= q,
                q * soft <= x,
                soft > 0,
        ;
    }
}

/// A write is to take from a share that is used up.
pub open spec fn share_is_spent(ops: Seq<OpView>, gate: WriteGate) -> bool {
    !gate.admits && exists|i: int|
        0 <= i < ops.len() && (#[trigger] ops[i]).command == WalCommand::Put && names_tenant(
            ops[i].key,
        )
}

/// A put of a valid key and value is accepted where the engine is open to it and its
/// tenant's share is not used up; and only then. A bad key is named before a bad value, and
/// both before a busy engine.
pub proof fn puts_are_accepted(e: Engine, key: Seq<u8>, value: Seq<u8>, gate: WriteGate)
    ensures
        e.put_refusal(key, value, gate) is None <==> {
            &&& 1 <= key.len() <= 65_536 && key[0] == 1
            &&& value.len() <= 16_777_216
            &&& e.busy_reason(key, gate) is None
            &&& gate.admits || !names_tenant(key)
        },
        !(1 <= key.len() <= 65_536 && key[0] == 1) ==> e.put_refusal(key, value, gate) == Some(
            Refusal::InvalidKey(user_key_fault(key)),
        ),
        1 <= key.len() <= 65_536 && key[0] == 1 && value.len() > 16_777_216 ==> e.put_refusal(
            key,
            value,
            gate,
        ) == Some(Refusal::InvalidValue(value_fault(value))),
        e.del_refusal(key, gate) is None <==> {
            &&& 1 <= key.len() <= 65_536 && key[0] == 1
            &&& e.busy_reason(key, gate) is None
        },
{
    let op = put_op(key, value, 0);
    let ops = seq![op];
    assert(ops[0] == op);
    if names_tenant(key) {
        assert(crate::engine::ops::takes_share(ops[0]));
    }
}

/// What makes an operation of a batch bad: its key, its value, or an earlier operation on
/// its key.
pub open spec fn bad_op(ops: Seq<OpView>, i: int) -> bool {
    ||| !(1 <= ops[i].key.len() <= 65_536 && ops[i].key[0] == 1)
    ||| ops[i].value.len() > 16_777_216
    ||| exists|j: int| 0 <= j < i && (#[trigger] ops[j]).key == ops[i].key
}

/// Why an operation of a batch is bad.
pub open spec fn op_fault(ops: Seq<OpView>, i: int) -> Refusal {
    if !(1 <= ops[i].key.len() <= 65_536 && ops[i].key[0] == 1) {
        Refusal::InvalidKey(user_key_fault(ops[i].key))
    } else if ops[i].value.len() > 16_777_216 {
        Refusal::InvalidValue(value_fault(ops[i].value))
    } else {
        Refusal::InvalidKey("duplicate key in batch"@)
    }
}

proof fn first_bad_op(ops: Seq<OpView>, n: int)
    requires
        0 <= n <= ops.len(),
    ensures
        batch_fault(ops, n) is None <==> forall|i: int| 0 <= i < n ==> !#[trigger] bad_op(ops, i),
        batch_fault(ops, n) matches Some(f) ==> exists|i: int|
            {
                &&& 0 <= i < n
                &&& #[trigger] bad_op(ops, i)
                &&& f == op_fault(ops, i)
                &&& forall|j: int| 0 <= j < i ==> !#[trigger] bad_op(ops, j)
            },
    decreases n,
{
    if n > 0 {
        first_bad_op(ops, n - 1);
        let k = n - 1;
        assert(batch_fault(ops, n - 1) is None ==> (batch_fault(ops, n) is Some <==> bad_op(ops, k)));
    }
}

/// A batch of one to 1024 operations on distinct valid keys is accepted where the engine is
/// open to its first key and no share that it takes from is used up; and only then. The
/// first bad operation is named.
pub proof fn batches_are_accepted(e: Engine, ops: Seq<OpView>, gate: WriteGate)
    ensures
        e.batch_refusal(ops, gate) is None <==> {
            &&& 1 <= ops.len() <= 1024
            &&& forall|i: int| 0 <= i < ops.len() ==> !#[trigger] bad_op(ops, i)
            &&& e.busy_reason(ops[0].key, gate) is None
            &&& !share_is_spent(ops, gate)
        },
        1 <= ops.len() <= 1024 && (exists|i: int| 0 <= i < ops.len() && bad_op(ops, i)) ==> exists|
            i: int,
        |
            {
                &&& 0 <= i < ops.len()
                &&& #[trigger] bad_op(ops, i)
                &&& e.batch_refusal(ops, gate) == Some(op_fault(ops, i))
                &&& forall|j: int| 0 <= j < i ==> !#[trigger] bad_op(ops, j)
            },
{
    first_bad_op(ops, ops.len() as int);
    if share_is_spent(ops, gate) {
        let i = choose|i: int|
            0 <= i < ops.len() && (#[trigger] ops[i]).command == WalCommand::Put && names_tenant(
                ops[i].key,
            );
        assert(crate::engine::ops::takes_share(ops[i]));
    }
}

/// Before a policy is asked, a put or a batch is held to the same rules, but for the
/// shares of tenants: the key, the value, and then whether the engine is busy.
pub proof fn policed_writes_are_held_to_the_same_rules(
    e: Engine,
    key: Seq<u8>,
    value: Seq<u8>,
    ops: Seq<OpView>,
    gate: WriteGate,
)
    ensures
        e.put_blocked(key, value, gate) is None <==> {
            &&& 1 <= key.len() <= 65_536 && key[0] == 1
            &&& value.len() <= 16_777_216
            &&& e.busy_reason(key, gate) is None
        },
        !(1 <= key.len() <= 65_536 && key[0] == 1) ==> e.put_blocked(key, value, gate) == Some(
            Refusal::InvalidKey(user_key_fault(key)),
        ),
        1 <= key.len() <= 65_536 && key[0] == 1 && value.len() > 16_777_216 ==> e.put_blocked(
            key,
            value,
            gate,
        ) == Some(Refusal::InvalidValue(value_fault(value))),
        e.batch_blocked(ops, gate) is None <==> {
            &&& 1 <= ops.len() <= 1024
            &&& forall|i: int| 0 <= i < ops.len() ==> !#[trigger] bad_op(ops, i)
            &&& e.busy_reason(ops[0].key, gate) is None
        },
        1 <= ops.len() <= 1024 && (exists|i: int| 0 <= i < ops.len() && bad_op(ops, i)) ==> exists|
            i: int,
        |
            {
                &&& 0 <= i < ops.len()
                &&& #[trigger] bad_op(ops, i)
                &&& e.batch_blocked(ops, gate) == Some(op_fault(ops, i))
                &&& forall|j: int| 0 <= j < i ==> !#[trigger] bad_op(ops, j)
            },
{
    first_bad_op(ops, ops.len() as int);
}

/// What is known of each operation of a batch when a policy is asked: its key, the length
/// of its value, whether it deletes, and, where the policy wants to know, the length of the
/// value that a reader now gets under the key.
pub proof fn policies_are_told_of_each_operation<P: WritePolicy>(
    e: Engine,
    policy: &P,
    ops: Seq<OpView>,
    now_ms: u64,
    i: int,
)
    requires
        0 <= i < ops.len(),
        ops[i].value.len() <= usize::MAX,
    ensures
        ({
            let f = e.batch_facts(policy, ops, now_ms);
            &&& f.len() == ops.len()
            &&& f[i].key == ops[i].key
            &&& f[i].value_len == ops[i].value.len()
            &&& f[i].is_delete <==> ops[i].command == WalCommand::Del
            &&& !policy.looks_up() ==> f[i].existing_value_len is None
            &&& policy.looks_up() ==> match value_at(e.store(), ops[i].key, u64::MAX, now_ms) {
                Some(x) => f[i].existing_value_len == Some(x.len() as usize),
                None => f[i].existing_value_len is None,
            }
        }),
{
}

/// What a record leaves in the log. It is buffered. Where commits are not grouped, all that
/// is buffered is synced at once; else only a sealed segment is. A segment of more than its
/// header is sealed before it would hold more than sixty-four times 1024 times 1024 bytes,
/// and is noted with the last number that was buffered before.
pub proof fn records_go_to_the_log(before: Engine, after: Engine, e: WalView, grouped: bool)
    requires
        after.logged_with(&before, e, grouped),
    ensures
        after.buffered_seq >= before.buffered_seq,
        after.buffered_seq >= e.seq,
        after.buffered_seq == before.buffered_seq || after.buffered_seq == e.seq,
        !grouped ==> after.synced_seq == after.buffered_seq,
        after.in_flight_wal_bytes == before.in_flight_wal_bytes + e.encoded().len(),
        ({
            let full = before.active_wal_size > 0 && before.active_wal_size + e.encoded().len()
                > 67_108_864;
            &&& grouped && full ==> after.synced_seq == before.buffered_seq
            &&& grouped && !full ==> after.synced_seq == before.synced_seq
            &&& !full ==> after.active_wal_id == before.active_wal_id && after.active_wal_size
                == before.active_wal_size + e.encoded().len() && after.sealed_segment_max_seq@
                == before.sealed_segment_max_seq@
            &&& full ==> after.active_wal_id == before.active_wal_id + 1 && after.active_wal_size
                == 9 + e.encoded().len() && after.sealed_segment_max_seq@[before.active_wal_id]
                == before.buffered_seq && after.sealed_segment_max_seq@.dom().contains(
                before.active_wal_id,
            )
            &&& forall|id: u64|
                id != before.active_wal_id ==> (
                #[trigger] after.sealed_segment_max_seq@.dom().contains(id)
                    <==> before.sealed_segment_max_seq@.dom().contains(id)) && (
                before.sealed_segment_max_seq@.dom().contains(id)
                    ==> after.sealed_segment_max_seq@[id] == before.sealed_segment_max_seq@[id])
        }),
{
    assert(rolls(before.active_wal_size as nat, e.encoded().len()) == (before.active_wal_size > 0
        && before.active_wal_size + e.encoded().len() > 67_108_864));
}

/// What a memtable counts for its versions: the bytes of key and value, and sixty-five for
/// each.
pub open spec fn counted(s: Seq<Version>) -> int {
    s.fold_left(
        0int,
        |n: int, v: Version|
            n + v.0.user_key.len() + 65 + match v.1.value {
                Some(x) => x.len() as int,
                None => 0,
            },
    )
}

/// The size of a memtable counts every version.
pub proof fn a_memtable_counts_every_version(s: Seq<Version>)
    ensures
        total_footprint(s) == counted(s),
    decreases s.len(),
{
    if s.len() > 0 {
        a_memtable_counts_every_version(s.drop_last());
    }
}

/// A record takes effect: what was there stays, and each of its operations adds one
/// version of its key under the record's number, with the value that it puts or none, and
/// with its expiry unless that is zero. The record's versions are alone under that number.
pub proof fn records_add_their_operations(before: Engine, after: Engine, e: WalView, v: Version)
    requires
        after.wrote_record(&before, e),
    ensures
        after.store().contains(v) <==> before.store().contains(v) || exists|i: int|
            {
                &&& 0 <= i < e.ops.len()
                &&& v.0.user_key == (#[trigger] e.ops[i]).key
                &&& v.0.seq == e.seq
                &&& match e.ops[i].command {
                    WalCommand::Put => {
                        &&& v.0.kind == crate::keys::EntryKind::Value
                        &&& v.1.value == Some(e.ops[i].value)
                        &&& v.1.expires_at == (if e.ops[i].expires_at > 0 {
                            Some(e.ops[i].expires_at)
                        } else {
                            None::<u64>
                        })
                    },
                    WalCommand::Del => {
                        &&& v.0.kind == crate::keys::EntryKind::Tombstone
                        &&& v.1.value is None
                        &&& v.1.expires_at is None
                    },
                }
            },
        after.layers.tables == before.layers.tables,
        after.next_sstable_id == before.next_sstable_id,
        after.pins == before.pins,
        after.cfg == before.cfg,
{
    let w = e.writes();
    if exists|i: int| 0 <= i < e.ops.len() && w[i] == v {
        let i = choose|i: int| 0 <= i < e.ops.len() && w[i] == v;
        assert(v == crate::wal::op_version(e.ops[i], e.seq));
        assert(w.contains(v));
    }
    if w.to_set().contains(v) {
        let i = choose|i: int| 0 <= i < w.len() && w[i] == v;
        assert(v == crate::wal::op_version(e.ops[i], e.seq));
    }
    assert forall|i: int| 0 <= i < e.ops.len() implies #[trigger] w[i] == crate::wal::op_version(
        e.ops[i],
        e.seq,
    ) by {}
    if exists|i: int|
        {
            &&& 0 <= i < e.ops.len()
            &&& v.0.user_key == (#[trigger] e.ops[i]).key
            &&& v.0.seq == e.seq
            &&& crate::wal::op_version(e.ops[i], e.seq) == v
        } {
        let i = choose|i: int|
            {
                &&& 0 <= i < e.ops.len()
                &&& v.0.user_key == (#[trigger] e.ops[i]).key
                &&& v.0.seq == e.seq
                &&& crate::wal::op_version(e.ops[i], e.seq) == v
            };
        assert(w[i] == v);
    }
    assert forall|i: int|
        0 <= i < e.ops.len() && v.0.user_key == (#[trigger] e.ops[i]).key && v.0.seq == e.seq
            && match e.ops[i].command {
            WalCommand::Put => {
                &&& v.0.kind == crate::keys::EntryKind::Value
                &&& v.1.value == Some(e.ops[i].value)
                &&& v.1.expires_at == (if e.ops[i].expires_at > 0 {
                    Some(e.ops[i].expires_at)
                } else {
                    None::<u64>
                })
            },
            WalCommand::Del => {
                &&& v.0.kind == crate::keys::EntryKind::Tombstone
                &&& v.1.value is None
                &&& v.1.expires_at is None
            },
        } implies w.to_set().contains(v) by {
        assert(w[i] == v);
    }
}

/// A memtable is frozen when a write makes it larger than its threshold, and only then. A
/// frozen one joins the end of the queue whole.
pub proof fn a_memtable_is_frozen_when_full(before: Engine, after: Engine, e: WalView)
    requires
        after.took_up(&before, e),
    ensures
        exists|grown: Seq<Version>|
            {
                &&& forall|v: Version| #[trigger]
                    grown.contains(v) <==> before.layers.active@.contains(v) || e.writes().contains(v)
                &&& #[trigger] counted(grown) <= before.cfg.memtable_flush_threshold
                    ==> after.layers.active@ == grown && after.layers.immutables
                    == before.layers.immutables
                &&& counted(grown) > before.cfg.memtable_flush_threshold ==> {
                    &&& after.layers.active@.len() == 0
                    &&& after.layers.immutables@.len() == before.layers.immutables@.len() + 1
                    &&& after.layers.immutables@.last()@ == grown
                    &&& forall|i: int|
                        0 <= i < before.layers.immutables@.len() ==> (
                        #[trigger] after.layers.immutables@[i])@ == before.layers.immutables@[i]@
                }
            },
{
    let grown = choose|grown: Seq<Version>| #[trigger]
        crate::engine::write::joins(grown, before.layers.active@, e.writes()) && if total_footprint(
            grown,
        ) <= before.cfg.memtable_flush_threshold {
            after.layers.active@ == grown && after.layers.immutables == before.layers.immutables
        } else {
            &&& after.layers.active@ == Seq::<Version>::empty()
            &&& crate::snapshot::memtable_runs(after.layers.immutables@)
                == crate::snapshot::memtable_runs(before.layers.immutables@).push(grown)
        };
    a_memtable_counts_every_version(grown);
    let a = crate::snapshot::memtable_runs(after.layers.immutables@);
    let b = crate::snapshot::memtable_runs(before.layers.immutables@);
    if counted(grown) > before.cfg.memtable_flush_threshold {
        assert(a.len() == b.len() + 1);
        assert(a[b.len() as int] == grown);
        assert forall|i: int| 0 <= i < before.layers.immutables@.len() implies (
        #[trigger] after.layers.immutables@[i])@ == before.layers.immutables@[i]@ by {
            assert(a[i] == b[i]);
        }
    }
}

} // verus!
