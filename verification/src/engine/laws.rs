//! What holds of the engine as a whole.

use vstd::prelude::*;
use crate::engine::jobs::to_flush;
use crate::engine::ops::{del_op, key_occurs, put_op};
use crate::engine::write::keys_distinct;
use crate::engine::{all_below, newest_depends_on_key, Engine};
use crate::records::{visible, Version};
use crate::store::{coherent, newest, newest_is, value_at};
use crate::wal::{op_version, OpView, WalView};

verus! {

/// A record changes what readers get of the keys that it writes, from its sequence
/// number on, and nothing else.
pub proof fn record_changes_its_keys(s: Set<Version>, e: WalView, key: Seq<u8>, upper: u64)
    requires
        coherent(s),
        coherent(s.union(e.writes().to_set())),
        all_below(s, e.seq),
        keys_distinct(e.ops),
    ensures
        forall|i: int|
            0 <= i < e.ops.len() && (#[trigger] e.ops[i]).key == key && upper >= e.seq ==> newest(
                s.union(e.writes().to_set()),
                key,
                upper,
            ) == Some(op_version(e.ops[i], e.seq)),
        upper < e.seq || !key_occurs(e.ops, e.ops.len() as int, key) ==> newest(
            s.union(e.writes().to_set()),
            key,
            upper,
        ) == newest(s, key, upper),
{
    let w = e.writes();
    let u = s.union(w.to_set());
    assert forall|i: int|
        0 <= i < e.ops.len() && (#[trigger] e.ops[i]).key == key && upper >= e.seq implies newest(
        u,
        key,
        upper,
    ) == Some(op_version(e.ops[i], e.seq)) by {
        let v = op_version(e.ops[i], e.seq);
        assert(w[i] == v);
        assert(w.to_set().contains(v));
        assert(u.contains(v));
        assert forall|x: Version| #[trigger] u.contains(x) && visible(x, key, upper) implies x.0.seq
            <= v.0.seq by {
            if !s.contains(x) {
                let k = choose|k: int| 0 <= k < w.len() && w[k] == x;
                assert(w[k] == op_version(e.ops[k], e.seq));
            }
        }
        newest_is(u, key, upper, v);
    }
    if upper < e.seq || !key_occurs(e.ops, e.ops.len() as int, key) {
        assert forall|v: Version| visible(v, key, upper) implies (#[trigger] u.contains(v)
            <==> s.contains(v)) by {
            if w.to_set().contains(v) {
                let k = choose|k: int| 0 <= k < w.len() && w[k] == v;
                assert(w[k] == op_version(e.ops[k], e.seq));
                assert(e.ops[k].key == v.0.user_key);
            }
        }
        newest_depends_on_key(u, s, key, upper);
    }
}

/// A value that was put is read back until it expires, by readers at or above the
/// write's sequence number.
pub proof fn put_is_read_back(
    before: Engine,
    after: Engine,
    key: Seq<u8>,
    value: Seq<u8>,
    expires_at: u64,
    upper: u64,
    now_ms: u64,
)
    requires
        before.wf(),
        after.wf(),
        after.wrote_record(&before, WalView { seq: before.seq@, ops: seq![put_op(key, value, expires_at)] }),
        upper >= before.seq@,
    ensures
        value_at(after.store(), key, upper, now_ms) == (if expires_at != 0 && now_ms > expires_at {
            None
        } else {
            Some(value)
        }),
{
    let op = put_op(key, value, expires_at);
    let e = WalView { seq: before.seq@, ops: seq![op] };
    record_changes_its_keys(before.store(), e, key, upper);
    assert(e.ops[0].key == key);
}

/// A key that was deleted has no value for readers at or above the deletion's sequence
/// number.
pub proof fn deleted_key_is_gone(
    before: Engine,
    after: Engine,
    key: Seq<u8>,
    upper: u64,
    now_ms: u64,
)
    requires
        before.wf(),
        after.wf(),
        after.wrote_record(&before, WalView { seq: before.seq@, ops: seq![del_op(key)] }),
        upper >= before.seq@,
    ensures
        value_at(after.store(), key, upper, now_ms) is None,
{
    let e = WalView { seq: before.seq@, ops: seq![del_op(key)] };
    record_changes_its_keys(before.store(), e, key, upper);
    assert(e.ops[0].key == key);
}

/// A batch takes effect as a whole: every reader gets either all of its operations or
/// none.
pub proof fn batch_is_atomic(
    before: Engine,
    after: Engine,
    ops: Seq<OpView>,
    i: int,
    upper: u64,
    now_ms: u64,
)
    requires
        before.wf(),
        after.wf(),
        keys_distinct(ops),
        after.wrote_record(&before, WalView { seq: before.seq@, ops }),
        0 <= i < ops.len(),
    ensures
        value_at(after.store(), ops[i].key, upper, now_ms) == (if upper >= before.seq@ {
            op_version(ops[i], before.seq@).1.read_at(now_ms)
        } else {
            value_at(before.store(), ops[i].key, upper, now_ms)
        }),
{
    let e = WalView { seq: before.seq@, ops };
    record_changes_its_keys(before.store(), e, ops[i].key, upper);
}

/// A write leaves every other key as it was.
pub proof fn write_spares_other_keys(
    before: Engine,
    after: Engine,
    ops: Seq<OpView>,
    key: Seq<u8>,
    upper: u64,
    now_ms: u64,
)
    requires
        before.wf(),
        after.wf(),
        keys_distinct(ops),
        after.wrote_record(&before, WalView { seq: before.seq@, ops }),
        !key_occurs(ops, ops.len() as int, key),
    ensures
        value_at(after.store(), key, upper, now_ms) == value_at(before.store(), key, upper, now_ms),
{
    record_changes_its_keys(before.store(), WalView { seq: before.seq@, ops }, key, upper);
}

/// A reader whose ceiling was current before a write does not see the write.
pub proof fn snapshots_are_isolated(
    before: Engine,
    after: Engine,
    ops: Seq<OpView>,
    key: Seq<u8>,
    upper: u64,
    now_ms: u64,
)
    requires
        before.wf(),
        after.wf(),
        keys_distinct(ops),
        after.wrote_record(&before, WalView { seq: before.seq@, ops }),
        upper < before.seq@,
    ensures
        value_at(after.store(), key, upper, now_ms) == value_at(before.store(), key, upper, now_ms),
{
    record_changes_its_keys(before.store(), WalView { seq: before.seq@, ops }, key, upper);
}

/// A second graceful stop finds nothing to do.
pub proof fn shutdown_is_idempotent(before: Engine, once: Engine, twice: Engine)
    requires
        once.shut_down_from(&before),
        twice.shut_down_from(&once),
    ensures
        twice.store() == once.store(),
        twice.catalog() == once.catalog(),
        twice.next_sstable_id == once.next_sstable_id,
        twice.seq == once.seq,
        twice.buffered_seq == once.buffered_seq,
        twice.synced_seq == once.synced_seq,
{
    let runs = to_flush(once.layers);
    assert(runs.len() == 0);
}

} // verus!
