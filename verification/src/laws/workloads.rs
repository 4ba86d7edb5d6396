//! The workloads of soak and model runs, the model that an engine is held against, and the
//! verdicts of a run.

use vstd::prelude::*;
use crate::codec::be_bytes;
use crate::harness::load::{drawn_bytes, drawn_id, drawn_op, drawn_value, growth, Mix, OpKind};
use crate::harness::model::{governing, model_value, numbered_key, WriteView};
use crate::harness::steps::{
    ascii, drawn, drawn_ids, drawn_len, filled, rolled, state_after, StepBounds, StepView,
};
use crate::harness::tenants::{code_of, corrupt_from, tenant_record, worse, Verdict};
use crate::laws::formats::n8;
use crate::laws::reads::numbers_are_written_most_significant_first;
use crate::soak_util::{lcg_next, lcg_pick};
use crate::text::decimal;
use crate::wal::SegmentView;

verus! {

/// The generator multiplies by 6364136223846793005, adds one, and keeps the lower 64 bits.
/// A pick is the remainder of the upper 32 bits.
pub proof fn the_generator_is_congruential(x: u64, n: u32)
    requires
        n > 0,
    ensures
        exists|q: int|
            #![trigger q * 0x1_0000_0000_0000_0000]
            x * 6364136223846793005 + 1 == q * 0x1_0000_0000_0000_0000 + lcg_next(x),
        lcg_pick(x, n) < n,
        exists|q: int, low: int|
            #![trigger q * n, low + 0]
            0 <= low < 0x1_0000_0000 && x == (q * n + lcg_pick(x, n)) * 0x1_0000_0000 + (low + 0),
{
    let p = x * 6364136223846793005 + 1;
    let q = p / 0x1_0000_0000_0000_0000;
    assert(p == q * 0x1_0000_0000_0000_0000 + lcg_next(x)) by (nonlinear_arith)
        requires
            q == p / 0x1_0000_0000_0000_0000,
            lcg_next(x) == p % 0x1_0000_0000_0000_0000,
    ;
    let high = x as int / 0x1_0000_0000;
    let low = x as int % 0x1_0000_0000;
    let d = high / n as int;
    let m = n as int;
    let r = lcg_pick(x, n) as int;
    assert(high == d * m + r) by (nonlinear_arith)
        requires
            m > 0,
            d == high / m,
            r == high % m,
    ;
    assert(0 <= low < 0x1_0000_0000 && x == (d * m + r) * 0x1_0000_0000 + (low + 0));
}

/// A record is hot for as many of a hundred draws as the mix says. A hot one has a number
/// below the count of hot keys, a cold one has one of those that follow.
pub proof fn records_are_hot_or_cold(x: u64, m: Mix)
    requires
        m.hot_key_count > 0,
        m.cold_key_count > 0,
    ensures
        lcg_pick(lcg_next(x), 100) < m.hot_pct ==> drawn_id(x, m).0 < m.hot_key_count,
        lcg_pick(lcg_next(x), 100) >= m.hot_pct ==> m.hot_key_count <= drawn_id(x, m).0
            < m.hot_key_count + m.cold_key_count,
        drawn_id(x, m).1 == lcg_next(lcg_next(x)),
{
}

proof fn eight_bytes(y: u64)
    ensures
        be_bytes(y as nat, 8).len() == 8,
        n8(be_bytes(y as nat, 8), 0) == y,
{
    numbers_are_written_most_significant_first(y as nat, be_bytes(y as nat, 8));
}

proof fn as_many_bytes(x: u64, len: nat)
    ensures
        drawn_bytes(x, len).0.len() == len,
    decreases len,
{
    if len > 0 {
        let y = lcg_next(x);
        let n = if len < 8 {
            len
        } else {
            8
        };
        as_many_bytes(y, (len - n) as nat);
        eight_bytes(y);
    }
}

/// Drawn bytes are as many as asked for, eight to a draw, the most significant first. What
/// is left of a draw at the end is dropped.
pub proof fn bytes_are_drawn_by_eights(x: u64, len: nat)
    ensures
        drawn_bytes(x, len).0.len() == len,
        len >= 8 ==> n8(drawn_bytes(x, len).0, 0) == lcg_next(x) && drawn_bytes(x, len).0.skip(8)
            == drawn_bytes(lcg_next(x), (len - 8) as nat).0,
        0 < len < 8 ==> drawn_bytes(x, len).0 == drawn_bytes(x, 8).0.take(len as int),
{
    as_many_bytes(x, len);
    let y = lcg_next(x);
    let b = be_bytes(y as nat, 8);
    eight_bytes(y);
    assert(b.take(8) =~= b);
    if len >= 8 {
        let rest = drawn_bytes(y, (len - 8) as nat).0;
        let all = drawn_bytes(x, len).0;
        assert(all == b + rest);
        assert(all.skip(8) =~= rest);
        assert(all[0] == b[0] && all[1] == b[1] && all[2] == b[2] && all[3] == b[3]);
        assert(all[4] == b[4] && all[5] == b[5] && all[6] == b[6] && all[7] == b[7]);
    } else if len > 0 {
        let none = drawn_bytes(y, 0).0;
        assert(none =~= Seq::<u8>::empty());
        assert(drawn_bytes(x, 8).0 == b.take(8) + none);
        assert(drawn_bytes(x, 8).0 =~= b);
        assert(drawn_bytes(x, len).0 == b.take(len as int) + none);
        assert(drawn_bytes(x, len).0 =~= b.take(len as int));
    }
}

/// A drawn value is no shorter than the least length and no longer than the greatest.
pub proof fn values_stay_within_their_lengths(x: u64, m: Mix)
    requires
        m.val_max - m.val_min < 0xffff_ffff,
    ensures
        drawn_value(x, m).0.len() >= m.val_min,
        m.val_max >= m.val_min ==> drawn_value(x, m).0.len() <= m.val_max,
        m.val_max < m.val_min ==> drawn_value(x, m).0.len() == m.val_min,
{
    if m.val_max <= m.val_min {
        bytes_are_drawn_by_eights(x, m.val_min as nat);
    } else {
        let y = lcg_next(x);
        let n = (m.val_min + lcg_pick(
            y,
            ((m.val_max - m.val_min + 1) % 0x1_0000_0000) as u32,
        )) as nat;
        bytes_are_drawn_by_eights(y, n);
    }
}

/// The operation goes by a draw from a hundred: so many are puts, so many gets, so many
/// scans, and the rest deletes. Each is of the record that is drawn next; a scan ends as
/// many records later as the mix says.
pub proof fn operations_follow_the_mix(x: u64, m: Mix)
    requires
        m.hot_key_count > 0,
        m.cold_key_count > 0,
    ensures
        ({
            let pick = lcg_pick(lcg_next(x), 100) as int;
            let (id, z) = drawn_id(lcg_next(x), m);
            let op = drawn_op(x, m).0;
            &&& pick < m.put_pct ==> op == (OpKind::Put {
                key: numbered_key(id),
                val: drawn_value(z, m).0,
            })
            &&& m.put_pct <= pick < m.put_pct + m.get_pct ==> op == (OpKind::Get {
                key: numbered_key(id),
            })
            &&& m.put_pct + m.get_pct <= pick < m.put_pct + m.get_pct + m.scan_pct ==> op == (
            OpKind::Scan {
                lo: numbered_key(id),
                hi: numbered_key((id + m.scan_range_keys) as u64),
            })
            &&& m.put_pct + m.get_pct + m.scan_pct <= pick ==> op == (OpKind::Del {
                key: numbered_key(id),
            })
        }),
{
}

/// The key of a record is a 1 and the record's number in eight bytes.
pub proof fn records_have_numbered_keys(id: u64, tenant: u8)
    ensures
        numbered_key(id).len() == 9,
        numbered_key(id)[0] == 1,
        n8(numbered_key(id), 1) == id,
        tenant_record(tenant, id).len() == 25,
        tenant_record(tenant, id)[0] == 1,
        forall|i: int| 1 <= i < 17 ==> #[trigger] tenant_record(tenant, id)[i] == tenant,
        n8(tenant_record(tenant, id), 17) == id,
{
    let b = be_bytes(id as nat, 8);
    numbers_are_written_most_significant_first(id as nat, b);
}

/// A counter has grown by what it was short of its new value, and never shrinks.
pub proof fn growth_is_what_was_added(now: u64, before: u64)
    ensures
        now >= before ==> before + growth(now, before) == now,
        now < before ==> growth(now, before) == 0,
{
}

/// The write is of the key, and no later than the ceiling.
pub open spec fn applies(w: Seq<WriteView>, i: int, key: Seq<u8>, s: u64) -> bool {
    0 <= i < w.len() && w[i].key == key && w[i].seq <= s
}

proof fn governing_is_newest(w: Seq<WriteView>, key: Seq<u8>, s: u64, n: int)
    requires
        0 <= n <= w.len(),
    ensures
        ({
            let g = governing(w, key, s, n);
            &&& g < n
            &&& g < 0 ==> forall|i: int| 0 <= i < n ==> !#[trigger] applies(w, i, key, s)
            &&& g >= 0 ==> applies(w, g, key, s)
            &&& forall|i: int|
                0 <= i < n && #[trigger] applies(w, i, key, s) ==> w[i].seq < w[g].seq || (w[i].seq
                    == w[g].seq && i <= g)
        }),
    decreases n,
{
    if n > 0 {
        governing_is_newest(w, key, s, n - 1);
        assert(applies(w, n - 1, key, s) <==> w[n - 1].key == key && w[n - 1].seq <= s);
    }
}

/// The model's value of a key at a number is what the newest write up to it left, the last
/// of equals; without such a write there is none.
pub proof fn the_model_answers_with_the_newest_write(
    w: Seq<WriteView>,
    key: Seq<u8>,
    s: u64,
    g: int,
)
    ensures
        (forall|i: int| !#[trigger] applies(w, i, key, s)) ==> model_value(w, key, s) is None,
        applies(w, g, key, s) && (forall|i: int|
            #[trigger] applies(w, i, key, s) ==> w[i].seq < w[g].seq || (w[i].seq == w[g].seq && i
                <= g)) ==> model_value(w, key, s) == w[g].value,
{
    governing_is_newest(w, key, s, w.len() as int);
    let h = governing(w, key, s, w.len() as int);
    if h >= 0 {
        assert(applies(w, h, key, s));
    }
}

proof fn filled_facts(head: Seq<u8>, x: u64, len: nat)
    ensures
        filled(head, x, len).0.len() == len,
        forall|i: int|
            0 <= i < len && i < head.len() ==> #[trigger] filled(head, x, len).0[i] == head[i],
    decreases len - head.len(),
{
    if head.len() < len {
        let y = lcg_next(x);
        let h = head.push((y % 256) as u8);
        filled_facts(h, y, len);
        assert forall|i: int| 0 <= i < len && i < head.len() implies #[trigger] filled(
            head,
            x,
            len,
        ).0[i] == head[i] by {
            assert(filled(h, y, len).0[i] == h[i]);
        }
    }
}

proof fn ids_are_in_keyspace(x: u64, keyspace: u64, n: nat)
    requires
        keyspace > 0,
    ensures
        drawn_ids(x, keyspace, n).len() == n,
        forall|i: int| 0 <= i < n ==> #[trigger] drawn_ids(x, keyspace, n)[i] < keyspace,
    decreases n,
{
    if n > 0 {
        ids_are_in_keyspace(lcg_next(x), keyspace, (n - 1) as nat);
    }
}

/// Of a hundred rolls 35 put, 15 delete, 25 get, 10 scan, 5 flush, 5 compact, 4 look at a
/// snapshot and one crashes. Records are within the keyspace; a value has the drawn length,
/// within its bounds; a scan goes upwards; a snapshot is asked for eight records.
pub proof fn steps_follow_the_roll(roll: u32, x: u64, step: u64, b: StepBounds)
    requires
        b.keyspace > 0,
        b.val_max - b.val_min < 0xffff_ffff,
    ensures
        ({
            let y = rolled(roll, x, step, b);
            &&& y is Put <==> roll < 35
            &&& y is Delete <==> 35 <= roll < 50
            &&& y is Get <==> 50 <= roll < 75
            &&& y is Scan <==> 75 <= roll < 85
            &&& y is Flush <==> 85 <= roll < 90
            &&& y is Compact <==> 90 <= roll < 95
            &&& y is Snapshot <==> 95 <= roll < 99
            &&& y is Crash <==> 99 <= roll
            &&& match y {
                StepView::Put { id, value } => id == lcg_next(x) % b.keyspace && value.len()
                    >= b.val_min && (b.val_min <= b.val_max ==> value.len() <= b.val_max),
                StepView::Delete { id } => id == lcg_next(x) % b.keyspace,
                StepView::Get { id } => id == lcg_next(x) % b.keyspace,
                StepView::Scan { lo, hi } => lo <= hi < b.keyspace && (lo == lcg_next(x)
                    % b.keyspace || hi == lcg_next(x) % b.keyspace),
                StepView::Snapshot { ids } => ids.len() == 8 && forall|i: int|
                    0 <= i < 8 ==> #[trigger] ids[i] < b.keyspace,
                _ => true,
            }
        }),
{
    let y = lcg_next(x);
    let (len, z) = drawn_len(y, b);
    filled_facts(
        ascii("s"@ + decimal(step as nat) + ":"@),
        z,
        len,
    );
    ids_are_in_keyspace(x, b.keyspace, 8);
    assert(y as int % b.keyspace as int >= 0 && (y as int % b.keyspace as int) < b.keyspace);
}

/// A run's code is the worst of its parts': 2 for too few successes, else that of lateness
/// where a bound is not met; 0 where all is well or nothing was run.
pub proof fn the_worst_verdict_decides(a: u8, b: u8, v: Verdict, late: u8)
    ensures
        worse(a, b) >= a && worse(a, b) >= b,
        worse(a, b) == a || worse(a, b) == b,
        code_of(None, late) == 0,
        v.meets_success && v.meets_bound && !v.fails_bound ==> code_of(Some(v), late) == 0,
        v.meets_success && (!v.meets_bound || v.fails_bound) ==> code_of(Some(v), late) == late,
        !v.meets_success && v.meets_bound && !v.fails_bound ==> code_of(Some(v), late) == 2,
        !v.meets_success && (!v.meets_bound || v.fails_bound) ==> code_of(Some(v), late) == (
        if late > 2 {
            late
        } else {
            2
        }),
{
}

/// The segment is damaged, and not the last.
pub open spec fn is_damaged(s: Seq<SegmentView>, last: u64, k: int) -> bool {
    s[k].outcome is Corruption && s[k].id != last
}

/// Damage counts in every segment but the last: the first such segment is named.
pub proof fn damage_counts_before_the_last_segment(s: Seq<SegmentView>, last: u64, i: int)
    requires
        0 <= i <= s.len(),
    ensures
        match corrupt_from(s, last, i) {
            Some(id) => exists|k: int|
                {
                    &&& i <= k < s.len()
                    &&& #[trigger] is_damaged(s, last, k)
                    &&& s[k].id == id
                    &&& forall|j: int| i <= j < k ==> !#[trigger] is_damaged(s, last, j)
                },
            None => forall|j: int| i <= j < s.len() ==> !#[trigger] is_damaged(s, last, j),
        },
    decreases s.len() - i,
{
    if i < s.len() {
        if is_damaged(s, last, i) {
            assert(corrupt_from(s, last, i) == Some(s[i].id));
        } else {
            damage_counts_before_the_last_segment(s, last, i + 1);
            assert(corrupt_from(s, last, i) == corrupt_from(s, last, i + 1));
        }
    }
}

proof fn filling_draws(head: Seq<u8>, x: u64, len: nat)
    ensures
        head.len() >= len ==> filled(head, x, len).1 == x,
        head.len() < len ==> filled(head, x, len).1 == drawn(x, (len - head.len()) as nat),
    decreases len - head.len(),
{
    if head.len() < len {
        filling_draws(head.push((lcg_next(x) % 256) as u8), lcg_next(x), len);
        assert(drawn(x, 1) == drawn(lcg_next(x), 0));
    }
}

/// How far a step moves the generator: a put by the record, the length where it varies, and
/// each filled byte; a delete and a get by one; a scan by two; a snapshot by eight; the
/// others not at all.
pub proof fn steps_move_the_generator(roll: u32, x: u64, step: u64, b: StepBounds)
    ensures
        roll < 35 ==> {
            let (len, z) = drawn_len(lcg_next(x), b);
            let head = ascii("s"@ + decimal(step as nat) + ":"@).len();
            &&& b.val_max <= b.val_min ==> z == lcg_next(x) && len == b.val_min
            &&& b.val_max > b.val_min ==> z == lcg_next(lcg_next(x))
            &&& head >= len ==> state_after(roll, x, step, b) == z
            &&& head < len ==> state_after(roll, x, step, b) == drawn(z, (len - head) as nat)
        },
        35 <= roll < 75 ==> state_after(roll, x, step, b) == lcg_next(x),
        75 <= roll < 85 ==> state_after(roll, x, step, b) == lcg_next(lcg_next(x)),
        85 <= roll < 95 || roll >= 99 ==> state_after(roll, x, step, b) == x,
        95 <= roll < 99 ==> state_after(roll, x, step, b) == drawn(x, 8),
{
    let (len, z) = drawn_len(lcg_next(x), b);
    filling_draws(ascii("s"@ + decimal(step as nat) + ":"@), z, len);
}

} // verus!
