//! The differential test: which operation comes next, and whether what the engine gave
//! is what the model says.

use vstd::prelude::*;
use crate::bytes::bytes_eq;
use crate::harness::report::{
    bytes_text, described, diff_summary, difference, push_bytes, push_described, value_view,
};
use crate::snapshot::pair_views;
use crate::soak_util::{lcg_next, lcg_pick, Lcg};
use crate::text::{decimal, push_decimal, text_of};

verus! {

/// An operation of the test.
#[derive(Debug)]
pub enum Step {
    Put { id: u64, value: Vec<u8> },
    Delete { id: u64 },
    Get { id: u64 },
    /// The records from `lo` up to but not including `hi`.
    Scan { lo: u64, hi: u64 },
    Flush,
    Compact,
    /// The records to read from a snapshot.
    Snapshot { ids: Vec<u64> },
    Crash,
}

/// What an operation holds.
pub enum StepView {
    Put { id: u64, value: Seq<u8> },
    Delete { id: u64 },
    Get { id: u64 },
    Scan { lo: u64, hi: u64 },
    Flush,
    Compact,
    Snapshot { ids: Seq<u64> },
    Crash,
}

impl View for Step {
    type V = StepView;

    open spec fn view(&self) -> StepView {
        match *self {
            Step::Put { id, value } => StepView::Put { id, value: value@ },
            Step::Delete { id } => StepView::Delete { id },
            Step::Get { id } => StepView::Get { id },
            Step::Scan { lo, hi } => StepView::Scan { lo, hi },
            Step::Flush => StepView::Flush,
            Step::Compact => StepView::Compact,
            Step::Snapshot { ids } => StepView::Snapshot { ids: ids@ },
            Step::Crash => StepView::Crash,
        }
    }
}

/// The bounds of the test.
#[derive(Debug, Clone, Copy)]
pub struct StepBounds {
    /// The number of records.
    pub keyspace: u64,
    pub val_min: usize,
    pub val_max: usize,
}

/// The length of a value and the generator's state after it was drawn.
pub open spec fn drawn_len(x: u64, b: StepBounds) -> (nat, u64) {
    if b.val_max <= b.val_min {
        (b.val_min as nat, x)
    } else {
        let y = lcg_next(x);
        (
            (b.val_min + lcg_pick(y, ((b.val_max - b.val_min + 1) % 0x1_0000_0000) as u32)) as nat,
            y,
        )
    }
}

/// The characters of a text of ASCII characters as bytes.
pub open spec fn ascii(s: Seq<char>) -> Seq<u8> {
    Seq::new(s.len(), |i: int| s[i] as u8)
}

/// `head`, filled up to `len` bytes with drawn ones, and the generator's state after
/// that.
pub open spec fn filled(head: Seq<u8>, x: u64, len: nat) -> (Seq<u8>, u64)
    decreases len - head.len(),
{
    if head.len() >= len {
        (head.take(len as int), x)
    } else {
        let y = lcg_next(x);
        filled(head.push((y % 256) as u8), y, len)
    }
}

/// The `n` record numbers that are drawn from the state `x`.
pub open spec fn drawn_ids(x: u64, keyspace: u64, n: nat) -> Seq<u64>
    decreases n,
{
    if n == 0 {
        Seq::empty()
    } else {
        let y = lcg_next(x);
        seq![(y % keyspace) as u64] + drawn_ids(y, keyspace, (n - 1) as nat)
    }
}

/// The operation that a roll from 0 to 99 stands for, with what is drawn from the
/// state `x` after the roll.
pub open spec fn rolled(roll: u32, x: u64, step: u64, b: StepBounds) -> StepView {
    let y = lcg_next(x);
    let id = (y % b.keyspace) as u64;
    if roll <= 34 {
        let (len, z) = drawn_len(y, b);
        StepView::Put { id, value: filled(ascii("s"@ + decimal(step as nat) + ":"@), z, len).0 }
    } else if roll <= 49 {
        StepView::Delete { id }
    } else if roll <= 74 {
        StepView::Get { id }
    } else if roll <= 84 {
        let second = (lcg_next(y) % b.keyspace) as u64;
        let other = if second <= id {
            ((id + 1) % b.keyspace as int) as u64
        } else {
            second
        };
        if id <= other {
            StepView::Scan { lo: id, hi: other }
        } else {
            StepView::Scan { lo: other, hi: id }
        }
    } else if roll <= 89 {
        StepView::Flush
    } else if roll <= 94 {
        StepView::Compact
    } else if roll <= 98 {
        StepView::Snapshot { ids: drawn_ids(x, b.keyspace, 8) }
    } else {
        StepView::Crash
    }
}

/// The generator's state after `n` draws from the state `x`.
pub open spec fn drawn(x: u64, n: nat) -> u64
    decreases n,
{
    if n == 0 {
        x
    } else {
        drawn(lcg_next(x), (n - 1) as nat)
    }
}

/// The generator's state after the operation of a roll was drawn from the state `x`.
pub open spec fn state_after(roll: u32, x: u64, step: u64, b: StepBounds) -> u64 {
    let y = lcg_next(x);
    if roll <= 34 {
        let (len, z) = drawn_len(y, b);
        filled(ascii("s"@ + decimal(step as nat) + ":"@), z, len).1
    } else if roll <= 74 {
        y
    } else if roll <= 84 {
        lcg_next(y)
    } else if roll <= 94 || roll > 98 {
        x
    } else {
        drawn(x, 8)
    }
}

/// The bytes of the text that a value starts with.
fn value_head(step: u64) -> (v: Vec<u8>)
    ensures
        v@ == ascii("s"@ + decimal(step as nat) + ":"@),
{
    let mut t: String = text_of("s");
    push_decimal(&mut t, step);
    t.append(":");
    let ghost s = t@;
    let n: usize = t.as_str().unicode_len();
    let mut v: Vec<u8> = Vec::new();
    let mut i: usize = 0;
    while i < n
        invariant
            i <= n == s.len(),
            t@ == s,
            v@ == ascii(s).take(i as int),
        decreases n - i,
    {
        let c: char = t.as_str().get_char(i);
        v.push(c as u8);
        assert(v@ =~= ascii(s).take(i + 1));
        i = i + 1;
    }
    assert(v@ =~= ascii(s));
    v
}

/// Draws the next operation.
pub fn choose_step(rng: &mut Lcg, step: u64, b: StepBounds) -> (r: Step)
    requires
        b.keyspace > 0,
        b.val_max <= b.val_min || b.val_max - b.val_min < usize::MAX,
    ensures
        r@ == rolled(lcg_pick(lcg_next(old(rng).0), 100), lcg_next(old(rng).0), step, b),
        final(rng).0 == state_after(
            lcg_pick(lcg_next(old(rng).0), 100),
            lcg_next(old(rng).0),
            step,
            b,
        ),
{
    let roll: u32 = rng.range_u32(100);
    let ghost x = rng.0;
    if roll <= 34 {
        let id: u64 = rng.next_u64() % b.keyspace;
        let ghost y = rng.0;
        let len: usize = rng.range_usize(b.val_min, b.val_max);
        let mut value: Vec<u8> = value_head(step);
        let ghost head = value@;
        let ghost z = rng.0;
        while value.len() < len
            invariant
                filled(value@, rng.0, len as nat) == filled(head, z, len as nat),
            decreases len - value@.len(),
        {
            let w: u64 = rng.next_u64();
            value.push((w % 256) as u8);
        }
        value.truncate(len);
        assert(value@ =~= filled(head, z, len as nat).0);
        return Step::Put { id, value };
    }
    if roll <= 49 {
        return Step::Delete { id: rng.next_u64() % b.keyspace };
    }
    if roll <= 74 {
        return Step::Get { id: rng.next_u64() % b.keyspace };
    }
    if roll <= 84 {
        let first: u64 = rng.next_u64() % b.keyspace;
        let mut second: u64 = rng.next_u64() % b.keyspace;
        if second <= first {
            second = (first + 1) % b.keyspace;
        }
        if first <= second {
            return Step::Scan { lo: first, hi: second };
        }
        return Step::Scan { lo: second, hi: first };
    }
    if roll <= 89 {
        return Step::Flush;
    }
    if roll <= 94 {
        return Step::Compact;
    }
    if roll <= 98 {
        let mut ids: Vec<u64> = Vec::new();
        let mut k: usize = 0;
        assert(ids@ + drawn_ids(rng.0, b.keyspace, 8) =~= drawn_ids(x, b.keyspace, 8));
        while k < 8
            invariant
                k <= 8,
                b.keyspace > 0,
                ids@ + drawn_ids(rng.0, b.keyspace, (8 - k) as nat) == drawn_ids(x, b.keyspace, 8),
                drawn(rng.0, (8 - k) as nat) == drawn(x, 8),
            decreases 8 - k,
        {
            let ghost was = ids@;
            let ghost y = rng.0;
            let id: u64 = rng.next_u64() % b.keyspace;
            ids.push(id);
            proof {
                let rest = drawn_ids(rng.0, b.keyspace, (7 - k) as nat);
                assert(drawn_ids(y, b.keyspace, (8 - k) as nat) == seq![id] + rest);
                assert(ids@ + rest =~= was + (seq![id] + rest));
            }
            k = k + 1;
        }
        assert(ids@ =~= drawn_ids(x, b.keyspace, 8));
        return Step::Snapshot { ids };
    }
    Step::Crash
}

fn same_value(a: &Option<Vec<u8>>, b: &Option<Vec<u8>>) -> (r: bool)
    ensures
        r == (value_view(*a) == value_view(*b)),
{
    match (a, b) {
        (Some(x), Some(y)) => bytes_eq(x.as_slice(), y.as_slice()),
        (None, None) => true,
        _ => false,
    }
}

/// What is wrong with a read, if anything.
pub fn check_get(id: u64, expected: &Option<Vec<u8>>, got: &Option<Vec<u8>>) -> (r: Option<String>)
    ensures
        match r {
            None => value_view(*expected) == value_view(*got),
            Some(t) => value_view(*expected) != value_view(*got) && t@ == "key id "@ + decimal(
                id as nat,
            ) + ": expected "@ + described(value_view(*expected)) + ", got "@ + described(
                value_view(*got),
            ),
        },
{
    if same_value(expected, got) {
        return None;
    }
    let mut t: String = text_of("key id ");
    push_decimal(&mut t, id);
    t.append(": expected ");
    push_described(&mut t, expected);
    t.append(", got ");
    push_described(&mut t, got);
    Some(t)
}

/// What is wrong with a read from a snapshot, if anything.
pub fn check_snapshot(
    id: u64,
    ceiling: u64,
    expected: &Option<Vec<u8>>,
    got: &Option<Vec<u8>>,
) -> (r: Option<String>)
    ensures
        match r {
            None => value_view(*expected) == value_view(*got),
            Some(t) => value_view(*expected) != value_view(*got) && t@ == "key id "@ + decimal(
                id as nat,
            ) + " at seq "@ + decimal(ceiling as nat) + ": expected "@ + described(
                value_view(*expected),
            ) + ", got "@ + described(value_view(*got)),
        },
{
    if same_value(expected, got) {
        return None;
    }
    let mut t: String = text_of("key id ");
    push_decimal(&mut t, id);
    t.append(" at seq ");
    push_decimal(&mut t, ceiling);
    t.append(": expected ");
    push_described(&mut t, expected);
    t.append(", got ");
    push_described(&mut t, got);
    Some(t)
}

fn same_pairs(a: &Vec<(Vec<u8>, Vec<u8>)>, b: &Vec<(Vec<u8>, Vec<u8>)>) -> (r: bool)
    ensures
        r == (pair_views(a@) == pair_views(b@)),
{
    let ghost x = pair_views(a@);
    let ghost y = pair_views(b@);
    if a.len() != b.len() {
        assert(x.len() != y.len());
        return false;
    }
    let mut i: usize = 0;
    while i < a.len()
        invariant
            i <= a@.len() == b@.len(),
            x == pair_views(a@),
            y == pair_views(b@),
            forall|j: int| 0 <= j < i ==> #[trigger] x[j] == y[j],
        decreases a.len() - i,
    {
        assert(x[i as int] == (a@[i as int].0@, a@[i as int].1@));
        assert(y[i as int] == (b@[i as int].0@, b@[i as int].1@));
        if !bytes_eq(a[i].0.as_slice(), b[i].0.as_slice()) || !bytes_eq(
            a[i].1.as_slice(),
            b[i].1.as_slice(),
        ) {
            assert(x[i as int] != y[i as int]);
            return false;
        }
        i = i + 1;
    }
    assert(x =~= y);
    true
}

/// What is wrong with a scan, if anything.
pub fn check_scan(
    lo: &[u8],
    hi: &[u8],
    expected: &Vec<(Vec<u8>, Vec<u8>)>,
    got: &Vec<(Vec<u8>, Vec<u8>)>,
) -> (r: Option<String>)
    ensures
        match r {
            None => pair_views(expected@) == pair_views(got@),
            Some(t) => pair_views(expected@) != pair_views(got@) && t@ == "range ["@ + bytes_text(
                lo@,
            ) + ".."@ + bytes_text(hi@) + "): expected "@ + decimal(expected@.len())
                + " keys, got "@ + decimal(got@.len()) + " keys"@,
        },
{
    if same_pairs(expected, got) {
        return None;
    }
    let mut t: String = text_of("range [");
    push_bytes(&mut t, lo);
    t.append("..");
    push_bytes(&mut t, hi);
    t.append("): expected ");
    push_decimal(&mut t, expected.len() as u64);
    t.append(" keys, got ");
    push_decimal(&mut t, got.len() as u64);
    t.append(" keys");
    Some(t)
}

/// What is wrong with the whole key space, if anything.
pub fn check_state(expected: &Vec<(Vec<u8>, Vec<u8>)>, got: &Vec<(Vec<u8>, Vec<u8>)>) -> (r: Option<
    String,
>)
    ensures
        match r {
            None => pair_views(expected@) == pair_views(got@),
            Some(t) => pair_views(expected@) != pair_views(got@) && t@ == difference(
                pair_views(expected@),
                pair_views(got@),
            ),
        },
{
    if same_pairs(expected, got) {
        return None;
    }
    Some(diff_summary(expected, got))
}

/// What is wrong with the sequence number that was recovered after a crash, if
/// anything: it may not exceed the last acknowledged write, nor fall behind the last
/// durable one.
pub fn check_recovered(recovered: u64, ack: u64, durable: u64) -> (r: Option<String>)
    ensures
        match r {
            None => durable <= recovered <= ack,
            Some(t) => if recovered > ack {
                t@ == "replay fabricated writes: recovered seq "@ + decimal(recovered as nat)
                    + " > ack "@ + decimal(ack as nat)
            } else {
                recovered < durable && t@ == "replay lost fsynced writes: recovered seq "@
                    + decimal(recovered as nat) + " < durable "@ + decimal(durable as nat)
            },
        },
{
    if recovered > ack {
        let mut t: String = text_of("replay fabricated writes: recovered seq ");
        push_decimal(&mut t, recovered);
        t.append(" > ack ");
        push_decimal(&mut t, ack);
        return Some(t);
    }
    if recovered < durable {
        let mut t: String = text_of("replay lost fsynced writes: recovered seq ");
        push_decimal(&mut t, recovered);
        t.append(" < durable ");
        push_decimal(&mut t, durable);
        return Some(t);
    }
    None
}

/// How the recovered state differs from that of the model, as a text.
pub fn recovery_detail(recovered: u64, detail: &str) -> (t: String)
    ensures
        t@ == "state != model at seq "@ + decimal(recovered as nat) + ": "@ + detail@,
{
    let mut t: String = text_of("state != model at seq ");
    push_decimal(&mut t, recovered);
    t.append(": ");
    t.append(detail);
    t
}

} // verus!
