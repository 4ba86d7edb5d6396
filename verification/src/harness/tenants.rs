//! The isolation run: keys of tenants, classes of refusals, the noise and the verdict;
//! and the check of a log after a crash.

use vstd::prelude::*;
use crate::codec::{be_bytes, put_be};
use crate::engine::open::last_segment;
use crate::keys::KS_USER;
use crate::text::{chars_of, contains_part, has_part, lower_all, lowered};
use crate::wal::{segment_views, ReplayOutcome, SegmentView, WalSegment};

verus! {

/// A tenant's key of a numbered record.
pub open spec fn tenant_record(tenant: u8, i: u64) -> Seq<u8> {
    seq![KS_USER] + Seq::new(16, |k: int| tenant) + be_bytes(i as nat, 8)
}

/// A tenant's key of a numbered record.
pub fn tenant_key(tenant: u8, i: u64) -> (k: Vec<u8>)
    ensures
        k@ == tenant_record(tenant, i),
{
    let mut k: Vec<u8> = vec![KS_USER];
    let mut n: usize = 0;
    while n < 16
        invariant
            n <= 16,
            k@ == seq![KS_USER] + Seq::new(n as nat, |j: int| tenant),
        decreases 16 - n,
    {
        k.push(tenant);
        assert(k@ =~= seq![KS_USER] + Seq::new((n + 1) as nat, |j: int| tenant));
        n = n + 1;
    }
    put_be(&mut k, i, 8);
    assert(k@ =~= tenant_record(tenant, i));
    k
}

/// The class of a refusal by its text, whatever the case of its letters.
pub open spec fn class_of(err: Seq<char>) -> Seq<char> {
    let e = lowered(err);
    if has_part(e, "pacing over-share"@) {
        "fair_pace"@
    } else if has_part(e, "fair memtable"@) {
        "fair_memtable"@
    } else if has_part(e, "flush queue"@) {
        "flush_queue"@
    } else if has_part(e, "l0 compaction"@) {
        "l0_stall"@
    } else if has_part(e, "compaction backlog"@) {
        "compaction_backlog"@
    } else if has_part(e, "wal in-flight"@) {
        "wal_inflight"@
    } else if has_part(e, "writes frozen"@) {
        "frozen"@
    } else {
        "other"@
    }
}

fn mentions(e: &[char], part: &str) -> (r: bool)
    ensures
        r == has_part(e@, part@),
{
    let p: Vec<char> = chars_of(part);
    contains_part(e, p.as_slice())
}

/// The class of a refusal by its text, whatever the case of its letters.
pub fn busy_class(err: &str) -> (r: &'static str)
    ensures
        r@ == class_of(err@),
{
    let chars: Vec<char> = chars_of(err);
    let low: Vec<char> = lower_all(chars.as_slice());
    let e: &[char] = low.as_slice();
    if mentions(e, "pacing over-share") {
        "fair_pace"
    } else if mentions(e, "fair memtable") {
        "fair_memtable"
    } else if mentions(e, "flush queue") {
        "flush_queue"
    } else if mentions(e, "l0 compaction") {
        "l0_stall"
    } else if mentions(e, "compaction backlog") {
        "compaction_backlog"
    } else if mentions(e, "wal in-flight") {
        "wal_inflight"
    } else if mentions(e, "writes frozen") {
        "frozen"
    } else {
        "other"
    }
}

/// How many writes of four kilobytes fill half of a memtable, at least 64.
pub fn reclaim_puts(memtable_mb: usize) -> (n: u64)
    ensures
        ({
            let bytes = if memtable_mb * 1_048_576 > usize::MAX {
                usize::MAX as int
            } else {
                memtable_mb * 1_048_576
            };
            let puts = bytes / 2 / 4096;
            n == (if puts > 64 {
                puts
            } else {
                64
            })
        }),
{
    let bytes: usize = match memtable_mb.checked_mul(1_048_576) {
        Some(b) => b,
        None => usize::MAX,
    };
    let puts: u64 = (bytes / 2) as u64 / 4096;
    if puts > 64 {
        puts
    } else {
        64
    }
}

/// The state of the noise generator after `x`.
pub open spec fn noise_after(x: u64) -> u64 {
    let a = x ^ (x << 13);
    let b = a ^ (a >> 7);
    b ^ (b << 17)
}

/// Draws from the noise generator.
pub fn next_noise(x: u64) -> (y: u64)
    ensures
        y == noise_after(x),
{
    let a: u64 = x ^ (x << 13);
    let b: u64 = a ^ (a >> 7);
    b ^ (b << 17)
}

/// How a phase went.
#[derive(Debug, Clone, Copy, PartialEq, Eq, Structural)]
pub struct Verdict {
    /// The delay stays within its bound.
    pub meets_bound: bool,
    /// Enough writes succeeded.
    pub meets_success: bool,
    /// The delay exceeds the bound that fails a run.
    pub fails_bound: bool,
}

/// The larger of two exit codes.
pub open spec fn worse(a: u8, b: u8) -> u8 {
    if a >= b {
        a
    } else {
        b
    }
}

/// What a phase adds to the exit code: 2 for too few successes, and `late` for a delay
/// beyond its bound.
pub open spec fn code_of(v: Option<Verdict>, late: u8) -> u8 {
    match v {
        None => 0,
        Some(v) => worse(
            if !v.meets_success {
                2
            } else {
                0
            },
            if v.fails_bound || !v.meets_bound {
                late
            } else {
                0
            },
        ),
    }
}

/// The exit code of a run with the given phases: the worst of what they add, a late
/// steady phase counting 1 and a late ramp-up 3.
pub fn exit_code(steady: Option<Verdict>, rampup: Option<Verdict>) -> (r: u8)
    ensures
        r == worse(code_of(steady, 1), code_of(rampup, 3)),
{
    let mut r: u8 = 0;
    match steady {
        Some(v) => {
            if !v.meets_success {
                r = 2;
            }
            if (v.fails_bound || !v.meets_bound) && r < 1 {
                r = 1;
            }
        },
        None => {},
    }
    match rampup {
        Some(v) => {
            if !v.meets_success && r < 2 {
                r = 2;
            }
            if v.fails_bound || !v.meets_bound {
                r = 3;
            }
        },
        None => {},
    }
    r
}

/// The first of the segments from `i` on that is corrupt and not the last one.
pub open spec fn corrupt_from(s: Seq<SegmentView>, last: u64, i: int) -> Option<u64>
    decreases s.len() - i,
{
    if i < 0 || i >= s.len() {
        None
    } else if s[i].outcome is Corruption && s[i].id != last {
        Some(s[i].id)
    } else {
        corrupt_from(s, last, i + 1)
    }
}

/// The first sealed segment of a log that is corrupt, if there is one.
pub fn sealed_corruption(segments: &Vec<WalSegment>) -> (r: Option<u64>)
    ensures
        ({
            let s = segment_views(segments@);
            r == corrupt_from(s, last_segment(s, s.len() as int), 0)
        }),
{
    let ghost s = segment_views(segments@);
    let mut last: u64 = 0;
    let mut i: usize = 0;
    while i < segments.len()
        invariant
            i <= segments@.len(),
            s == segment_views(segments@),
            last == last_segment(s, i as int),
        decreases segments.len() - i,
    {
        assert(s[i as int] == segments@[i as int]@);
        if segments[i].id > last {
            last = segments[i].id;
        }
        i = i + 1;
    }
    i = 0;
    while i < segments.len()
        invariant
            i <= segments@.len(),
            s == segment_views(segments@),
            last == last_segment(s, s.len() as int),
            corrupt_from(s, last, 0) == corrupt_from(s, last, i as int),
        decreases segments.len() - i,
    {
        assert(s[i as int] == segments@[i as int]@);
        let corrupt: bool = match segments[i].outcome {
            ReplayOutcome::Corruption => true,
            _ => false,
        };
        if corrupt && segments[i].id != last {
            return Some(segments[i].id);
        }
        i = i + 1;
    }
    None
}

} // verus!
