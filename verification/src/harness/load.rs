//! The load of a soak run: operations, latencies, counters per window and the rate.

use vstd::prelude::*;
use crate::codec::{be_bytes, be_bytes_len, put_be};
use crate::harness::model::{key_of, numbered_key};
use crate::soak_util::{lcg_next, lcg_pick, Lcg};
use crate::text::{chars_of, chars_eq, lines, number, parse_number, split_lines, split_words, words};

verus! {

/// The mix of operations and the key space of a run.
#[derive(Debug, Clone, Copy)]
pub struct Mix {
    pub put_pct: u8,
    pub get_pct: u8,
    pub scan_pct: u8,
    /// How many record numbers a scan spans.
    pub scan_range_keys: u32,
    pub hot_key_count: u32,
    pub cold_key_count: u32,
    /// The share of operations on hot keys.
    pub hot_pct: u8,
    pub val_min: usize,
    pub val_max: usize,
}

/// An operation of a soak run.
#[derive(Debug)]
pub enum Op {
    Put { key: Vec<u8>, val: Vec<u8> },
    Get { key: Vec<u8> },
    Del { key: Vec<u8> },
    Scan { lo: Vec<u8>, hi: Vec<u8> },
}

/// What an operation holds.
pub enum OpKind {
    Put { key: Seq<u8>, val: Seq<u8> },
    Get { key: Seq<u8> },
    Del { key: Seq<u8> },
    Scan { lo: Seq<u8>, hi: Seq<u8> },
}

impl View for Op {
    type V = OpKind;

    open spec fn view(&self) -> OpKind {
        match *self {
            Op::Put { key, val } => OpKind::Put { key: key@, val: val@ },
            Op::Get { key } => OpKind::Get { key: key@ },
            Op::Del { key } => OpKind::Del { key: key@ },
            Op::Scan { lo, hi } => OpKind::Scan { lo: lo@, hi: hi@ },
        }
    }
}

/// The record number that is drawn from the state `x`, and the state after that.
pub open spec fn drawn_id(x: u64, m: Mix) -> (u64, u64) {
    let y = lcg_next(x);
    let z = lcg_next(y);
    if lcg_pick(y, 100) < m.hot_pct {
        (lcg_pick(z, m.hot_key_count) as u64, z)
    } else {
        ((m.hot_key_count + lcg_pick(z, m.cold_key_count)) as u64, z)
    }
}

/// The bytes of a value of `len` bytes that is drawn from the state `x`, and the state
/// after that: eight bytes from each draw.
pub open spec fn drawn_bytes(x: u64, len: nat) -> (Seq<u8>, u64)
    decreases len,
{
    if len == 0 {
        (Seq::empty(), x)
    } else {
        let y = lcg_next(x);
        let n = if len < 8 {
            len
        } else {
            8
        };
        let rest = drawn_bytes(y, (len - n) as nat);
        (be_bytes(y as nat, 8).take(n as int) + rest.0, rest.1)
    }
}

/// The value that is drawn from the state `x`, and the state after that.
pub open spec fn drawn_value(x: u64, m: Mix) -> (Seq<u8>, u64) {
    if m.val_max <= m.val_min {
        drawn_bytes(x, m.val_min as nat)
    } else {
        let y = lcg_next(x);
        drawn_bytes(
            y,
            (m.val_min + lcg_pick(y, ((m.val_max - m.val_min + 1) % 0x1_0000_0000) as u32)) as nat,
        )
    }
}

/// The operation that is drawn from the state `x`, and the state after that.
pub open spec fn drawn_op(x: u64, m: Mix) -> (OpKind, u64) {
    let y = lcg_next(x);
    let pick = lcg_pick(y, 100) as int;
    let (id, z) = drawn_id(y, m);
    if pick < m.put_pct {
        let (val, end) = drawn_value(z, m);
        (OpKind::Put { key: numbered_key(id), val }, end)
    } else if pick < m.put_pct + m.get_pct {
        (OpKind::Get { key: numbered_key(id) }, z)
    } else if pick < m.put_pct + m.get_pct + m.scan_pct {
        (
            OpKind::Scan {
                lo: numbered_key(id),
                hi: numbered_key((id + m.scan_range_keys) as u64),
            },
            z,
        )
    } else {
        (OpKind::Del { key: numbered_key(id) }, z)
    }
}

/// The source of a run's operations.
pub struct Workload {
    pub mix: Mix,
    pub rng: Lcg,
}

impl Workload {
    pub fn new(mix: Mix, seed: u64) -> (w: Workload)
        ensures
            w.mix == mix,
            w.rng.0 == (if seed > 0 {
                seed
            } else {
                1
            }),
    {
        Workload { mix, rng: Lcg::new(seed) }
    }

    fn pick_id(&mut self) -> (id: u64)
        ensures
            (id, final(self).rng.0) == drawn_id(old(self).rng.0, old(self).mix),
            final(self).mix == old(self).mix,
            id <= 0x1_ffff_ffff,
    {
        let hot: bool = self.rng.range_u32(100) < self.mix.hot_pct as u32;
        if hot {
            self.rng.range_u32(self.mix.hot_key_count) as u64
        } else {
            self.mix.hot_key_count as u64 + self.rng.range_u32(self.mix.cold_key_count) as u64
        }
    }

    fn pick_value(&mut self) -> (v: Vec<u8>)
        requires
            old(self).mix.val_max <= old(self).mix.val_min || old(self).mix.val_max - old(
                self,
            ).mix.val_min < usize::MAX,
        ensures
            (v@, final(self).rng.0) == drawn_value(old(self).rng.0, old(self).mix),
            final(self).mix == old(self).mix,
    {
        let len: usize = self.rng.range_usize(self.mix.val_min, self.mix.val_max);
        let ghost x = self.rng.0;
        let ghost want = drawn_bytes(x, len as nat);
        let mut v: Vec<u8> = Vec::new();
        assert(v@ + drawn_bytes(x, len as nat).0 =~= want.0);
        while v.len() < len
            invariant
                v@.len() <= len,
                self.mix == old(self).mix,
                want == drawn_bytes(x, len as nat),
                v@ + drawn_bytes(self.rng.0, (len - v@.len()) as nat).0 == want.0,
                drawn_bytes(self.rng.0, (len - v@.len()) as nat).1 == want.1,
            decreases len - v@.len(),
        {
            let ghost was = v@;
            let ghost before = self.rng.0;
            let left: usize = len - v.len();
            let y: u64 = self.rng.next_u64();
            let mut eight: Vec<u8> = Vec::new();
            put_be(&mut eight, y, 8);
            let ghost all = eight@;
            proof {
                assert(all =~= be_bytes(y as nat, 8));
                be_bytes_len(y as nat, 8);
            }
            if left < 8 {
                eight.truncate(left);
            }
            let ghost n = if left < 8 {
                left as int
            } else {
                8
            };
            assert(eight@ =~= all.take(n));
            v.append(&mut eight);
            proof {
                let rest = drawn_bytes(y, (left - n) as nat);
                assert(drawn_bytes(before, left as nat) == (all.take(n) + rest.0, rest.1));
                assert(v@ =~= was + all.take(n));
                assert(v@ + rest.0 =~= was + (all.take(n) + rest.0));
            }
        }
        assert(v@ =~= want.0);
        v
    }

    /// Draws the next operation.
    pub fn next(&mut self) -> (op: Op)
        requires
            old(self).mix.val_max <= old(self).mix.val_min || old(self).mix.val_max - old(
                self,
            ).mix.val_min < usize::MAX,
        ensures
            (op@, final(self).rng.0) == drawn_op(old(self).rng.0, old(self).mix),
            final(self).mix == old(self).mix,
    {
        let pick: u32 = self.rng.range_u32(100);
        let put_thr: u32 = self.mix.put_pct as u32;
        let get_thr: u32 = put_thr + self.mix.get_pct as u32;
        let scan_thr: u32 = get_thr + self.mix.scan_pct as u32;
        let id: u64 = self.pick_id();
        let key: Vec<u8> = key_of(id);
        if pick < put_thr {
            let val: Vec<u8> = self.pick_value();
            Op::Put { key, val }
        } else if pick < get_thr {
            Op::Get { key }
        } else if pick < scan_thr {
            let hi: Vec<u8> = key_of(id + self.mix.scan_range_keys as u64);
            Op::Scan { lo: key, hi }
        } else {
            Op::Del { key }
        }
    }
}

/// Latencies of the last operations, in microseconds. When it is full, each new one
/// takes the place of the oldest.
#[derive(Debug)]
pub struct LatencySampler {
    pub samples_us: Vec<u64>,
    pub cap: usize,
    pub next_idx: usize,
    /// All latencies ever noted.
    pub count: u64,
}

impl LatencySampler {
    pub open spec fn wf(&self) -> bool {
        &&& self.cap > 0
        &&& self.samples_us@.len() <= self.cap
        &&& self.next_idx < self.cap
        &&& self.samples_us@.len() < self.cap ==> self.next_idx == 0
    }

    pub fn new(cap: usize) -> (s: LatencySampler)
        requires
            cap > 0,
        ensures
            s.wf(),
            s.cap == cap,
            s.samples_us@.len() == 0,
            s.count == 0,
    {
        LatencySampler { samples_us: Vec::new(), cap, next_idx: 0, count: 0 }
    }

    /// Notes a latency.
    pub fn record(&mut self, us: u64)
        requires
            old(self).wf(),
            old(self).count < u64::MAX,
        ensures
            final(self).wf(),
            final(self).cap == old(self).cap,
            final(self).count == old(self).count + 1,
            if old(self).samples_us@.len() < old(self).cap {
                final(self).samples_us@ == old(self).samples_us@.push(us) && final(self).next_idx
                    == 0
            } else {
                &&& final(self).samples_us@ == old(self).samples_us@.update(
                    old(self).next_idx as int,
                    us,
                )
                &&& final(self).next_idx == (if old(self).next_idx + 1 == old(self).cap {
                    0
                } else {
                    old(self).next_idx + 1
                })
            },
    {
        if self.samples_us.len() < self.cap {
            self.samples_us.push(us);
        } else {
            self.samples_us.set(self.next_idx, us);
            self.next_idx = if self.next_idx + 1 == self.cap {
                0
            } else {
                self.next_idx + 1
            };
        }
        self.count = self.count + 1;
    }

    /// Starts a new window. The count of all latencies goes on.
    pub fn reset_window(&mut self)
        requires
            old(self).wf(),
        ensures
            final(self).wf(),
            final(self).samples_us@.len() == 0,
            final(self).next_idx == 0,
            final(self).cap == old(self).cap,
            final(self).count == old(self).count,
    {
        self.samples_us.clear();
        self.next_idx = 0;
    }
}

/// Counters of the engine that only grow.
#[derive(Debug, Clone, Copy, PartialEq, Eq, Structural)]
pub struct Totals {
    pub jobs_l0: u64,
    pub jobs_l1: u64,
    pub jobs_l2: u64,
    pub flushes: u64,
    pub cache_hits: u64,
    pub cache_misses: u64,
    pub compaction_reads: u64,
    pub tombstones_dropped: u64,
    pub versions_dropped: u64,
    pub result_hits: u64,
    pub result_misses: u64,
}

/// How much a counter grew; one that was reset counts as unchanged.
pub open spec fn growth(now: u64, before: u64) -> u64 {
    if now > before {
        (now - before) as u64
    } else {
        0
    }
}

/// How much the counters grew.
pub open spec fn growths(now: Totals, before: Totals) -> Totals {
    Totals {
        jobs_l0: growth(now.jobs_l0, before.jobs_l0),
        jobs_l1: growth(now.jobs_l1, before.jobs_l1),
        jobs_l2: growth(now.jobs_l2, before.jobs_l2),
        flushes: growth(now.flushes, before.flushes),
        cache_hits: growth(now.cache_hits, before.cache_hits),
        cache_misses: growth(now.cache_misses, before.cache_misses),
        compaction_reads: growth(now.compaction_reads, before.compaction_reads),
        tombstones_dropped: growth(now.tombstones_dropped, before.tombstones_dropped),
        versions_dropped: growth(now.versions_dropped, before.versions_dropped),
        result_hits: growth(now.result_hits, before.result_hits),
        result_misses: growth(now.result_misses, before.result_misses),
    }
}

/// What is counted between two samples.
#[derive(Debug)]
pub struct WindowCounters {
    pub before: Totals,
    pub poll_sum_ns: u64,
    pub poll_max_ns: u64,
    pub ops_in_window: u64,
    pub errors_window: u64,
}

/// What a sample says of its window.
#[derive(Debug, Clone, Copy, PartialEq, Eq, Structural)]
pub struct WindowStats {
    pub grown: Totals,
    pub poll_mean_us: u64,
    pub poll_max_us: u64,
    pub errors: u64,
}

impl WindowCounters {
    pub fn new() -> (w: WindowCounters)
        ensures
            w.before == (Totals {
                jobs_l0: 0,
                jobs_l1: 0,
                jobs_l2: 0,
                flushes: 0,
                cache_hits: 0,
                cache_misses: 0,
                compaction_reads: 0,
                tombstones_dropped: 0,
                versions_dropped: 0,
                result_hits: 0,
                result_misses: 0,
            }),
            w.poll_sum_ns == 0,
            w.poll_max_ns == 0,
            w.ops_in_window == 0,
            w.errors_window == 0,
    {
        WindowCounters {
            before: Totals {
                jobs_l0: 0,
                jobs_l1: 0,
                jobs_l2: 0,
                flushes: 0,
                cache_hits: 0,
                cache_misses: 0,
                compaction_reads: 0,
                tombstones_dropped: 0,
                versions_dropped: 0,
                result_hits: 0,
                result_misses: 0,
            },
            poll_sum_ns: 0,
            poll_max_ns: 0,
            ops_in_window: 0,
            errors_window: 0,
        }
    }

    pub fn record_error(&mut self)
        requires
            old(self).errors_window < u64::MAX,
        ensures
            *final(self) == (WindowCounters {
                errors_window: (old(self).errors_window + 1) as u64,
                ..*old(self)
            }),
    {
        self.errors_window = self.errors_window + 1;
    }

    /// Takes the number of errors and starts over.
    pub fn drain_errors(&mut self) -> (n: u64)
        ensures
            n == old(self).errors_window,
            *final(self) == (WindowCounters { errors_window: 0, ..*old(self) }),
    {
        let n: u64 = self.errors_window;
        self.errors_window = 0;
        n
    }

    /// Notes how long a poll took. The sum stops at the largest 64-bit number.
    pub fn record_poll(&mut self, elapsed_ns: u64)
        ensures
            *final(self) == (WindowCounters {
                poll_sum_ns: crate::engine::stats::capped_sum(
                    old(self).poll_sum_ns as nat,
                    elapsed_ns as nat,
                ) as u64,
                poll_max_ns: crate::manifest::larger(old(self).poll_max_ns, elapsed_ns),
                ..*old(self)
            }),
    {
        self.poll_sum_ns = self.poll_sum_ns.saturating_add(elapsed_ns);
        if elapsed_ns > self.poll_max_ns {
            self.poll_max_ns = elapsed_ns;
        }
    }

    pub fn record_op(&mut self)
        requires
            old(self).ops_in_window < u64::MAX,
        ensures
            *final(self) == (WindowCounters {
                ops_in_window: (old(self).ops_in_window + 1) as u64,
                ..*old(self)
            }),
    {
        self.ops_in_window = self.ops_in_window + 1;
    }

    /// Closes the window at the given counters, and starts the next one.
    pub fn roll(&mut self, now: Totals) -> (r: WindowStats)
        ensures
            r.grown == growths(now, old(self).before),
            r.poll_mean_us == (if old(self).ops_in_window > 0 {
                old(self).poll_sum_ns / old(self).ops_in_window / 1000
            } else {
                0
            }),
            r.poll_max_us == old(self).poll_max_ns / 1000,
            r.errors == old(self).errors_window,
            *final(self) == (WindowCounters {
                before: now,
                poll_sum_ns: 0,
                poll_max_ns: 0,
                ops_in_window: 0,
                errors_window: 0,
            }),
    {
        let b: Totals = self.before;
        let grown = Totals {
            jobs_l0: now.jobs_l0.saturating_sub(b.jobs_l0),
            jobs_l1: now.jobs_l1.saturating_sub(b.jobs_l1),
            jobs_l2: now.jobs_l2.saturating_sub(b.jobs_l2),
            flushes: now.flushes.saturating_sub(b.flushes),
            cache_hits: now.cache_hits.saturating_sub(b.cache_hits),
            cache_misses: now.cache_misses.saturating_sub(b.cache_misses),
            compaction_reads: now.compaction_reads.saturating_sub(b.compaction_reads),
            tombstones_dropped: now.tombstones_dropped.saturating_sub(b.tombstones_dropped),
            versions_dropped: now.versions_dropped.saturating_sub(b.versions_dropped),
            result_hits: now.result_hits.saturating_sub(b.result_hits),
            result_misses: now.result_misses.saturating_sub(b.result_misses),
        };
        let poll_mean_us: u64 = if self.ops_in_window > 0 {
            self.poll_sum_ns / self.ops_in_window / 1000
        } else {
            0
        };
        let poll_max_us: u64 = self.poll_max_ns / 1000;
        self.before = now;
        self.poll_sum_ns = 0;
        self.poll_max_ns = 0;
        self.ops_in_window = 0;
        let errors: u64 = self.drain_errors();
        WindowStats { grown, poll_mean_us, poll_max_us, errors }
    }
}

/// The mean of some timings in microseconds, zero where there are none.
pub fn mean_us(count: u64, sum_ns: u64) -> (r: u64)
    ensures
        r == (if count > 0 {
            sum_ns / count / 1000
        } else {
            0
        }),
{
    if count > 0 {
        sum_ns / count / 1000
    } else {
        0
    }
}

/// Whether a sample measures the space anew: the first and then each tenth.
pub fn measures_space(sample_index: u64) -> (r: bool)
    ensures
        r == (sample_index == 1 || sample_index % 10 == 0),
{
    sample_index == 1 || sample_index % 10 == 0
}

/// Spreads operations evenly. Times are nanoseconds since the start.
#[derive(Debug, Clone, Copy)]
pub struct RateLimiter {
    /// Zero for no limit.
    pub interval_ns: u64,
    pub next_at: u64,
}

impl RateLimiter {
    pub fn new(ops_per_sec: u32, now_ns: u64) -> (r: RateLimiter)
        ensures
            r.next_at == now_ns,
            r.interval_ns == (if ops_per_sec == 0 {
                0
            } else {
                1_000_000_000u64 / ops_per_sec as u64
            }),
    {
        let interval_ns: u64 = if ops_per_sec == 0 {
            0
        } else {
            1_000_000_000u64 / ops_per_sec as u64
        };
        RateLimiter { interval_ns, next_at: now_ns }
    }

    /// How long to wait before the next operation.
    pub fn wait_ns(&self, now_ns: u64) -> (w: u64)
        ensures
            w == (if self.interval_ns == 0 || now_ns >= self.next_at {
                0
            } else {
                self.next_at - now_ns
            }),
    {
        if self.interval_ns == 0 || now_ns >= self.next_at {
            0
        } else {
            self.next_at - now_ns
        }
    }

    /// Notes that the operation begins now. A stall is not made up for: the next
    /// operation is due no earlier than now.
    pub fn advance(&mut self, now_ns: u64)
        requires
            old(self).next_at + old(self).interval_ns <= u64::MAX,
        ensures
            final(self).interval_ns == old(self).interval_ns,
            final(self).next_at == (if old(self).interval_ns == 0 {
                old(self).next_at as int
            } else if old(self).next_at + old(self).interval_ns < now_ns {
                now_ns as int
            } else {
                old(self).next_at + old(self).interval_ns
            }),
    {
        if self.interval_ns == 0 {
            return;
        }
        self.next_at = self.next_at + self.interval_ns;
        if self.next_at < now_ns {
            self.next_at = now_ns;
        }
    }
}

/// A text starts with another.
pub open spec fn begins(s: Seq<char>, head: Seq<char>) -> bool {
    s.len() >= head.len() && s.take(head.len() as int) == head
}

/// The resident bytes that a process status reports in its lines from `i` on: the
/// number of kilobytes in the first line with the label, where it is one.
pub open spec fn rss_in(s: Seq<Seq<char>>, i: int) -> Option<u64>
    decreases s.len() - i,
{
    if i < 0 || i >= s.len() {
        None
    } else if begins(s[i], "VmRSS:"@) {
        let w = words(s[i].skip("VmRSS:"@.len() as int));
        if w.len() == 0 {
            None
        } else {
            match number(w[0]) {
                Some(kb) => if kb * 1024 <= u64::MAX {
                    Some((kb * 1024) as u64)
                } else {
                    None
                },
                None => None,
            }
        }
    } else {
        rss_in(s, i + 1)
    }
}

/// The resident bytes that a process status reports.
pub fn rss_from_status(status: &str) -> (r: Option<u64>)
    ensures
        r == rss_in(lines(status@), 0),
{
    let chars: Vec<char> = chars_of(status);
    let all: Vec<Vec<char>> = split_lines(chars.as_slice());
    let ghost s = lines(status@);
    let label: Vec<char> = chars_of("VmRSS:");
    let mut i: usize = 0;
    while i < all.len()
        invariant
            i <= all@.len(),
            s == lines(status@),
            all@.len() == s.len(),
            forall|j: int| 0 <= j < s.len() ==> (#[trigger] all@[j])@ == s[j],
            label@ == "VmRSS:"@,
            rss_in(s, 0) == rss_in(s, i as int),
        decreases all.len() - i,
    {
        let line: &Vec<char> = &all[i];
        assert(line@ == s[i as int]);
        let mut labelled: bool = false;
        if line.len() >= label.len() {
            let head: &[char] = vstd::slice::slice_subrange(line.as_slice(), 0, label.len());
            assert(head@ =~= line@.take(label@.len() as int));
            labelled = chars_eq(head, label.as_slice());
        }
        assert(labelled == begins(s[i as int], label@));
        if labelled {
            let rest: &[char] = vstd::slice::slice_subrange(
                line.as_slice(),
                label.len(),
                line.len(),
            );
            assert(rest@ =~= line@.skip(label@.len() as int));
            let w: Vec<Vec<char>> = split_words(rest);
            if w.len() == 0 {
                return None;
            }
            return match parse_number(w[0].as_slice()) {
                Some(kb) => kb.checked_mul(1024),
                None => None,
            };
        }
        i = i + 1;
    }
    None
}

} // verus!
