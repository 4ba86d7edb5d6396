//! Compaction planning: which tables to merge next, and into which level.
//!
//! Level 0 holds flushed memtables, which may overlap; deeper levels do not
//! overlap. Each level has a score, its size against its target, and the level
//! with the largest score of at least one goes first. Targets follow the size of
//! the deepest level, which is only ever a destination.

use vstd::prelude::*;
use crate::bytes::{
    bytes_lt, copy_bytes, lex_lt, lex_lt_irreflexive, lex_lt_total, lex_lt_transitive,
};
use crate::manifest::{meta_views, MetaView, SstableMeta};

verus! {

#[derive(Debug, Clone, Copy)]
pub struct CompactionConfig {
    /// The number of level-0 tables that triggers their compaction.
    pub l0_trigger: usize,
    /// The size ratio between neighbouring levels.
    pub level_size_multiplier: u64,
    /// The target size of level 1.
    pub l1_target_bytes: u64,
    /// The size at which compaction output is split.
    pub target_file_bytes: u64,
    /// The deepest level.
    pub max_level: u8,
    /// The estimated debt above which writes are slowed down a little.
    pub soft_pending_compaction_bytes: u64,
    /// The estimated debt above which writes are slowed down more.
    pub hard_pending_compaction_bytes: u64,
    /// The least estimated gain for which the deepest level is merged in place.
    pub l2_gc_min_reclaim_bytes: u64,
    /// Leave out the filters of tables at the deepest level.
    pub optimize_filters_for_hits: bool,
}

impl Default for CompactionConfig {
    fn default() -> (c: Self)
        ensures
            c == (CompactionConfig {
                l0_trigger: 4,
                level_size_multiplier: 10,
                l1_target_bytes: 0x1000_0000,
                target_file_bytes: 0x400_0000,
                max_level: 2,
                soft_pending_compaction_bytes: 0x1000_0000,
                hard_pending_compaction_bytes: 0x2000_0000,
                l2_gc_min_reclaim_bytes: 0x40_0000,
                optimize_filters_for_hits: true,
            }),
    {
        CompactionConfig {
            l0_trigger: 4,
            level_size_multiplier: 10,
            l1_target_bytes: 256 * 1024 * 1024,
            target_file_bytes: 64 * 1024 * 1024,
            max_level: 2,
            soft_pending_compaction_bytes: 256 * 1024 * 1024,
            hard_pending_compaction_bytes: 512 * 1024 * 1024,
            l2_gc_min_reclaim_bytes: 4 * 1024 * 1024,
            optimize_filters_for_hits: true,
        }
    }
}

/// A level's size against its target, as the fraction `num / den`.
#[derive(Debug, Clone, Copy, PartialEq, Eq, Structural)]
pub struct LevelScore {
    pub num: u64,
    pub den: u64,
}

impl LevelScore {
    /// Larger than `other`, as fractions.
    pub open spec fn above(self, other: LevelScore) -> bool {
        self.num * other.den > other.num * self.den
    }

    /// At least one.
    pub open spec fn full(self) -> bool {
        self.num >= self.den
    }

    pub fn exceeds(&self, other: &LevelScore) -> (r: bool)
        ensures
            r == self.above(*other),
    {
        proof {
            product_fits(self.num, other.den);
            product_fits(other.num, self.den);
        }
        self.num as u128 * other.den as u128 > other.num as u128 * self.den as u128
    }
}

proof fn product_fits(a: u64, b: u64)
    ensures
        0 <= a * b <= u128::MAX,
{
    assert(0 <= a * b <= 0xffff_ffff_ffff_ffff * 0xffff_ffff_ffff_ffff) by (nonlinear_arith)
        requires
            0 <= a <= 0xffff_ffff_ffff_ffff,
            0 <= b <= 0xffff_ffff_ffff_ffff,
    ;
}

/// A planned compaction.
#[derive(Debug)]
pub struct CompactionJob {
    pub inputs: Vec<u64>,
    /// The level of the tables that caused the job.
    pub input_level: u8,
    pub output_level: u8,
    /// The score of the level that produced the job; zero for a merge in place.
    pub priority_score: LevelScore,
}

/// What a planned compaction holds.
pub struct JobView {
    pub inputs: Seq<u64>,
    pub input_level: u8,
    pub output_level: u8,
    pub priority_score: LevelScore,
}

impl View for CompactionJob {
    type V = JobView;

    open spec fn view(&self) -> JobView {
        JobView {
            inputs: self.inputs@,
            input_level: self.input_level,
            output_level: self.output_level,
            priority_score: self.priority_score,
        }
    }
}

/// The closed key ranges `a` and `b` share a key.
pub open spec fn ranges_overlap(a_min: Seq<u8>, a_max: Seq<u8>, b_min: Seq<u8>, b_max: Seq<u8>) -> bool {
    !lex_lt(a_max, b_min) && !lex_lt(b_max, a_min)
}

/// The key ranges of two tables share a key.
pub open spec fn metas_overlap(a: MetaView, b: MetaView) -> bool {
    ranges_overlap(a.min_key, a.max_key, b.min_key, b.max_key)
}

/// The bytes of the tables that satisfy `p`.
pub open spec fn bytes_where(s: Seq<MetaView>, p: spec_fn(MetaView) -> bool) -> nat
    decreases s.len(),
{
    if s.len() == 0 {
        0
    } else {
        bytes_where(s.drop_last(), p) + (if p(s.last()) {
            s.last().size_bytes as nat
        } else {
            0
        })
    }
}

/// The ids of the tables that satisfy `p`, in catalog order.
pub open spec fn ids_where(s: Seq<MetaView>, p: spec_fn(MetaView) -> bool) -> Seq<u64>
    decreases s.len(),
{
    if s.len() == 0 {
        Seq::empty()
    } else if p(s.last()) {
        ids_where(s.drop_last(), p).push(s.last().id)
    } else {
        ids_where(s.drop_last(), p)
    }
}

pub open spec fn at_level(level: int) -> spec_fn(MetaView) -> bool {
    |m: MetaView| m.level == level
}

/// Holds of the tables of a level that share keys with `o`, other than those
/// with its id where `others` is set.
pub open spec fn near(level: int, o: MetaView, others: bool) -> spec_fn(MetaView) -> bool {
    |m: MetaView| m.level == level && (others ==> m.id != o.id) && metas_overlap(m, o)
}

/// The bytes of one level.
pub open spec fn level_size(s: Seq<MetaView>, level: int) -> nat {
    bytes_where(s, at_level(level))
}

/// The number of tables of one level.
pub open spec fn level_count(s: Seq<MetaView>, level: int) -> nat {
    ids_where(s, at_level(level)).len()
}

/// The bytes of all tables.
pub open spec fn catalog_bytes(s: Seq<MetaView>) -> nat {
    bytes_where(s, |m: MetaView| true)
}

/// The index among the first `n` tables of the one of `level` with the smallest
/// id, or -1.
pub open spec fn oldest_at(s: Seq<MetaView>, level: int, n: int) -> int
    decreases n,
{
    if n <= 0 {
        -1
    } else {
        let b = oldest_at(s, level, n - 1);
        if s[n - 1].level == level && (b < 0 || s[n - 1].id < s[b].id) {
            n - 1
        } else {
            b
        }
    }
}

/// The smallest key of the tables of `level`.
pub open spec fn span_min(s: Seq<MetaView>, level: int) -> Option<Seq<u8>>
    decreases s.len(),
{
    if s.len() == 0 {
        None
    } else {
        let rest = span_min(s.drop_last(), level);
        if s.last().level != level {
            rest
        } else {
            match rest {
                Some(k) => if lex_lt(s.last().min_key, k) {
                    Some(s.last().min_key)
                } else {
                    rest
                },
                None => Some(s.last().min_key),
            }
        }
    }
}

/// The largest key of the tables of `level`.
pub open spec fn span_max(s: Seq<MetaView>, level: int) -> Option<Seq<u8>>
    decreases s.len(),
{
    if s.len() == 0 {
        None
    } else {
        let rest = span_max(s.drop_last(), level);
        if s.last().level != level {
            rest
        } else {
            match rest {
                Some(k) => if lex_lt(k, s.last().max_key) {
                    Some(s.last().max_key)
                } else {
                    rest
                },
                None => Some(s.last().max_key),
            }
        }
    }
}

pub open spec fn at_least_one(n: nat) -> nat {
    if n > 0 {
        n
    } else {
        1
    }
}

pub open spec fn capped(n: nat) -> nat {
    if n <= u64::MAX {
        n
    } else {
        u64::MAX as nat
    }
}

/// The target of level `n` where every level has its nominal size.
pub open spec fn nominal_target(cfg: CompactionConfig, n: int) -> nat
    decreases n,
{
    if n <= 1 {
        cfg.l1_target_bytes as nat
    } else {
        capped(nominal_target(cfg, n - 1) * cfg.level_size_multiplier as nat)
    }
}

/// The target of a level: for the deepest what it holds, or its nominal size
/// where it is empty; for the others the next target over the multiplier, or
/// zero where that is less than a level is worth.
pub open spec fn target(s: Seq<MetaView>, cfg: CompactionConfig, level: int) -> nat
    decreases cfg.max_level - level,
{
    if level >= cfg.max_level {
        if level_size(s, cfg.max_level as int) > 0 {
            level_size(s, cfg.max_level as int)
        } else {
            nominal_target(cfg, cfg.max_level as int)
        }
    } else {
        let t = target(s, cfg, level + 1) / at_least_one(cfg.level_size_multiplier as nat);
        if t >= cfg.l1_target_bytes as nat / at_least_one(cfg.level_size_multiplier as nat) {
            t
        } else {
            0
        }
    }
}

/// The level that level 0 is compacted into: the first from `level` on with a
/// target, or the deepest.
pub open spec fn base_from(s: Seq<MetaView>, cfg: CompactionConfig, level: int) -> int
    decreases cfg.max_level - level,
{
    if level >= cfg.max_level {
        cfg.max_level as int
    } else if target(s, cfg, level) > 0 {
        level
    } else {
        base_from(s, cfg, level + 1)
    }
}

pub open spec fn base(s: Seq<MetaView>, cfg: CompactionConfig) -> int {
    base_from(s, cfg, 1)
}

/// By how much the levels from 1 to `n` exceed their targets.
pub open spec fn excess(s: Seq<MetaView>, cfg: CompactionConfig, n: int) -> nat
    decreases n,
{
    if n <= 0 {
        0
    } else {
        let t = target(s, cfg, n);
        let b = level_size(s, n);
        excess(s, cfg, n - 1) + (if t > 0 && b > t {
            (b - t) as nat
        } else {
            0
        })
    }
}

/// The bytes that wait to be compacted.
pub open spec fn pending(s: Seq<MetaView>, cfg: CompactionConfig) -> nat {
    let files = level_count(s, 0);
    let l0 = if files >= cfg.l0_trigger {
        level_size(s, 0) + level_size(s, base(s, cfg))
    } else if files >= 2 {
        level_size(s, 0)
    } else {
        0
    };
    capped(excess(s, cfg, cfg.max_level as int) + l0)
}

/// The score of a level that can cause a compaction.
pub open spec fn score(s: Seq<MetaView>, cfg: CompactionConfig, level: int) -> LevelScore {
    if level == 0 {
        let files = LevelScore {
            num: level_count(s, 0) as u64,
            den: at_least_one(cfg.l0_trigger as nat) as u64,
        };
        let bytes = if cfg.l1_target_bytes > 0 {
            LevelScore { num: level_size(s, 0) as u64, den: cfg.l1_target_bytes }
        } else {
            LevelScore { num: 0, den: 1 }
        };
        if bytes.above(files) {
            bytes
        } else {
            files
        }
    } else if target(s, cfg, level) > 0 {
        LevelScore { num: level_size(s, level) as u64, den: target(s, cfg, level) as u64 }
    } else {
        LevelScore { num: 0, den: 1 }
    }
}

/// The number of levels that can cause a compaction: all but the deepest, and
/// always level 0.
pub open spec fn source_levels(cfg: CompactionConfig) -> int {
    if cfg.max_level > 1 {
        cfg.max_level as int
    } else {
        1
    }
}

/// The job that compacts all of level 0, with the tables at its destination
/// that share keys with it.
pub open spec fn l0_job(s: Seq<MetaView>, cfg: CompactionConfig) -> Option<JobView> {
    if level_count(s, 0) < cfg.l0_trigger || level_count(s, 0) == 0 {
        None
    } else {
        let to = base(s, cfg);
        let lo = span_min(s, 0)->0;
        let hi = span_max(s, 0)->0;
        Some(
            JobView {
                inputs: ids_where(s, at_level(0)) + ids_where(
                    s,
                    |m: MetaView| m.level == to && ranges_overlap(m.min_key, m.max_key, lo, hi),
                ),
                input_level: 0,
                output_level: to as u8,
                priority_score: score(s, cfg, 0),
            },
        )
    }
}

/// The job that moves the oldest table of a level over its target into the next
/// level, with the tables there that share keys with it.
pub open spec fn level_job(s: Seq<MetaView>, cfg: CompactionConfig, level: int) -> Option<JobView> {
    let t = target(s, cfg, level);
    let i = oldest_at(s, level, s.len() as int);
    if t == 0 || level_size(s, level) <= t || i < 0 {
        None
    } else {
        Some(
            JobView {
                inputs: seq![s[i].id] + ids_where(s, near(level + 1, s[i], false)),
                input_level: level as u8,
                output_level: (level + 1) as u8,
                priority_score: score(s, cfg, level),
            },
        )
    }
}

/// The job for a source level.
pub open spec fn source_job(s: Seq<MetaView>, cfg: CompactionConfig, level: int) -> Option<JobView> {
    if level == 0 {
        l0_job(s, cfg)
    } else {
        level_job(s, cfg, level)
    }
}

/// The job that merges the oldest table of the deepest level with those there
/// that share keys with it, where enough is to be gained.
pub open spec fn gc_job(s: Seq<MetaView>, cfg: CompactionConfig) -> Option<JobView> {
    let max = cfg.max_level as int;
    let i = oldest_at(s, max, s.len() as int);
    let inputs = seq![s[i].id] + ids_where(s, near(max, s[i], true));
    let bytes = bytes_where(s, |m: MetaView| inputs.contains(m.id));
    if i < 0 || inputs.len() < 2 || bytes - bytes / 2 < cfg.l2_gc_min_reclaim_bytes {
        None
    } else {
        Some(
            JobView {
                inputs,
                input_level: cfg.max_level,
                output_level: cfg.max_level,
                priority_score: LevelScore { num: 0, den: 1 },
            },
        )
    }
}

/// The first `n` source levels' choice: the one with a full score and a job
/// whose score is largest, the lower level at equal scores, or -1.
pub open spec fn chosen_level(s: Seq<MetaView>, cfg: CompactionConfig, n: int) -> int
    decreases n,
{
    if n <= 0 {
        -1
    } else {
        let b = chosen_level(s, cfg, n - 1);
        if score(s, cfg, n - 1).full() && source_job(s, cfg, n - 1) is Some && (b < 0 || score(
            s,
            cfg,
            n - 1,
        ).above(score(s, cfg, b))) {
            n - 1
        } else {
            b
        }
    }
}

/// The next job.
pub open spec fn planned(s: Seq<MetaView>, cfg: CompactionConfig) -> Option<JobView> {
    let level = chosen_level(s, cfg, source_levels(cfg));
    if level >= 0 {
        source_job(s, cfg, level)
    } else {
        gc_job(s, cfg)
    }
}

/// The planner's arithmetic stays in range.
pub open spec fn plannable(s: Seq<MetaView>, cfg: CompactionConfig) -> bool {
    catalog_bytes(s) <= u64::MAX && cfg.max_level < u8::MAX
}

pub proof fn bytes_where_bound(s: Seq<MetaView>, p: spec_fn(MetaView) -> bool)
    ensures
        bytes_where(s, p) <= catalog_bytes(s),
    decreases s.len(),
{
    if s.len() > 0 {
        bytes_where_bound(s.drop_last(), p);
    }
}

proof fn bytes_where_prefix(s: Seq<MetaView>, p: spec_fn(MetaView) -> bool, n: int)
    requires
        0 <= n <= s.len(),
    ensures
        bytes_where(s.take(n), p) <= bytes_where(s, p),
    decreases s.len(),
{
    if n < s.len() {
        assert(s.drop_last().take(n) =~= s.take(n));
        bytes_where_prefix(s.drop_last(), p, n);
    } else {
        assert(s.take(n) =~= s);
    }
}

pub(crate) proof fn ids_where_len(s: Seq<MetaView>, p: spec_fn(MetaView) -> bool)
    ensures
        ids_where(s, p).len() <= s.len(),
    decreases s.len(),
{
    if s.len() > 0 {
        ids_where_len(s.drop_last(), p);
    }
}

/// An id is selected exactly where a table with that id satisfies the condition.
pub proof fn ids_where_contains(s: Seq<MetaView>, p: spec_fn(MetaView) -> bool, id: u64)
    ensures
        ids_where(s, p).contains(id) <==> exists|i: int|
            0 <= i < s.len() && p(#[trigger] s[i]) && s[i].id == id,
    decreases s.len(),
{
    if s.len() > 0 {
        let init = s.drop_last();
        let rest = ids_where(init, p);
        let out = ids_where(s, p);
        ids_where_contains(init, p, id);
        if out.contains(id) {
            let k = choose|k: int| 0 <= k < out.len() && out[k] == id;
            if k < rest.len() {
                assert(rest[k] == id);
                assert(rest.contains(id));
                let i = choose|i: int|
                    0 <= i < init.len() && p(#[trigger] init[i]) && init[i].id == id;
                assert(s[i] == init[i]);
            } else {
                assert(p(s[s.len() - 1]));
            }
        }
        if exists|i: int| 0 <= i < s.len() && p(#[trigger] s[i]) && s[i].id == id {
            let i = choose|i: int| 0 <= i < s.len() && p(#[trigger] s[i]) && s[i].id == id;
            if i < init.len() {
                assert(p(init[i]));
                assert(rest.contains(id));
                let k = choose|k: int| 0 <= k < rest.len() && rest[k] == id;
                assert(out[k] == id);
            } else {
                assert(out[out.len() - 1] == id);
            }
        }
    }
}

pub(crate) proof fn oldest_at_facts(s: Seq<MetaView>, level: int, n: int)
    requires
        0 <= n <= s.len(),
    ensures
        -1 <= oldest_at(s, level, n) < n || n == 0,
        oldest_at(s, level, n) >= 0 ==> s[oldest_at(s, level, n)].level == level,
        oldest_at(s, level, n) < 0 ==> forall|j: int|
            0 <= j < n ==> (#[trigger] s[j]).level != level,
        forall|j: int|
            0 <= j < n && (#[trigger] s[j]).level == level ==> oldest_at(s, level, n) >= 0 && s[oldest_at(s, level, n)].id
                <= s[j].id,
    decreases n,
{
    if n > 0 {
        oldest_at_facts(s, level, n - 1);
    }
}

pub(crate) proof fn base_facts(s: Seq<MetaView>, cfg: CompactionConfig, level: int)
    requires
        0 < level,
    ensures
        base_from(s, cfg, level) <= cfg.max_level,
        base_from(s, cfg, level) >= level || base_from(s, cfg, level) == cfg.max_level,
    decreases cfg.max_level - level,
{
    if level < cfg.max_level {
        base_facts(s, cfg, level + 1);
    }
}

pub(crate) proof fn target_bound(s: Seq<MetaView>, cfg: CompactionConfig, level: int)
    requires
        catalog_bytes(s) <= u64::MAX,
    ensures
        target(s, cfg, level) <= u64::MAX,
    decreases cfg.max_level - level,
{
    if level >= cfg.max_level {
        bytes_where_bound(s, at_level(cfg.max_level as int));
        nominal_bound(cfg, cfg.max_level as int);
    } else {
        target_bound(s, cfg, level + 1);
        let d = at_least_one(cfg.level_size_multiplier as nat);
        let t = target(s, cfg, level + 1);
        assert(t / d <= t) by (nonlinear_arith)
            requires
                d >= 1,
        ;
    }
}

proof fn nominal_bound(cfg: CompactionConfig, n: int)
    ensures
        nominal_target(cfg, n) <= u64::MAX,
    decreases n,
{
    if n > 1 {
        nominal_bound(cfg, n - 1);
    }
}

pub(crate) proof fn span_exists(s: Seq<MetaView>, level: int)
    ensures
        span_min(s, level) is Some <==> level_count(s, level) > 0,
        span_max(s, level) is Some <==> level_count(s, level) > 0,
    decreases s.len(),
{
    if s.len() > 0 {
        span_exists(s.drop_last(), level);
    }
}

/// Every table of a level lies within the level's span.
pub proof fn span_covers_level(s: Seq<MetaView>, level: int, i: int)
    requires
        0 <= i < s.len(),
        s[i].level == level,
    ensures
        span_min(s, level) matches Some(k) && !lex_lt(s[i].min_key, k),
        span_max(s, level) matches Some(k) && !lex_lt(k, s[i].max_key),
    decreases s.len(),
{
    let init = s.drop_last();
    let last = s.last();
    lex_lt_irreflexive(s[i].min_key);
    lex_lt_irreflexive(s[i].max_key);
    if i < s.len() - 1 {
        assert(init[i] == s[i]);
        span_covers_level(init, level, i);
        let lo = span_min(init, level)->0;
        let hi = span_max(init, level)->0;
        if last.level == level {
            if lex_lt(last.min_key, lo) && lex_lt(s[i].min_key, last.min_key) {
                lex_lt_transitive(s[i].min_key, last.min_key, lo);
            }
            if lex_lt(hi, last.max_key) && lex_lt(last.max_key, s[i].max_key) {
                lex_lt_transitive(hi, last.max_key, s[i].max_key);
            }
        }
    }
}

pub(crate) proof fn chosen_level_facts(s: Seq<MetaView>, cfg: CompactionConfig, n: int)
    ensures
        -1 <= chosen_level(s, cfg, n) < n || n <= 0,
        chosen_level(s, cfg, n) >= 0 ==> score(s, cfg, chosen_level(s, cfg, n)).full()
            && source_job(s, cfg, chosen_level(s, cfg, n)) is Some,
        chosen_level(s, cfg, n) < 0 ==> forall|l: int|
            0 <= l < n ==> !(score(s, cfg, l).full() && #[trigger] source_job(s, cfg, l) is Some),
    decreases n,
{
    if n > 0 {
        chosen_level_facts(s, cfg, n - 1);
    }
}

/// A planned job never writes below the deepest level, and writes either into a
/// deeper level than it takes from or in place at the deepest.
pub proof fn jobs_go_down(s: Seq<MetaView>, cfg: CompactionConfig, job: JobView)
    requires
        plannable(s, cfg),
        planned(s, cfg) == Some(job),
        cfg.max_level > 0,
    ensures
        job.output_level <= cfg.max_level,
        job.input_level < job.output_level || (job.input_level == cfg.max_level && job.output_level
            == cfg.max_level),
        job.inputs.len() > 0,
{
    chosen_level_facts(s, cfg, source_levels(cfg));
    base_facts(s, cfg, 1);
    let level = chosen_level(s, cfg, source_levels(cfg));
    if level == 0 {
        assert(ids_where(s, at_level(0)).len() > 0);
    }
}

/// A planned job has inputs.
pub proof fn jobs_have_inputs(s: Seq<MetaView>, cfg: CompactionConfig, job: JobView)
    requires
        plannable(s, cfg),
        planned(s, cfg) == Some(job),
    ensures
        job.inputs.len() > 0,
{
    chosen_level_facts(s, cfg, source_levels(cfg));
    base_facts(s, cfg, 1);
    let level = chosen_level(s, cfg, source_levels(cfg));
    if level == 0 {
        assert(ids_where(s, at_level(0)).len() > 0);
    }
}

/// A planned job takes in every table at its destination that shares keys with
/// what it moves there, so that a deeper level stays free of overlaps.
pub proof fn jobs_take_in_overlaps(s: Seq<MetaView>, cfg: CompactionConfig, job: JobView, i: int, j: int)
    requires
        plannable(s, cfg),
        planned(s, cfg) == Some(job),
        job.input_level < job.output_level,
        0 <= i < s.len(),
        0 <= j < s.len(),
        s[i].level == job.input_level,
        job.inputs.contains(s[i].id),
        forall|a: int, b: int|
            0 <= a < b < s.len() ==> (#[trigger] s[a]).id != (#[trigger] s[b]).id,
        s[j].level == job.output_level,
        metas_overlap(s[j], s[i]),
    ensures
        job.inputs.contains(s[j].id),
{
    chosen_level_facts(s, cfg, source_levels(cfg));
    base_facts(s, cfg, 1);
    let n = s.len() as int;
    let level = chosen_level(s, cfg, source_levels(cfg));
    if level == 0 {
        let to = base(s, cfg);
        let lo = span_min(s, 0)->0;
        let hi = span_max(s, 0)->0;
        span_exists(s, 0);
        span_covers_level(s, 0, i);
        let p = |m: MetaView| m.level == to && ranges_overlap(m.min_key, m.max_key, lo, hi);
        if lex_lt(s[j].max_key, lo) {
            lex_lt_total(lo, s[i].min_key);
            if lex_lt(lo, s[i].min_key) {
                lex_lt_transitive(s[j].max_key, lo, s[i].min_key);
            }
        }
        if lex_lt(hi, s[j].min_key) {
            lex_lt_total(s[i].max_key, hi);
            if lex_lt(s[i].max_key, hi) {
                lex_lt_transitive(s[i].max_key, hi, s[j].min_key);
            }
        }
        assert(p(s[j]));
        ids_where_contains(s, p, s[j].id);
        let head = ids_where(s, at_level(0));
        let tail = ids_where(s, p);
        let k = choose|k: int| 0 <= k < tail.len() && tail[k] == s[j].id;
        assert((head + tail)[head.len() + k] == s[j].id);
    } else {
        let o = oldest_at(s, level, n);
        oldest_at_facts(s, level, n);
        let p = near(level + 1, s[o], false);
        let tail = ids_where(s, p);
        ids_where_contains(s, p, s[i].id);
        if s[i].id != s[o].id {
            let k = choose|k: int| 0 <= k < job.inputs.len() && job.inputs[k] == s[i].id;
            assert(tail[k - 1] == s[i].id);
            assert(tail.contains(s[i].id));
            let a = choose|a: int| 0 <= a < s.len() && p(#[trigger] s[a]) && s[a].id == s[i].id;
            assert(a == i) by {
                if a < i {
                    assert(s[a].id != s[i].id);
                }
                if i < a {
                    assert(s[i].id != s[a].id);
                }
            }
        }
        assert(o == i) by {
            if o < i {
                assert(s[o].id != s[i].id);
            }
            if i < o {
                assert(s[i].id != s[o].id);
            }
        }
        assert(p(s[j]));
        ids_where_contains(s, p, s[j].id);
        let k = choose|k: int| 0 <= k < tail.len() && tail[k] == s[j].id;
        assert(job.inputs[k + 1] == s[j].id);
    }
}

/// Whether merging these tables of one level could make fewer or smaller ones:
/// not where each is at least half a file and no two share keys.
pub fn same_level_compaction_would_make_progress(
    input_metas: &[SstableMeta],
    target_file_bytes: u64,
) -> (r: bool)
    ensures
        r == (input_metas@.len() >= 2 && {
            ||| exists|i: int|
                0 <= i < input_metas@.len() && (#[trigger] input_metas@[i]).size_bytes
                    < target_file_bytes / 2
            ||| exists|i: int, j: int|
                0 <= i < j < input_metas@.len() && metas_overlap(
                    #[trigger] input_metas@[i]@,
                    #[trigger] input_metas@[j]@,
                )
        }),
{
    let n: usize = input_metas.len();
    if n < 2 {
        return false;
    }
    let half: u64 = target_file_bytes / 2;
    let mut i: usize = 0;
    while i < n
        invariant
            i <= n == input_metas@.len(),
            n >= 2,
            half == target_file_bytes / 2,
            forall|a: int| 0 <= a < i ==> (#[trigger] input_metas@[a]).size_bytes >= half,
        decreases n - i,
    {
        if input_metas[i].size_bytes < half {
            return true;
        }
        i = i + 1;
    }
    i = 0;
    while i < n
        invariant
            i <= n == input_metas@.len(),
            n >= 2,
            half == target_file_bytes / 2,
            forall|a: int| 0 <= a < n ==> (#[trigger] input_metas@[a]).size_bytes >= half,
            forall|a: int, b: int|
                0 <= a < b < n && a < i ==> !metas_overlap(
                    #[trigger] input_metas@[a]@,
                    #[trigger] input_metas@[b]@,
                ),
        decreases n - i,
    {
        let mut j: usize = i + 1;
        while j < n
            invariant
                i < j <= n == input_metas@.len(),
                n >= 2,
                forall|b: int|
                    i < b < j ==> !metas_overlap(input_metas@[i as int]@, #[trigger] input_metas@[b]@),
            decreases n - j,
        {
            let a: &SstableMeta = &input_metas[i];
            let b: &SstableMeta = &input_metas[j];
            if overlaps(
                a.min_key.as_slice(),
                a.max_key.as_slice(),
                b.min_key.as_slice(),
                b.max_key.as_slice(),
            ) {
                assert(metas_overlap(input_metas@[i as int]@, input_metas@[j as int]@));
                return true;
            }
            j = j + 1;
        }
        i = i + 1;
    }
    false
}

/// Whether two closed key ranges share a key.
pub fn overlaps(a_min: &[u8], a_max: &[u8], b_min: &[u8], b_max: &[u8]) -> (r: bool)
    ensures
        r == ranges_overlap(a_min@, a_max@, b_min@, b_max@),
{
    !(bytes_lt(a_max, b_min) || bytes_lt(b_max, a_min))
}

/// The smallest and the largest key of the tables of a level.
pub fn key_span(metas: &[SstableMeta], level: u8) -> (r: Option<(Vec<u8>, Vec<u8>)>)
    ensures
        match r {
            Some((lo, hi)) => {
                &&& span_min(meta_views(metas@), level as int) == Some(lo@)
                &&& span_max(meta_views(metas@), level as int) == Some(hi@)
            },
            None => {
                &&& span_min(meta_views(metas@), level as int) is None
                &&& span_max(meta_views(metas@), level as int) is None
            },
        },
{
    let ghost s = meta_views(metas@);
    let mut span: Option<(Vec<u8>, Vec<u8>)> = None;
    let mut i: usize = 0;
    assert(s.take(0) =~= Seq::<MetaView>::empty());
    while i < metas.len()
        invariant
            i <= metas@.len(),
            s == meta_views(metas@),
            match span {
                Some((lo, hi)) => {
                    &&& span_min(s.take(i as int), level as int) == Some(lo@)
                    &&& span_max(s.take(i as int), level as int) == Some(hi@)
                },
                None => {
                    &&& span_min(s.take(i as int), level as int) is None
                    &&& span_max(s.take(i as int), level as int) is None
                },
            },
        decreases metas.len() - i,
    {
        let m: &SstableMeta = &metas[i];
        proof {
            assert(s.take(i + 1).drop_last() =~= s.take(i as int));
            assert(s.take(i + 1).last() == m@);
        }
        if m.level == level {
            span = match span {
                None => Some((copy_bytes(m.min_key.as_slice()), copy_bytes(m.max_key.as_slice()))),
                Some((lo, hi)) => {
                    let lo2: Vec<u8> = if bytes_lt(m.min_key.as_slice(), lo.as_slice()) {
                        copy_bytes(m.min_key.as_slice())
                    } else {
                        lo
                    };
                    let hi2: Vec<u8> = if bytes_lt(hi.as_slice(), m.max_key.as_slice()) {
                        copy_bytes(m.max_key.as_slice())
                    } else {
                        hi
                    };
                    Some((lo2, hi2))
                },
            };
        }
        i = i + 1;
    }
    assert(s.take(s.len() as int) =~= s);
    span
}

fn saturating_product(a: u64, b: u64) -> (r: u64)
    ensures
        r == capped(a as nat * b as nat),
{
    match a.checked_mul(b) {
        Some(p) => p,
        None => u64::MAX,
    }
}

/// Plans compactions over a catalog.
pub struct CompactionPlanner<'a> {
    metas: &'a [SstableMeta],
    cfg: &'a CompactionConfig,
}

impl<'a> CompactionPlanner<'a> {
    /// The catalog.
    pub closed spec fn catalog(&self) -> Seq<MetaView> {
        meta_views(self.metas@)
    }

    pub closed spec fn config(&self) -> CompactionConfig {
        *self.cfg
    }

    pub fn new(metas: &'a [SstableMeta], cfg: &'a CompactionConfig) -> (p: Self)
        ensures
            p.catalog() == meta_views(metas@),
            p.config() == *cfg,
    {
        CompactionPlanner { metas, cfg }
    }

    /// The score of a level, zero for one that cannot cause a compaction.
    pub fn level_score(&self, level: u8) -> (r: LevelScore)
        requires
            plannable(self.catalog(), self.config()),
        ensures
            r == (if level < source_levels(self.config()) {
                score(self.catalog(), self.config(), level as int)
            } else {
                LevelScore { num: 0, den: 1 }
            }),
    {
        if level > 0 && level >= self.cfg.max_level {
            return LevelScore { num: 0, den: 1 };
        }
        self.source_score(level)
    }

    fn source_score(&self, level: u8) -> (r: LevelScore)
        requires
            plannable(self.catalog(), self.config()),
            level == 0 || level < self.config().max_level,
        ensures
            r == score(self.catalog(), self.config(), level as int),
            r.den > 0,
    {
        let ghost s = self.catalog();
        if level == 0 {
            proof {
                ids_where_len(s, at_level(0));
                bytes_where_bound(s, at_level(0));
            }
            let trigger: usize = if self.cfg.l0_trigger > 0 {
                self.cfg.l0_trigger
            } else {
                1
            };
            let files = LevelScore { num: self.level_file_count(0) as u64, den: trigger as u64 };
            let bytes = if self.cfg.l1_target_bytes > 0 {
                LevelScore { num: self.level_bytes(0), den: self.cfg.l1_target_bytes }
            } else {
                LevelScore { num: 0, den: 1 }
            };
            if bytes.exceeds(&files) {
                bytes
            } else {
                files
            }
        } else {
            proof {
                target_bound(s, *self.cfg, level as int);
                bytes_where_bound(s, at_level(level as int));
            }
            let t: u64 = self.effective_level_target(level);
            if t > 0 {
                LevelScore { num: self.level_bytes(level), den: t }
            } else {
                LevelScore { num: 0, den: 1 }
            }
        }
    }

    /// The bytes that wait to be compacted, for backpressure.
    pub fn estimate_pending_bytes(&self) -> (n: u64)
        requires
            plannable(self.catalog(), self.config()),
        ensures
            n == pending(self.catalog(), self.config()),
    {
        let ghost s = self.catalog();
        let ghost cfg = *self.cfg;
        let mut sum: u64 = 0;
        let mut level: u8 = 1;
        while level <= self.cfg.max_level
            invariant
                1 <= level <= self.cfg.max_level + 1,
                s == self.catalog(),
                cfg == *self.cfg,
                plannable(s, cfg),
                sum == capped(excess(s, cfg, level - 1)),
            decreases self.cfg.max_level + 1 - level,
        {
            proof {
                bytes_where_bound(s, at_level(level as int));
                target_bound(s, cfg, level as int);
            }
            let t: u64 = self.effective_level_target(level);
            let b: u64 = self.level_bytes(level);
            if t != 0 {
                sum = sum.saturating_add(b.saturating_sub(t));
            }
            level = level + 1;
        }
        proof {
            bytes_where_bound(s, at_level(0));
            base_facts(s, cfg, 1);
            bytes_where_bound(s, at_level(base(s, cfg)));
        }
        let files: usize = self.level_file_count(0);
        if files >= self.cfg.l0_trigger {
            sum = sum.saturating_add(self.level_bytes(0));
            sum = sum.saturating_add(self.level_bytes(self.base_level()));
        } else if files >= 2 {
            sum = sum.saturating_add(self.level_bytes(0));
        }
        sum
    }

    /// The next job, or `None` where no level needs work.
    pub fn plan(&self) -> (r: Option<CompactionJob>)
        requires
            plannable(self.catalog(), self.config()),
        ensures
            match r {
                Some(job) => planned(self.catalog(), self.config()) == Some(job@),
                None => planned(self.catalog(), self.config()) is None,
            },
    {
        let ghost s = self.catalog();
        let ghost cfg = *self.cfg;
        let levels: u8 = if self.cfg.max_level > 1 {
            self.cfg.max_level
        } else {
            1
        };
        let mut best: Option<CompactionJob> = None;
        let ghost mut at: int = -1;
        let mut level: u8 = 0;
        while level < levels
            invariant
                level <= levels,
                levels == source_levels(cfg),
                s == self.catalog(),
                cfg == *self.cfg,
                plannable(s, cfg),
                at == chosen_level(s, cfg, level as int),
                match best {
                    Some(job) => 0 <= at < level && source_job(s, cfg, at) == Some(job@)
                        && job.priority_score == score(s, cfg, at),
                    None => at < 0,
                },
            decreases levels - level,
        {
            let sc: LevelScore = self.source_score(level);
            if sc.num >= sc.den {
                let ahead: bool = match &best {
                    Some(job) => sc.exceeds(&job.priority_score),
                    None => true,
                };
                if ahead {
                    if let Some(job) = self.plan_for_level(level, sc) {
                        best = Some(job);
                        proof {
                            at = level as int;
                        }
                    }
                }
            }
            level = level + 1;
        }
        match best {
            Some(job) => Some(job),
            None => self.plan_l2_gc(),
        }
    }

    fn plan_for_level(&self, level: u8, sc: LevelScore) -> (r: Option<CompactionJob>)
        requires
            plannable(self.catalog(), self.config()),
            level == 0 || level < self.config().max_level,
            sc == score(self.catalog(), self.config(), level as int),
        ensures
            match r {
                Some(job) => source_job(self.catalog(), self.config(), level as int) == Some(job@)
                    && job.priority_score == sc,
                None => source_job(self.catalog(), self.config(), level as int) is None,
            },
    {
        if level == 0 {
            self.plan_l0(sc)
        } else {
            self.plan_level(level, sc)
        }
    }

    fn level_bytes(&self, level: u8) -> (n: u64)
        requires
            catalog_bytes(self.catalog()) <= u64::MAX,
        ensures
            n == level_size(self.catalog(), level as int),
    {
        let ghost s = self.catalog();
        let ghost p = at_level(level as int);
        let mut n: u64 = 0;
        let mut i: usize = 0;
        assert(s.take(0) =~= Seq::<MetaView>::empty());
        while i < self.metas.len()
            invariant
                i <= self.metas@.len(),
                s == self.catalog(),
                p == at_level(level as int),
                catalog_bytes(s) <= u64::MAX,
                n == bytes_where(s.take(i as int), p),
            decreases self.metas.len() - i,
        {
            proof {
                assert(s.take(i + 1).drop_last() =~= s.take(i as int));
                assert(s.take(i + 1).last() == self.metas@[i as int]@);
                bytes_where_prefix(s, p, i + 1);
                bytes_where_bound(s, p);
            }
            if self.metas[i].level == level {
                n = n + self.metas[i].size_bytes;
            }
            i = i + 1;
        }
        assert(s.take(s.len() as int) =~= s);
        n
    }

    fn level_file_count(&self, level: u8) -> (n: usize)
        ensures
            n == level_count(self.catalog(), level as int),
    {
        let ghost s = self.catalog();
        let ghost p = at_level(level as int);
        let mut n: usize = 0;
        let mut i: usize = 0;
        assert(s.take(0) =~= Seq::<MetaView>::empty());
        while i < self.metas.len()
            invariant
                i <= self.metas@.len(),
                s == self.catalog(),
                p == at_level(level as int),
                n <= i,
                n == ids_where(s.take(i as int), p).len(),
            decreases self.metas.len() - i,
        {
            proof {
                assert(s.take(i + 1).drop_last() =~= s.take(i as int));
                assert(s.take(i + 1).last() == self.metas@[i as int]@);
            }
            if self.metas[i].level == level {
                n = n + 1;
            }
            i = i + 1;
        }
        assert(s.take(s.len() as int) =~= s);
        n
    }

    fn nominal_max_level_target(&self) -> (t: u64)
        ensures
            t == nominal_target(*self.cfg, self.cfg.max_level as int),
    {
        let mut t: u64 = self.cfg.l1_target_bytes;
        let mut n: u8 = 1;
        while n < self.cfg.max_level
            invariant
                1 <= n,
                n <= self.cfg.max_level || n == 1,
                t == nominal_target(*self.cfg, n as int),
            decreases self.cfg.max_level - n,
        {
            t = saturating_product(t, self.cfg.level_size_multiplier);
            n = n + 1;
        }
        t
    }

    /// The target of a level; zero for level 0.
    pub fn effective_level_target(&self, level: u8) -> (t: u64)
        requires
            catalog_bytes(self.catalog()) <= u64::MAX,
            level <= self.config().max_level,
        ensures
            t == (if level == 0 {
                0
            } else {
                target(self.catalog(), self.config(), level as int)
            }),
    {
        if level == 0 {
            return 0;
        }
        let ghost s = self.catalog();
        let ghost cfg = *self.cfg;
        proof {
            bytes_where_bound(s, at_level(cfg.max_level as int));
            nominal_bound(cfg, cfg.max_level as int);
        }
        let mult: u64 = if self.cfg.level_size_multiplier > 0 {
            self.cfg.level_size_multiplier
        } else {
            1
        };
        let least: u64 = self.cfg.l1_target_bytes / mult;
        let actual: u64 = self.level_bytes(self.cfg.max_level);
        let mut t: u64 = if actual > 0 {
            actual
        } else {
            self.nominal_max_level_target()
        };
        let mut at: u8 = self.cfg.max_level;
        while at > level
            invariant
                level <= at <= cfg.max_level,
                cfg == *self.cfg,
                mult == at_least_one(cfg.level_size_multiplier as nat),
                least == cfg.l1_target_bytes as nat / mult as nat,
                t == target(s, cfg, at as int),
            decreases at,
        {
            let next: u64 = t / mult;
            t = if next >= least {
                next
            } else {
                0
            };
            at = at - 1;
        }
        t
    }

    /// The level that level 0 is compacted into.
    pub fn base_level(&self) -> (l: u8)
        requires
            catalog_bytes(self.catalog()) <= u64::MAX,
        ensures
            l == base(self.catalog(), self.config()),
    {
        let ghost s = self.catalog();
        let ghost cfg = *self.cfg;
        let mut l: u8 = 1;
        while l < self.cfg.max_level
            invariant
                1 <= l,
                l <= cfg.max_level || l == 1,
                s == self.catalog(),
                cfg == *self.cfg,
                catalog_bytes(s) <= u64::MAX,
                base_from(s, cfg, l as int) == base(s, cfg),
            decreases self.cfg.max_level - l,
        {
            if self.effective_level_target(l) > 0 {
                return l;
            }
            l = l + 1;
        }
        self.cfg.max_level
    }

    fn plan_l0(&self, sc: LevelScore) -> (r: Option<CompactionJob>)
        requires
            plannable(self.catalog(), self.config()),
            sc == score(self.catalog(), self.config(), 0),
        ensures
            match r {
                Some(job) => l0_job(self.catalog(), self.config()) == Some(job@)
                    && job.priority_score == sc,
                None => l0_job(self.catalog(), self.config()) is None,
            },
    {
        let ghost s = self.catalog();
        let files: usize = self.level_file_count(0);
        if files < self.cfg.l0_trigger {
            return None;
        }
        proof {
            span_exists(s, 0);
            base_facts(s, *self.cfg, 1);
        }
        let to: u8 = self.base_level();
        let (lo, hi) = match key_span(self.metas, 0) {
            Some(span) => span,
            None => {
                return None;
            },
        };
        let ghost p0 = at_level(0);
        let ghost p1 = |m: MetaView|
            m.level == base(s, *self.cfg) && ranges_overlap(m.min_key, m.max_key, lo@, hi@);
        let mut head: Vec<u64> = Vec::new();
        let mut tail: Vec<u64> = Vec::new();
        let mut i: usize = 0;
        assert(s.take(0) =~= Seq::<MetaView>::empty());
        while i < self.metas.len()
            invariant
                i <= self.metas@.len(),
                s == self.catalog(),
                p0 == at_level(0),
                p1 == (|m: MetaView|
                    m.level == base(s, *self.cfg) && ranges_overlap(m.min_key, m.max_key, lo@, hi@)),
                to == base(s, *self.cfg),
                head@ == ids_where(s.take(i as int), p0),
                tail@ == ids_where(s.take(i as int), p1),
            decreases self.metas.len() - i,
        {
            let m: &SstableMeta = &self.metas[i];
            proof {
                assert(s.take(i + 1).drop_last() =~= s.take(i as int));
                assert(s.take(i + 1).last() == m@);
            }
            if m.level == 0 {
                head.push(m.id);
            }
            if m.level == to && overlaps(
                m.min_key.as_slice(),
                m.max_key.as_slice(),
                lo.as_slice(),
                hi.as_slice(),
            ) {
                tail.push(m.id);
            }
            i = i + 1;
        }
        assert(s.take(s.len() as int) =~= s);
        head.append(&mut tail);
        Some(CompactionJob { inputs: head, input_level: 0, output_level: to, priority_score: sc })
    }

    /// The table of a level with the smallest id.
    fn oldest(&self, level: u8) -> (r: Option<usize>)
        ensures
            match r {
                Some(i) => i < self.metas@.len() && i == oldest_at(
                    self.catalog(),
                    level as int,
                    self.catalog().len() as int,
                ),
                None => oldest_at(self.catalog(), level as int, self.catalog().len() as int) < 0,
            },
    {
        let ghost s = self.catalog();
        let mut best: Option<usize> = None;
        let mut i: usize = 0;
        while i < self.metas.len()
            invariant
                i <= self.metas@.len(),
                s == self.catalog(),
                match best {
                    Some(b) => b < i && b == oldest_at(s, level as int, i as int),
                    None => oldest_at(s, level as int, i as int) < 0,
                },
            decreases self.metas.len() - i,
        {
            assert(s[i as int] == self.metas@[i as int]@);
            if self.metas[i].level == level {
                match best {
                    None => {
                        best = Some(i);
                    },
                    Some(b) => {
                        assert(s[b as int] == self.metas@[b as int]@);
                        if self.metas[i].id < self.metas[b].id {
                            best = Some(i);
                        }
                    },
                }
            }
            i = i + 1;
        }
        best
    }

    /// The ids of the tables of a level that share keys with table `at`, other
    /// than those with its id where `others` is set.
    fn overlapping_ids(&self, level: u8, at: usize, others: bool) -> (r: Vec<u64>)
        requires
            at < self.metas@.len(),
        ensures
            r@ == ids_where(
                self.catalog(),
                near(level as int, self.catalog()[at as int], others),
            ),
    {
        let ghost s = self.catalog();
        let ghost p = near(level as int, s[at as int], others);
        let o: &SstableMeta = &self.metas[at];
        let mut r: Vec<u64> = Vec::new();
        let mut i: usize = 0;
        assert(s.take(0) =~= Seq::<MetaView>::empty());
        while i < self.metas.len()
            invariant
                i <= self.metas@.len(),
                at < self.metas@.len(),
                s == self.catalog(),
                o@ == s[at as int],
                p == near(level as int, s[at as int], others),
                r@ == ids_where(s.take(i as int), p),
            decreases self.metas.len() - i,
        {
            let m: &SstableMeta = &self.metas[i];
            proof {
                assert(s.take(i + 1).drop_last() =~= s.take(i as int));
                assert(s.take(i + 1).last() == m@);
            }
            if m.level == level && (!others || m.id != o.id) && overlaps(
                m.min_key.as_slice(),
                m.max_key.as_slice(),
                o.min_key.as_slice(),
                o.max_key.as_slice(),
            ) {
                r.push(m.id);
            }
            i = i + 1;
        }
        assert(s.take(s.len() as int) =~= s);
        r
    }

    fn plan_level(&self, level: u8, sc: LevelScore) -> (r: Option<CompactionJob>)
        requires
            plannable(self.catalog(), self.config()),
            0 < level < self.config().max_level,
            sc == score(self.catalog(), self.config(), level as int),
        ensures
            match r {
                Some(job) => level_job(self.catalog(), self.config(), level as int) == Some(job@)
                    && job.priority_score == sc,
                None => level_job(self.catalog(), self.config(), level as int) is None,
            },
    {
        let ghost s = self.catalog();
        let t: u64 = self.effective_level_target(level);
        if t == 0 {
            return None;
        }
        if self.level_bytes(level) <= t {
            return None;
        }
        let at: usize = match self.oldest(level) {
            Some(at) => at,
            None => {
                return None;
            },
        };
        let mut tail: Vec<u64> = self.overlapping_ids(level + 1, at, false);
        let mut inputs: Vec<u64> = Vec::new();
        inputs.push(self.metas[at].id);
        inputs.append(&mut tail);
        proof {
            let p = near(level + 1, s[at as int], false);
            assert(inputs@ =~= seq![s[at as int].id] + ids_where(s, p));
        }
        Some(
            CompactionJob {
                inputs,
                input_level: level,
                output_level: level + 1,
                priority_score: sc,
            },
        )
    }

    /// The merge in place of the deepest level, where enough is to be gained.
    fn plan_l2_gc(&self) -> (r: Option<CompactionJob>)
        requires
            plannable(self.catalog(), self.config()),
        ensures
            match r {
                Some(job) => gc_job(self.catalog(), self.config()) == Some(job@),
                None => gc_job(self.catalog(), self.config()) is None,
            },
    {
        let ghost s = self.catalog();
        let max: u8 = self.cfg.max_level;
        let at: usize = match self.oldest(max) {
            Some(at) => at,
            None => {
                return None;
            },
        };
        let mut tail: Vec<u64> = self.overlapping_ids(max, at, true);
        let mut inputs: Vec<u64> = Vec::new();
        inputs.push(self.metas[at].id);
        inputs.append(&mut tail);
        proof {
            let p = near(max as int, s[at as int], true);
            assert(inputs@ =~= seq![s[at as int].id] + ids_where(s, p));
        }
        if inputs.len() < 2 {
            return None;
        }
        let bytes: u64 = self.bytes_of(&inputs);
        let gain: u64 = bytes - bytes / 2;
        if gain < self.cfg.l2_gc_min_reclaim_bytes {
            return None;
        }
        Some(
            CompactionJob {
                inputs,
                input_level: max,
                output_level: max,
                priority_score: LevelScore { num: 0, den: 1 },
            },
        )
    }

    /// The bytes of the tables whose ids are listed.
    fn bytes_of(&self, ids: &Vec<u64>) -> (n: u64)
        requires
            catalog_bytes(self.catalog()) <= u64::MAX,
        ensures
            n == bytes_where(self.catalog(), |m: MetaView| ids@.contains(m.id)),
    {
        let ghost s = self.catalog();
        let ghost p = |m: MetaView| ids@.contains(m.id);
        let mut n: u64 = 0;
        let mut i: usize = 0;
        assert(s.take(0) =~= Seq::<MetaView>::empty());
        while i < self.metas.len()
            invariant
                i <= self.metas@.len(),
                s == self.catalog(),
                p == (|m: MetaView| ids@.contains(m.id)),
                catalog_bytes(s) <= u64::MAX,
                n == bytes_where(s.take(i as int), p),
            decreases self.metas.len() - i,
        {
            proof {
                assert(s.take(i + 1).drop_last() =~= s.take(i as int));
                assert(s.take(i + 1).last() == self.metas@[i as int]@);
                bytes_where_prefix(s, p, i + 1);
                bytes_where_bound(s, p);
            }
            if contains_id(ids, self.metas[i].id) {
                n = n + self.metas[i].size_bytes;
            }
            i = i + 1;
        }
        assert(s.take(s.len() as int) =~= s);
        n
    }
}

/// Whether an id is listed.
pub fn contains_id(ids: &Vec<u64>, id: u64) -> (r: bool)
    ensures
        r == ids@.contains(id),
{
    let mut i: usize = 0;
    while i < ids.len()
        invariant
            i <= ids@.len(),
            forall|j: int| 0 <= j < i ==> #[trigger] ids@[j] != id,
        decreases ids.len() - i,
    {
        if ids[i] == id {
            return true;
        }
        i = i + 1;
    }
    false
}

} // verus!
