//! The compaction planner: when there is a job, which one, and how much work waits.

use vstd::arithmetic::power::pow;
use vstd::prelude::*;
use crate::bytes::{lex_lt, lex_lt_total, lex_lt_transitive};
use crate::compaction::{
    at_level, base, base_facts, base_from, bytes_where_bound, chosen_level, chosen_level_facts,
    excess, ids_where, ids_where_contains, level_count, level_job, level_size, near, nominal_target,
    oldest_at, oldest_at_facts, pending, planned, plannable, ranges_overlap, score, source_job,
    source_levels, span_covers_level, span_exists, span_max, span_min, target, target_bound,
    CompactionConfig, JobView, LevelScore,
};
use crate::manifest::MetaView;

verus! {

/// The bytes of the tables at a level, added up.
pub open spec fn bytes_at(s: Seq<MetaView>, n: int) -> int {
    s.fold_left(
        0int,
        |b: int, m: MetaView|
            if m.level == n {
                b + m.size_bytes
            } else {
                b
            },
    )
}

/// The number of tables at a level.
pub open spec fn tables_at(s: Seq<MetaView>, n: int) -> int {
    s.filter(|m: MetaView| m.level == n).len() as int
}

/// A level from 1 on holds more bytes than its target.
pub open spec fn overfull(s: Seq<MetaView>, cfg: CompactionConfig, n: int) -> bool {
    0 < n < cfg.max_level && 0 < target(s, cfg, n) < bytes_at(s, n)
}

/// Level 0 has reached its trigger.
pub open spec fn triggered(s: Seq<MetaView>, cfg: CompactionConfig) -> bool {
    tables_at(s, 0) > 0 && tables_at(s, 0) >= cfg.l0_trigger
}

pub(crate) proof fn size_is_sum(s: Seq<MetaView>, n: int)
    ensures
        level_size(s, n) == bytes_at(s, n),
        level_count(s, n) == tables_at(s, n),
    decreases s.len(),
{
    reveal(Seq::filter);
    if s.len() > 0 {
        size_is_sum(s.drop_last(), n);
    }
}

proof fn some_table_at(s: Seq<MetaView>, n: int)
    ensures
        bytes_at(s, n) >= 0,
        bytes_at(s, n) > 0 ==> exists|i: int| 0 <= i < s.len() && (#[trigger] s[i]).level == n,
    decreases s.len(),
{
    if s.len() > 0 {
        some_table_at(s.drop_last(), n);
        if bytes_at(s, n) > 0 {
            if s.last().level == n {
                assert(s[s.len() - 1].level == n);
            } else {
                let i = choose|i: int|
                    0 <= i < s.drop_last().len() && (#[trigger] s.drop_last()[i]).level == n;
                assert(s[i].level == n);
            }
        }
    }
}

/// Where the score of a source level is full and there is a job for it.
proof fn ready_levels(s: Seq<MetaView>, cfg: CompactionConfig, n: int)
    requires
        plannable(s, cfg),
        s.len() <= usize::MAX,
        0 <= n < source_levels(cfg),
    ensures
        score(s, cfg, n).full() && source_job(s, cfg, n) is Some <==> if n == 0 {
            triggered(s, cfg)
        } else {
            overfull(s, cfg, n)
        },
        n > 0 && overfull(s, cfg, n) ==> score(s, cfg, n) == (LevelScore {
            num: bytes_at(s, n) as u64,
            den: target(s, cfg, n) as u64,
        }),
        n > 0 && overfull(s, cfg, n) ==> bytes_at(s, n) <= u64::MAX && target(s, cfg, n) <= u64::MAX,
        score(s, cfg, n).den > 0,
{
    size_is_sum(s, n);
    some_table_at(s, n);
    bytes_where_bound(s, at_level(n));
    target_bound(s, cfg, n);
    if n > 0 {
        oldest_at_facts(s, n, s.len() as int);
        if overfull(s, cfg, n) {
            let i = choose|i: int| 0 <= i < s.len() && (#[trigger] s[i]).level == n;
            assert(oldest_at(s, n, s.len() as int) >= 0);
        }
        assert(source_job(s, cfg, n) == level_job(s, cfg, n));
        assert(source_job(s, cfg, n) is Some <==> overfull(s, cfg, n));
    } else {
        files_fit(s);
        let files = LevelScore {
            num: level_count(s, 0) as u64,
            den: crate::compaction::at_least_one(cfg.l0_trigger as nat) as u64,
        };
        assert(source_job(s, cfg, 0) is Some <==> triggered(s, cfg));
        if triggered(s, cfg) {
            assert(files.full());
            let bytes = LevelScore { num: level_size(s, 0) as u64, den: cfg.l1_target_bytes };
            if cfg.l1_target_bytes > 0 && bytes.above(files) {
                assert(bytes.num >= bytes.den) by (nonlinear_arith)
                    requires
                        bytes.num * files.den > files.num * bytes.den,
                        files.num >= files.den,
                        files.den > 0,
                ;
                assert(score(s, cfg, 0) == bytes);
            } else {
                let none = LevelScore { num: 0, den: 1 };
                assert(!none.above(files)) by (nonlinear_arith)
                    requires
                        none.num == 0,
                        files.num >= 0,
                        none.den == 1,
                ;
                assert(score(s, cfg, 0) == files);
            }
        }
    }
}

/// The planner finds a job exactly where one is due at a source level: level 0 has reached
/// its trigger, or a deeper level but the deepest holds more bytes than its target. With
/// none due, a job can only be a merge within the deepest level.
pub proof fn plans_where_a_level_is_over_its_target(s: Seq<MetaView>, cfg: CompactionConfig)
    requires
        plannable(s, cfg),
        s.len() <= usize::MAX,
        cfg.max_level > 0,
    ensures
        forall|n: int| #[trigger] overfull(s, cfg, n) ==> planned(s, cfg) is Some,
        triggered(s, cfg) ==> planned(s, cfg) is Some,
        planned(s, cfg) matches Some(job) ==> {
            ||| job.input_level == 0 && triggered(s, cfg)
            ||| 0 < job.input_level < cfg.max_level && overfull(s, cfg, job.input_level as int)
            ||| job.input_level == cfg.max_level && job.output_level == cfg.max_level && !triggered(
                s,
                cfg,
            ) && forall|n: int| !(#[trigger] overfull(s, cfg, n))
        },
{
    let k = source_levels(cfg);
    let c = chosen_level(s, cfg, k);
    chosen_level_facts(s, cfg, k);
    ready_levels(s, cfg, 0);
    if c >= 0 {
        ready_levels(s, cfg, c);
    }
    assert forall|n: int| #[trigger] overfull(s, cfg, n) implies planned(s, cfg) is Some && c
        >= 0 by {
        ready_levels(s, cfg, n);
        assert(source_job(s, cfg, n) is Some);
    }
    if triggered(s, cfg) {
        assert(source_job(s, cfg, 0) is Some);
    }
}

proof fn chosen_is_best(s: Seq<MetaView>, cfg: CompactionConfig, n: int, l: int)
    requires
        plannable(s, cfg),
        s.len() <= usize::MAX,
        0 <= l < n <= source_levels(cfg),
        score(s, cfg, l).full(),
        source_job(s, cfg, l) is Some,
    ensures
        ({
            let c = chosen_level(s, cfg, n);
            &&& 0 <= c < n
            &&& !score(s, cfg, l).above(score(s, cfg, c))
            &&& l < c ==> score(s, cfg, c).above(score(s, cfg, l))
        }),
    decreases n,
{
    let c = chosen_level(s, cfg, n);
    chosen_level_facts(s, cfg, n);
    chosen_level_facts(s, cfg, n - 1);
    if l < n - 1 {
        chosen_is_best(s, cfg, n - 1, l);
        let b = chosen_level(s, cfg, n - 1);
        if c != b {
            ready_levels(s, cfg, l);
            ready_levels(s, cfg, b);
            ready_levels(s, cfg, c);
            let x = score(s, cfg, l);
            let y = score(s, cfg, b);
            let z = score(s, cfg, c);
            assert(z.num * x.den > x.num * z.den) by (nonlinear_arith)
                requires
                    x.num * y.den <= y.num * x.den,
                    z.num * y.den > y.num * z.den,
                    x.den > 0,
                    y.den > 0,
                    z.den > 0,
            ;
        }
    }
}

/// Of the levels that are due, the one that is fullest against its target goes first, and
/// of equally full ones the lower: no other is fuller, and none below the chosen one is as
/// full.
pub proof fn the_fullest_level_goes_first(
    s: Seq<MetaView>,
    cfg: CompactionConfig,
    job: JobView,
    n: int,
)
    requires
        plannable(s, cfg),
        s.len() <= usize::MAX,
        cfg.max_level > 0,
        planned(s, cfg) == Some(job),
    ensures
        ({
            let a = job.input_level as int;
            let trigger = if cfg.l0_trigger > 0 {
                cfg.l0_trigger as int
            } else {
                1
            };
            &&& 0 < a < cfg.max_level && overfull(s, cfg, n) ==> bytes_at(s, n) * target(s, cfg, a)
                <= bytes_at(s, a) * target(s, cfg, n)
            &&& 0 < a < cfg.max_level && overfull(s, cfg, n) && n < a ==> bytes_at(s, n) * target(
                s,
                cfg,
                a,
            ) < bytes_at(s, a) * target(s, cfg, n)
            &&& 0 < a < cfg.max_level && triggered(s, cfg) ==> tables_at(s, 0) * target(s, cfg, a)
                < bytes_at(s, a) * trigger
            &&& 0 < a < cfg.max_level && triggered(s, cfg) && cfg.l1_target_bytes > 0 ==> bytes_at(
                s,
                0,
            ) * target(s, cfg, a) < bytes_at(s, a) * cfg.l1_target_bytes
            &&& a == 0 && overfull(s, cfg, n) ==> {
                ||| bytes_at(s, n) * trigger <= tables_at(s, 0) * target(s, cfg, n)
                ||| cfg.l1_target_bytes > 0 && bytes_at(s, n) * cfg.l1_target_bytes <= bytes_at(
                    s,
                    0,
                ) * target(s, cfg, n)
            }
            &&& 0 < a < cfg.max_level ==> job.priority_score.num == bytes_at(s, a)
                && job.priority_score.den == target(s, cfg, a)
        }),
{
    let k = source_levels(cfg);
    let c = chosen_level(s, cfg, k);
    let a = job.input_level as int;
    chosen_level_facts(s, cfg, k);
    plans_where_a_level_is_over_its_target(s, cfg);
    ready_levels(s, cfg, 0);
    size_is_sum(s, 0);
    files_fit(s);
    bytes_where_bound(s, at_level(0));
    if overfull(s, cfg, n) {
        ready_levels(s, cfg, n);
        chosen_is_best(s, cfg, k, n);
    }
    if triggered(s, cfg) {
        chosen_is_best(s, cfg, k, 0);
    }
    if c >= 0 {
        ready_levels(s, cfg, c);
        assert(a == c);
    }
    if 0 < a < cfg.max_level && triggered(s, cfg) && cfg.l1_target_bytes > 0 {
        let files = LevelScore {
            num: level_count(s, 0) as u64,
            den: crate::compaction::at_least_one(cfg.l0_trigger as nat) as u64,
        };
        let bytes = LevelScore { num: level_size(s, 0) as u64, den: cfg.l1_target_bytes };
        let z = score(s, cfg, a);
        if bytes.above(files) {
            assert(z.num * files.den > files.num * z.den) by (nonlinear_arith)
                requires
                    bytes.num * files.den > files.num * bytes.den,
                    z.num * bytes.den > bytes.num * z.den,
                    bytes.den > 0,
                    files.den > 0,
                    z.den > 0,
            ;
        } else {
            assert(z.num * bytes.den > bytes.num * z.den) by (nonlinear_arith)
                requires
                    bytes.num * files.den <= files.num * bytes.den,
                    z.num * files.den > files.num * z.den,
                    bytes.den > 0,
                    files.den > 0,
                    z.den > 0,
            ;
        }
    }
}

/// The number of tables fits 64 bits.
proof fn files_fit(s: Seq<MetaView>)
    ensures
        level_count(s, 0) <= s.len(),
{
    crate::compaction::ids_where_len(s, at_level(0));
}

/// The bytes of the tables with one of some ids, added up.
pub open spec fn bytes_of(s: Seq<MetaView>, ids: Seq<u64>) -> int {
    s.fold_left(
        0int,
        |b: int, m: MetaView|
            if ids.contains(m.id) {
                b + m.size_bytes
            } else {
                b
            },
    )
}

/// The key ranges of two tables meet: neither ends before the other begins.
pub open spec fn meet(a: MetaView, b: MetaView) -> bool {
    !lex_lt(a.max_key, b.min_key) && !lex_lt(b.max_key, a.min_key)
}

/// The table at `i` is the one of its level with the smallest id.
pub open spec fn is_oldest(s: Seq<MetaView>, i: int) -> bool {
    0 <= i < s.len() && forall|j: int|
        0 <= j < s.len() && (#[trigger] s[j]).level == s[i].level ==> s[i].id <= s[j].id
}

/// The id is that of a table at a level whose range meets that of the table at `i`.
pub open spec fn id_meets(s: Seq<MetaView>, level: int, i: int, id: u64) -> bool {
    exists|j: int|
        0 <= j < s.len() && (#[trigger] s[j]).level == level && s[j].id == id && meet(s[j], s[i])
}

/// A job at a level between the first and the deepest takes the oldest table there, and
/// just those of the next level whose ranges meet its own, and writes to the next level.
pub proof fn a_level_gives_its_oldest_table(s: Seq<MetaView>, cfg: CompactionConfig, job: JobView)
    requires
        plannable(s, cfg),
        s.len() <= usize::MAX,
        cfg.max_level > 0,
        planned(s, cfg) == Some(job),
        0 < job.input_level < cfg.max_level,
    ensures
        job.output_level == job.input_level + 1,
        exists|i: int|
            {
                &&& is_oldest(s, i)
                &&& (#[trigger] s[i]).level == job.input_level
                &&& job.inputs.len() > 0
                &&& job.inputs[0] == s[i].id
                &&& forall|id: u64| #[trigger]
                    job.inputs.skip(1).contains(id) <==> id_meets(
                        s,
                        job.input_level + 1,
                        i,
                        id,
                    )
            },
{
    let k = source_levels(cfg);
    let c = chosen_level(s, cfg, k);
    chosen_level_facts(s, cfg, k);
    plans_where_a_level_is_over_its_target(s, cfg);
    let n = s.len() as int;
    let i = oldest_at(s, c, n);
    oldest_at_facts(s, c, n);
    assert(job.inputs.skip(1) =~= ids_where(s, near(c + 1, s[i], false)));
    assert forall|id: u64| #[trigger]
        job.inputs.skip(1).contains(id) <==> id_meets(s, job.input_level + 1, i, id) by {
        let p = near(c + 1, s[i], false);
        ids_where_contains(s, p, id);
        if id_meets(s, c + 1, i, id) {
            let j = choose|j: int|
                0 <= j < s.len() && (#[trigger] s[j]).level == c + 1 && s[j].id == id && meet(
                    s[j],
                    s[i],
                );
            assert(p(s[j]));
        }
        if job.inputs.skip(1).contains(id) {
            let j = choose|j: int| 0 <= j < s.len() && p(#[trigger] s[j]) && s[j].id == id;
            assert(meet(s[j], s[i]));
        }
    }
    assert(s[i].level == job.input_level);
}

/// A job at level 0 takes every table there, and just those of the level that it writes to
/// whose ranges reach into the span of level 0: they do not end before every table of
/// level 0 begins, nor begin after every one ends.
pub proof fn level_zero_goes_as_a_whole(s: Seq<MetaView>, cfg: CompactionConfig, job: JobView, id: u64)
    requires
        plannable(s, cfg),
        s.len() <= usize::MAX,
        cfg.max_level > 0,
        planned(s, cfg) == Some(job),
        job.input_level == 0,
    ensures
        1 <= job.output_level <= cfg.max_level,
        job.output_level < cfg.max_level ==> target(s, cfg, job.output_level as int) > 0,
        forall|n: int| 0 < n < job.output_level ==> #[trigger] target(s, cfg, n) == 0,
        job.inputs.contains(id) <==> exists|j: int|
            {
                &&& 0 <= j < s.len()
                &&& (#[trigger] s[j]).id == id
                &&& s[j].level == 0 || (s[j].level == job.output_level && reaches_level_zero(
                    s,
                    s[j],
                ))
            },
{
    let k = source_levels(cfg);
    let c = chosen_level(s, cfg, k);
    chosen_level_facts(s, cfg, k);
    plans_where_a_level_is_over_its_target(s, cfg);
    base_is_first_with_target(s, cfg, 1);
    base_facts(s, cfg, 1);
    let to = base(s, cfg);
    let lo = span_min(s, 0)->0;
    let hi = span_max(s, 0)->0;
    span_exists(s, 0);
    let p = |m: MetaView| m.level == to && ranges_overlap(m.min_key, m.max_key, lo, hi);
    let head = ids_where(s, at_level(0));
    let tail = ids_where(s, p);
    assert(job.inputs == head + tail);
    ids_where_contains(s, at_level(0), id);
    ids_where_contains(s, p, id);
    assert((head + tail).contains(id) <==> head.contains(id) || tail.contains(id)) by {
        if head.contains(id) {
            let q = choose|q: int| 0 <= q < head.len() && head[q] == id;
            assert((head + tail)[q] == id);
        }
        if tail.contains(id) {
            let q = choose|q: int| 0 <= q < tail.len() && tail[q] == id;
            assert((head + tail)[head.len() + q] == id);
        }
        if (head + tail).contains(id) {
            let q = choose|q: int| 0 <= q < (head + tail).len() && (head + tail)[q] == id;
            if q < head.len() {
                assert(head[q] == id);
            } else {
                assert(tail[q - head.len()] == id);
            }
        }
    }
    assert forall|j: int| 0 <= j < s.len() implies ranges_overlap(
        (#[trigger] s[j]).min_key,
        s[j].max_key,
        lo,
        hi,
    ) == reaches_level_zero(s, s[j]) by {
        span_reaches(s, s[j]);
    }
    if job.inputs.contains(id) {
        if head.contains(id) {
            let j = choose|j: int| 0 <= j < s.len() && at_level(0)(#[trigger] s[j]) && s[j].id == id;
            assert(s[j].level == 0);
        } else {
            let j = choose|j: int| 0 <= j < s.len() && p(#[trigger] s[j]) && s[j].id == id;
            assert(s[j].level == to);
        }
    }
    if exists|j: int|
        {
            &&& 0 <= j < s.len()
            &&& (#[trigger] s[j]).id == id
            &&& s[j].level == 0 || (s[j].level == job.output_level && reaches_level_zero(s, s[j]))
        } {
        let j = choose|j: int|
            {
                &&& 0 <= j < s.len()
                &&& (#[trigger] s[j]).id == id
                &&& s[j].level == 0 || (s[j].level == job.output_level && reaches_level_zero(
                    s,
                    s[j],
                ))
            };
        if s[j].level == 0 {
            assert(at_level(0)(s[j]));
        } else {
            assert(p(s[j]));
        }
    }
}

/// Some table of level 0 does not begin after `m` ends, and some does not end before `m`
/// begins.
pub open spec fn reaches_level_zero(s: Seq<MetaView>, m: MetaView) -> bool {
    &&& exists|a: int|
        0 <= a < s.len() && (#[trigger] s[a]).level == 0 && !lex_lt(m.max_key, s[a].min_key)
    &&& exists|b: int|
        0 <= b < s.len() && (#[trigger] s[b]).level == 0 && !lex_lt(s[b].max_key, m.min_key)
}

proof fn span_attained(s: Seq<MetaView>, level: int)
    ensures
        span_min(s, level) matches Some(k) ==> exists|i: int|
            0 <= i < s.len() && (#[trigger] s[i]).level == level && s[i].min_key == k,
        span_max(s, level) matches Some(k) ==> exists|i: int|
            0 <= i < s.len() && (#[trigger] s[i]).level == level && s[i].max_key == k,
    decreases s.len(),
{
    if s.len() > 0 {
        let init = s.drop_last();
        span_attained(init, level);
        if span_min(init, level) is Some {
            let i = choose|i: int|
                0 <= i < init.len() && (#[trigger] init[i]).level == level && init[i].min_key
                    == span_min(init, level)->0;
            assert(s[i] == init[i]);
        }
        if span_max(init, level) is Some {
            let i = choose|i: int|
                0 <= i < init.len() && (#[trigger] init[i]).level == level && init[i].max_key
                    == span_max(init, level)->0;
            assert(s[i] == init[i]);
        }
        assert(s[s.len() - 1] == s.last());
    }
}

proof fn span_reaches(s: Seq<MetaView>, m: MetaView)
    requires
        level_count(s, 0) > 0,
    ensures
        ranges_overlap(m.min_key, m.max_key, span_min(s, 0)->0, span_max(s, 0)->0)
            == reaches_level_zero(s, m),
{
    span_exists(s, 0);
    span_attained(s, 0);
    let lo = span_min(s, 0)->0;
    let hi = span_max(s, 0)->0;
    let i = choose|i: int| 0 <= i < s.len() && (#[trigger] s[i]).level == 0 && s[i].min_key == lo;
    let j = choose|j: int| 0 <= j < s.len() && (#[trigger] s[j]).level == 0 && s[j].max_key == hi;
    if reaches_level_zero(s, m) {
        let a = choose|a: int|
            0 <= a < s.len() && (#[trigger] s[a]).level == 0 && !lex_lt(m.max_key, s[a].min_key);
        let b = choose|b: int|
            0 <= b < s.len() && (#[trigger] s[b]).level == 0 && !lex_lt(s[b].max_key, m.min_key);
        span_covers_level(s, 0, a);
        span_covers_level(s, 0, b);
        lex_lt_total(lo, s[a].min_key);
        lex_lt_total(s[b].max_key, hi);
        if lex_lt(m.max_key, lo) && lex_lt(lo, s[a].min_key) {
            lex_lt_transitive(m.max_key, lo, s[a].min_key);
        }
        if lex_lt(hi, m.min_key) && lex_lt(s[b].max_key, hi) {
            lex_lt_transitive(s[b].max_key, hi, m.min_key);
        }
    } else if ranges_overlap(m.min_key, m.max_key, lo, hi) {
        assert(s[i].level == 0 && !lex_lt(m.max_key, s[i].min_key));
        assert(s[j].level == 0 && !lex_lt(s[j].max_key, m.min_key));
    }
}

proof fn base_is_first_with_target(s: Seq<MetaView>, cfg: CompactionConfig, level: int)
    requires
        0 < level,
    ensures
        ({
            let b = base_from(s, cfg, level);
            &&& b < cfg.max_level ==> target(s, cfg, b) > 0
            &&& forall|n: int| level <= n < b ==> #[trigger] target(s, cfg, n) == 0
        }),
    decreases cfg.max_level - level,
{
    if level < cfg.max_level && target(s, cfg, level) == 0 {
        base_is_first_with_target(s, cfg, level + 1);
    }
}

/// A merge within the deepest level takes its oldest table and just the others there whose
/// ranges meet its own, at least one; and half of what they hold is worth the effort.
/// Where no source level is due, such a merge is planned whenever there is one.
pub proof fn the_deepest_level_is_merged_where_it_pays(s: Seq<MetaView>, cfg: CompactionConfig, i: int)
    requires
        plannable(s, cfg),
        s.len() <= usize::MAX,
        cfg.max_level > 0,
        is_oldest(s, i),
        s[i].level == cfg.max_level,
        forall|a: int, b: int|
            0 <= a < b < s.len() ==> (#[trigger] s[a]).id != (#[trigger] s[b]).id,
        !triggered(s, cfg),
        forall|n: int| !(#[trigger] overfull(s, cfg, n)),
    ensures
        match planned(s, cfg) {
            Some(job) => {
                &&& job.input_level == cfg.max_level
                &&& job.output_level == cfg.max_level
                &&& job.inputs.len() >= 2
                &&& job.inputs[0] == s[i].id
                &&& forall|id: u64| #[trigger]
                    job.inputs.skip(1).contains(id) <==> id != s[i].id && id_meets(
                        s,
                        cfg.max_level as int,
                        i,
                        id,
                    )
                &&& 2 * cfg.l2_gc_min_reclaim_bytes <= bytes_of(s, job.inputs) + 1
            },
            None => {
                ||| forall|j: int|
                    0 <= j < s.len() && (#[trigger] s[j]).level == cfg.max_level && j != i
                        ==> !meet(s[j], s[i])
                ||| exists|ids: Seq<u64>|
                    {
                        &&& bytes_of(s, ids) + 1 < 2 * cfg.l2_gc_min_reclaim_bytes
                        &&& forall|id: u64| #[trigger]
                            ids.contains(id) <==> id == s[i].id || id_meets(
                                s,
                                cfg.max_level as int,
                                i,
                                id,
                            )
                    }
            },
        },
{
    let k = source_levels(cfg);
    let c = chosen_level(s, cfg, k);
    chosen_level_facts(s, cfg, k);
    if c >= 0 {
        ready_levels(s, cfg, c);
    }
    let max = cfg.max_level as int;
    let n = s.len() as int;
    let o = oldest_at(s, max, n);
    oldest_at_facts(s, max, n);
    assert(o == i) by {
        assert(s[i].level == max);
        assert(s[o].id <= s[i].id && s[i].id <= s[o].id);
        if o < i {
            assert(s[o].id != s[i].id);
        }
        if i < o {
            assert(s[i].id != s[o].id);
        }
    }
    let p = near(max, s[i], true);
    let tail = ids_where(s, p);
    let inputs = seq![s[i].id] + tail;
    let q = |m: MetaView| inputs.contains(m.id);
    bytes_of_is(s, inputs, s.len() as int);
    assert(s.take(s.len() as int) =~= s);
    assert(inputs.skip(1) =~= tail);
    let b = bytes_of(s, inputs);
    crate::compaction::bytes_where_bound(s, q);
    assert forall|id: u64| #[trigger] tail.contains(id) <==> id != s[i].id && id_meets(
        s,
        max,
        i,
        id,
    ) by {
        ids_where_contains(s, p, id);
        if tail.contains(id) {
            let j = choose|j: int| 0 <= j < s.len() && p(#[trigger] s[j]) && s[j].id == id;
            assert(meet(s[j], s[i]));
        }
        if id != s[i].id && id_meets(s, max, i, id) {
            let j = choose|j: int|
                0 <= j < s.len() && (#[trigger] s[j]).level == max && s[j].id == id && meet(
                    s[j],
                    s[i],
                );
            assert(p(s[j]));
        }
    }
    if planned(s, cfg) is None {
        if tail.len() == 0 {
            assert forall|j: int|
                0 <= j < s.len() && (#[trigger] s[j]).level == cfg.max_level && j != i implies !meet(
                s[j],
                s[i],
            ) by {
                if meet(s[j], s[i]) {
                    assert(s[j].id != s[i].id) by {
                        if j < i {
                            assert(s[j].id != s[i].id);
                        } else {
                            assert(s[i].id != s[j].id);
                        }
                    }
                    assert(id_meets(s, max, i, s[j].id));
                    assert(tail.contains(s[j].id));
                }
            }
        } else {
            let first = tail[0];
            assert(tail.contains(first));
            let j = choose|j: int|
                0 <= j < s.len() && (#[trigger] s[j]).level == max && s[j].id == first && meet(
                    s[j],
                    s[i],
                );
            assert forall|id: u64| #[trigger] inputs.contains(id) <==> id == s[i].id || id_meets(
                s,
                max,
                i,
                id,
            ) by {
                if inputs.contains(id) && id != s[i].id {
                    let z = choose|z: int| 0 <= z < inputs.len() && inputs[z] == id;
                    assert(tail[z - 1] == id);
                    assert(tail.contains(id));
                }
                if id == s[i].id {
                    assert(inputs[0] == id);
                } else if id_meets(s, max, i, id) {
                    assert(tail.contains(id));
                    let z = choose|z: int| 0 <= z < tail.len() && tail[z] == id;
                    assert(inputs[z + 1] == id);
                }
            }
            assert(bytes_of(s, inputs) + 1 < 2 * cfg.l2_gc_min_reclaim_bytes);
        }
    }
}

proof fn bytes_of_is(s: Seq<MetaView>, ids: Seq<u64>, n: int)
    requires
        0 <= n <= s.len(),
    ensures
        bytes_of(s.take(n), ids) == crate::compaction::bytes_where(
            s.take(n),
            |m: MetaView| ids.contains(m.id),
        ),
    decreases n,
{
    if n > 0 {
        bytes_of_is(s, ids, n - 1);
        assert(s.take(n).drop_last() =~= s.take(n - 1));
    }
}

/// The ratio between neighbouring levels, one where none is set.
pub open spec fn ratio_of(cfg: CompactionConfig) -> int {
    if cfg.level_size_multiplier > 0 {
        cfg.level_size_multiplier as int
    } else {
        1
    }
}

proof fn nominal_is_power(cfg: CompactionConfig, n: int)
    requires
        n >= 1,
        cfg.level_size_multiplier > 0,
        cfg.l1_target_bytes * pow(cfg.level_size_multiplier as int, (n - 1) as nat) <= u64::MAX,
    ensures
        nominal_target(cfg, n) == cfg.l1_target_bytes * pow(
            cfg.level_size_multiplier as int,
            (n - 1) as nat,
        ),
    decreases n,
{
    let m = cfg.level_size_multiplier as int;
    let l1 = cfg.l1_target_bytes as int;
    reveal(pow);
    if n > 1 {
        let before = pow(m, (n - 2) as nat);
        vstd::arithmetic::power::lemma_pow_positive(m, (n - 2) as nat);
        assert(pow(m, (n - 1) as nat) == m * before);
        assert(l1 * (m * before) == (l1 * before) * m) by (nonlinear_arith);
        assert(l1 * before <= (l1 * before) * m) by (nonlinear_arith)
            requires
                m >= 1,
                l1 >= 0,
                before >= 0,
        ;
        nominal_is_power(cfg, n - 1);
        assert(nominal_target(cfg, n - 1) * m == (l1 * before) * m);
    } else {
        assert(pow(m, 0) == 1);
    }
}

proof fn down_from_power(s: Seq<MetaView>, cfg: CompactionConfig, n: int)
    requires
        1 <= n <= cfg.max_level,
        bytes_at(s, cfg.max_level as int) == 0,
        cfg.level_size_multiplier > 0,
        cfg.l1_target_bytes * pow(cfg.level_size_multiplier as int, (cfg.max_level - 1) as nat)
            <= u64::MAX,
    ensures
        target(s, cfg, n) == cfg.l1_target_bytes * pow(
            cfg.level_size_multiplier as int,
            (n - 1) as nat,
        ),
    decreases cfg.max_level - n,
{
    let m = cfg.level_size_multiplier as int;
    let l1 = cfg.l1_target_bytes as int;
    size_is_sum(s, cfg.max_level as int);
    if n == cfg.max_level {
        nominal_is_power(cfg, n);
    } else {
        down_from_power(s, cfg, n + 1);
        reveal(pow);
        let here = pow(m, (n - 1) as nat);
        vstd::arithmetic::power::lemma_pow_positive(m, (n - 1) as nat);
        assert(pow(m, n as nat) == m * here);
        let up = target(s, cfg, n + 1) as int;
        assert(up == (l1 * here) * m) by (nonlinear_arith)
            requires
                up == l1 * (m * here),
        ;
        assert(up / m == l1 * here) by (nonlinear_arith)
            requires
                up == (l1 * here) * m,
                m > 0,
        ;
        assert(l1 / m <= l1) by (nonlinear_arith)
            requires
                l1 >= 0,
                m >= 1,
        ;
        assert(l1 <= l1 * here) by (nonlinear_arith)
            requires
                l1 >= 0,
                here >= 1,
        ;
    }
}

/// The targets of the levels. The deepest is to hold what it holds. Where it is empty,
/// level `n` is to hold the target of level 1 times the ratio for each level in between. A
/// level above it is to hold the next one's target over the ratio, or nothing where that is
/// less than the target of level 1 over the ratio.
pub proof fn targets_follow_the_deepest_level(s: Seq<MetaView>, cfg: CompactionConfig, n: int)
    requires
        1 <= n <= cfg.max_level,
    ensures
        bytes_at(s, cfg.max_level as int) > 0 ==> target(s, cfg, cfg.max_level as int) == bytes_at(
            s,
            cfg.max_level as int,
        ),
        bytes_at(s, cfg.max_level as int) == 0 && cfg.level_size_multiplier > 0
            && cfg.l1_target_bytes * pow(
            cfg.level_size_multiplier as int,
            (cfg.max_level - 1) as nat,
        ) <= u64::MAX ==> target(s, cfg, n) == cfg.l1_target_bytes * pow(
            cfg.level_size_multiplier as int,
            (n - 1) as nat,
        ),
        n < cfg.max_level ==> ({
            let t = target(s, cfg, n) as int;
            let next = target(s, cfg, n + 1) as int;
            let r = ratio_of(cfg);
            &&& t > 0 ==> t * r <= next < (t + 1) * r
            &&& t > 0 ==> cfg.l1_target_bytes < (t + 1) * r
            &&& t == 0 ==> next < r || exists|q: int|
                #![trigger q * r]
                next < q * r && q * r <= cfg.l1_target_bytes
        }),
{
    let max = cfg.max_level as int;
    size_is_sum(s, max);
    if bytes_at(s, max) == 0 && cfg.level_size_multiplier > 0 && cfg.l1_target_bytes * pow(
        cfg.level_size_multiplier as int,
        (cfg.max_level - 1) as nat,
    ) <= u64::MAX {
        down_from_power(s, cfg, n);
    }
    if n < max {
        let next = target(s, cfg, n + 1) as int;
        let r = ratio_of(cfg);
        let l1 = cfg.l1_target_bytes as int;
        let t = next / r;
        let least = l1 / r;
        assert(t * r <= next < (t + 1) * r) by (nonlinear_arith)
            requires
                t == next / r,
                r > 0,
        ;
        assert(least * r <= l1 < (least + 1) * r) by (nonlinear_arith)
            requires
                least == l1 / r,
                r > 0,
        ;
        if t >= least {
            assert((least + 1) * r <= (t + 1) * r) by (nonlinear_arith)
                requires
                    least <= t,
                    r > 0,
            ;
            assert(target(s, cfg, n) == t);
            if t == 0 {
                assert((t + 1) * r == r) by (nonlinear_arith)
                    requires
                        t == 0,
                ;
            }
        } else {
            assert(target(s, cfg, n) == 0);
            assert((t + 1) * r <= least * r) by (nonlinear_arith)
                requires
                    t + 1 <= least,
                    r > 0,
            ;
            assert(next < least * r && least * r <= l1);
        }
    }
}

/// By how much a level exceeds its target, where it has one.
pub open spec fn excess_at(s: Seq<MetaView>, cfg: CompactionConfig, n: int) -> int {
    if target(s, cfg, n) > 0 && bytes_at(s, n) > target(s, cfg, n) {
        bytes_at(s, n) - target(s, cfg, n)
    } else {
        0
    }
}

/// By how much the levels from 1 to the deepest exceed their targets, added up.
pub open spec fn all_excess(s: Seq<MetaView>, cfg: CompactionConfig) -> int {
    Seq::new(cfg.max_level as nat, |i: int| excess_at(s, cfg, i + 1)).fold_left(
        0int,
        |a: int, b: int| a + b,
    )
}

proof fn excess_adds_up(s: Seq<MetaView>, cfg: CompactionConfig, n: nat)
    ensures
        excess(s, cfg, n as int) == Seq::new(n, |i: int| excess_at(s, cfg, i + 1)).fold_left(
            0int,
            |a: int, b: int| a + b,
        ),
        forall|l: int| 1 <= l <= n ==> #[trigger] excess_at(s, cfg, l) <= excess(s, cfg, n as int),
    decreases n,
{
    let q = Seq::new(n, |i: int| excess_at(s, cfg, i + 1));
    if n > 0 {
        let k = (n - 1) as nat;
        excess_adds_up(s, cfg, k);
        assert(q.drop_last() =~= Seq::new(k, |i: int| excess_at(s, cfg, i + 1)));
        assert(q.last() == excess_at(s, cfg, n as int));
        size_is_sum(s, n as int);
    }
}

/// The debt is what the levels from 1 on hold beyond their targets. To it come the bytes of
/// level 0 from two tables there on, and from the trigger on also those of the level that
/// level 0 goes to. Sixty-four bits are as much as it shows.
pub proof fn debt_is_the_bytes_beyond_the_targets(s: Seq<MetaView>, cfg: CompactionConfig)
    requires
        plannable(s, cfg),
        cfg.max_level > 0,
    ensures
        forall|n: int|
            1 <= n <= cfg.max_level && target(s, cfg, n) > 0 ==> pending(s, cfg) == u64::MAX
                || pending(s, cfg) >= #[trigger] bytes_at(s, n) - target(s, cfg, n),
        tables_at(s, 0) < 2 && tables_at(s, 0) < cfg.l0_trigger ==> pending(s, cfg) == (if all_excess(
            s,
            cfg,
        ) <= u64::MAX {
            all_excess(s, cfg)
        } else {
            u64::MAX as int
        }),
        2 <= tables_at(s, 0) < cfg.l0_trigger ==> pending(s, cfg) == (if all_excess(s, cfg)
            + bytes_at(s, 0) <= u64::MAX {
            all_excess(s, cfg) + bytes_at(s, 0)
        } else {
            u64::MAX as int
        }),
        tables_at(s, 0) >= cfg.l0_trigger ==> exists|b: int|
            {
                &&& 1 <= b <= cfg.max_level
                &&& b < cfg.max_level ==> target(s, cfg, b) > 0
                &&& forall|n: int| 0 < n < b ==> #[trigger] target(s, cfg, n) == 0
                &&& pending(s, cfg) == (if all_excess(s, cfg) + bytes_at(s, 0) + #[trigger] bytes_at(
                    s,
                    b,
                ) <= u64::MAX {
                    all_excess(s, cfg) + bytes_at(s, 0) + bytes_at(s, b)
                } else {
                    u64::MAX as int
                })
            },
{
    let b = base(s, cfg);
    excess_adds_up(s, cfg, cfg.max_level as nat);
    size_is_sum(s, 0);
    size_is_sum(s, b);
    base_facts(s, cfg, 1);
    base_is_first_with_target(s, cfg, 1);
    some_table_at(s, 0);
    some_table_at(s, b);
    assert(all_excess(s, cfg) + bytes_at(s, 0) + bytes_at(s, b) >= all_excess(s, cfg));
    assert forall|n: int| 1 <= n <= cfg.max_level && target(s, cfg, n) > 0 implies pending(s, cfg)
        == u64::MAX || pending(s, cfg) >= #[trigger] bytes_at(s, n) - target(s, cfg, n) by {
        assert(excess_at(s, cfg, n) <= excess(s, cfg, cfg.max_level as int));
    }
}

} // verus!
