use zydecodb_engine::compaction::{
    key_span, overlaps, same_level_compaction_would_make_progress, CompactionConfig,
    CompactionPlanner,
};
use zydecodb_engine::manifest::SstableMeta;

fn meta(id: u64, level: u8, min: &[u8], max: &[u8], size: u64) -> SstableMeta {
    SstableMeta {
        id,
        level,
        min_key: min.to_vec(),
        max_key: max.to_vec(),
        min_seq: id,
        max_seq: id,
        size_bytes: size,
    }
}

#[test]
fn no_l0_pressure_returns_none() {
    let cfg = CompactionConfig::default();
    let metas = vec![meta(1, 0, b"a", b"z", 1000)];
    assert!(CompactionPlanner::new(&metas, &cfg).plan().is_none());
}

#[test]
fn l0_trigger_picks_all_l0_plus_overlapping_l1() {
    let cfg = CompactionConfig::default();
    let metas = vec![
        meta(1, 0, b"a", b"m", 100),
        meta(2, 0, b"b", b"n", 100),
        meta(3, 0, b"c", b"o", 100),
        meta(4, 0, b"d", b"p", 100),
        meta(5, 1, b"a", b"e", 100), // overlaps
        meta(6, 1, b"u", b"z", 100), // does NOT overlap
    ];
    let job = CompactionPlanner::new(&metas, &cfg).plan().unwrap();
    assert_eq!(job.output_level, 1);
    let mut ids = job.inputs.clone();
    ids.sort();
    assert_eq!(ids, vec![1, 2, 3, 4, 5]);
}

#[test]
fn level_pressure_promotes_oldest_into_next_level() {
    let mut cfg = CompactionConfig::default();
    cfg.l0_trigger = 999; // disable L0 trigger
    cfg.l1_target_bytes = 100; // tiny L1 target so any L1 content trips it
    let metas = vec![
        meta(10, 1, b"a", b"m", 100),
        meta(11, 1, b"n", b"r", 100),
        meta(12, 1, b"s", b"z", 100),
    ];
    let job = CompactionPlanner::new(&metas, &cfg).plan().unwrap();
    assert_eq!(job.output_level, 2);
    assert_eq!(job.inputs, vec![10]);
}

#[test]
fn level_pressure_includes_overlapping_next_level_files() {
    let mut cfg = CompactionConfig::default();
    cfg.l0_trigger = 999;
    cfg.l1_target_bytes = 100;
    let metas = vec![
        meta(10, 1, b"a", b"m", 100),
        meta(11, 1, b"n", b"r", 100),
        meta(12, 1, b"s", b"z", 100),
        meta(20, 2, b"b", b"f", 100),
        meta(21, 2, b"u", b"z", 100),
    ];
    let job = CompactionPlanner::new(&metas, &cfg).plan().unwrap();
    assert_eq!(job.output_level, 2);
    let mut ids = job.inputs.clone();
    ids.sort();
    assert_eq!(ids, vec![10, 20]);
}

#[test]
fn l2_gc_plans_overlapping_files_when_idle() {
    let mut cfg = CompactionConfig::default();
    cfg.l0_trigger = 999;
    cfg.l1_target_bytes = 10_000_000;
    cfg.l2_gc_min_reclaim_bytes = 1024;
    let metas = vec![
        meta(30, 2, b"a", b"m", 8 * 1024),
        meta(31, 2, b"l", b"z", 8 * 1024),
        meta(32, 2, b"m", b"r", 8 * 1024),
    ];
    let job = CompactionPlanner::new(&metas, &cfg).plan().expect("l2 gc");
    assert_eq!(job.input_level, 2);
    assert_eq!(job.output_level, 2);
    assert!(job.inputs.contains(&30));
    assert!(job.inputs.contains(&32));
}

#[test]
fn max_level_only_catalog_plans_nothing() {
    let mut cfg = CompactionConfig::default();
    cfg.l0_trigger = 999;
    cfg.l1_target_bytes = 10;
    let metas = vec![
        meta(30, 2, b"a", b"m", 100),
        meta(31, 2, b"f", b"r", 100),
        meta(32, 2, b"s", b"z", 100),
    ];
    assert!(CompactionPlanner::new(&metas, &cfg).plan().is_none());
}

#[test]
fn l0_wins_when_pressured_over_large_l2_catalog() {
    let cfg = CompactionConfig::default();
    let metas = vec![
        meta(1, 0, b"a", b"d", 100),
        meta(2, 0, b"e", b"h", 100),
        meta(3, 0, b"i", b"l", 100),
        meta(4, 0, b"m", b"p", 100),
        meta(10, 2, b"a", b"b", 100),
        meta(11, 2, b"c", b"d", 100),
        meta(12, 2, b"e", b"f", 100),
        meta(13, 2, b"g", b"h", 100),
        meta(14, 2, b"i", b"j", 100),
        meta(15, 2, b"k", b"l", 100),
        meta(16, 2, b"m", b"n", 100),
        meta(17, 2, b"o", b"p", 100),
        meta(18, 2, b"q", b"r", 100),
    ];
    let job = CompactionPlanner::new(&metas, &cfg).plan().unwrap();
    assert_eq!(job.input_level, 0);
    assert_ne!(job.input_level, job.output_level);
    assert!(job.inputs.iter().any(|&id| (1..=4).contains(&id)));
}

#[test]
fn score_picks_highest_level() {
    let mut cfg = CompactionConfig::default();
    cfg.l0_trigger = 4;
    cfg.l1_target_bytes = 100;
    let metas = vec![
        meta(1, 0, b"a", b"d", 100),
        meta(2, 0, b"e", b"h", 100),
        meta(3, 0, b"i", b"l", 100),
        meta(4, 0, b"m", b"p", 100),
        meta(10, 1, b"a", b"m", 200),
        meta(11, 1, b"n", b"r", 200),
        meta(12, 1, b"s", b"z", 200),
    ];
    let planner = CompactionPlanner::new(&metas, &cfg);
    let l1_score = planner.level_score(1);
    let l0_score = planner.level_score(0);
    assert!(l1_score.exceeds(&l0_score));
    let job = planner.plan().unwrap();
    assert_eq!(job.output_level, 2);
    assert_eq!(job.inputs, vec![10]);
}

#[test]
fn pending_bytes_counts_l0_file_pressure_before_byte_target() {
    let cfg = CompactionConfig::default();
    let metas = vec![
        meta(1, 0, b"a", b"c", 64 * 1024 * 1024),
        meta(2, 0, b"d", b"f", 64 * 1024 * 1024),
        meta(3, 0, b"g", b"i", 64 * 1024 * 1024),
    ];
    let pending = CompactionPlanner::new(&metas, &cfg).estimate_pending_bytes();
    assert_eq!(pending, 3 * 64 * 1024 * 1024);
}

#[test]
fn pending_bytes_at_l0_trigger_includes_base_level() {
    let cfg = CompactionConfig::default();
    let metas = vec![
        meta(1, 0, b"a", b"b", 50),
        meta(2, 0, b"c", b"d", 50),
        meta(3, 0, b"e", b"f", 50),
        meta(4, 0, b"g", b"h", 50),
        meta(10, 1, b"a", b"h", 100),
    ];
    let pending = CompactionPlanner::new(&metas, &cfg).estimate_pending_bytes();
    assert_eq!(pending, 200 + 100);
}

#[test]
fn pending_bytes_stays_bounded_with_pressured_l1() {
    let cfg = CompactionConfig::default();
    let metas = vec![
        meta(1, 0, b"a", b"b", 64 * 1024 * 1024),
        meta(2, 0, b"c", b"d", 64 * 1024 * 1024),
        meta(3, 0, b"e", b"f", 64 * 1024 * 1024),
        meta(10, 1, b"a", b"m", 64 * 1024 * 1024),
        meta(11, 1, b"n", b"z", 64 * 1024 * 1024),
        meta(12, 1, b"o", b"z", 64 * 1024 * 1024),
        meta(13, 1, b"p", b"z", 64 * 1024 * 1024),
        meta(20, 2, b"a", b"m", 64 * 1024 * 1024),
    ];
    let pending = CompactionPlanner::new(&metas, &cfg).estimate_pending_bytes();
    assert!(
        pending < cfg.hard_pending_compaction_bytes,
        "pending {pending} must stay below hard limit {}",
        cfg.hard_pending_compaction_bytes
    );
}

#[test]
fn disjoint_l2_no_steady_repack_below_ceiling() {
    let mut cfg = CompactionConfig::default();
    cfg.l0_trigger = 999;
    let tfb = cfg.target_file_bytes;
    let metas: Vec<SstableMeta> = (10..=15u64)
        .map(|id| {
            let b = b'a' + (id - 10) as u8;
            meta(id, 2, &[b], &[b], tfb)
        })
        .collect();
    let job = CompactionPlanner::new(&metas, &cfg).plan();
    assert!(job.is_none());
}

#[test]
fn eight_target_sized_disjoint_l2_no_job() {
    let mut cfg = CompactionConfig::default();
    cfg.l0_trigger = 999;
    let tfb = cfg.target_file_bytes;
    let metas: Vec<SstableMeta> = (10..=17u64)
        .map(|id| {
            let b = b'a' + (id - 10) as u8;
            meta(id, 2, &[b], &[b], tfb)
        })
        .collect();
    assert!(CompactionPlanner::new(&metas, &cfg).plan().is_none());
}

#[test]
fn max_level_not_in_compaction_scores() {
    let mut cfg = CompactionConfig::default();
    cfg.l0_trigger = 999;
    let tfb = cfg.target_file_bytes;
    let metas: Vec<SstableMeta> = (10..=17u64)
        .map(|id| {
            let b = b'a' + (id - 10) as u8;
            meta(id, 2, &[b], &[b], tfb)
        })
        .collect();
    let planner = CompactionPlanner::new(&metas, &cfg);
    assert_eq!(planner.level_score(cfg.max_level).num, 0);
    assert!(planner.plan().is_none());
}

#[test]
fn same_level_no_progress_guard_rejects_eight_target_files() {
    let tfb = CompactionConfig::default().target_file_bytes;
    let metas: Vec<SstableMeta> = (10..=17u64)
        .map(|id| {
            let b = b'a' + (id - 10) as u8;
            meta(id, 2, &[b], &[b], tfb)
        })
        .collect();
    assert!(!same_level_compaction_would_make_progress(&metas, tfb));
}

#[test]
fn l1_promotion_includes_overlapping_l2_when_both_pressured() {
    let mut cfg = CompactionConfig::default();
    cfg.l0_trigger = 999;
    cfg.l1_target_bytes = 100;
    let metas = vec![
        meta(10, 1, b"a", b"m", 100),
        meta(11, 1, b"n", b"r", 100),
        meta(12, 1, b"s", b"z", 100),
        meta(20, 2, b"b", b"f", 100),
    ];
    let job = CompactionPlanner::new(&metas, &cfg).plan().unwrap();
    assert_eq!(job.output_level, 2);
    assert!(job.inputs.contains(&10));
    assert!(job.inputs.contains(&20));
}

#[test]
fn no_idle_trap_with_l0_pressure_and_l2_present() {
    let mut cfg = CompactionConfig::default();
    cfg.l1_target_bytes = 256 * 1024 * 1024;
    let small_l2 = cfg.l1_target_bytes / cfg.level_size_multiplier / 2;
    let metas = vec![
        meta(1, 0, b"a", b"d", 100),
        meta(2, 0, b"e", b"h", 100),
        meta(3, 0, b"i", b"l", 100),
        meta(4, 0, b"m", b"p", 100),
        meta(10, 2, b"a", b"z", small_l2),
    ];
    let job = CompactionPlanner::new(&metas, &cfg).plan().unwrap();
    assert_eq!(job.output_level, 2);
    assert_ne!(job.input_level, job.output_level);
}

#[test]
fn dynamic_l0_compacts_to_base_level() {
    let mut cfg = CompactionConfig::default();
    cfg.l1_target_bytes = 256 * 1024 * 1024;
    let small_l2 = cfg.l1_target_bytes / cfg.level_size_multiplier / 2;
    let metas = vec![
        meta(1, 0, b"a", b"m", 100),
        meta(2, 0, b"n", b"z", 100),
        meta(3, 0, b"o", b"p", 100),
        meta(4, 0, b"q", b"r", 100),
        meta(10, 2, b"a", b"z", small_l2),
    ];
    let planner = CompactionPlanner::new(&metas, &cfg);
    assert_eq!(planner.effective_level_target(1), 0);
    assert_eq!(planner.base_level(), 2);
    let job = planner.plan().unwrap();
    assert_eq!(job.output_level, 2);
}

#[test]
fn dynamic_targets_shrink_when_db_small() {
    let cfg = CompactionConfig::default();
    let small_l2 = cfg.l1_target_bytes / cfg.level_size_multiplier / 2;
    let metas = vec![meta(10, 2, b"a", b"z", small_l2)];
    let planner = CompactionPlanner::new(&metas, &cfg);
    assert_eq!(planner.effective_level_target(1), 0);
    assert_eq!(planner.base_level(), 2);
}

#[test]
fn key_span_handles_unsorted_inputs() {
    let metas = [
        meta(1, 0, b"m", b"q", 1),
        meta(2, 0, b"a", b"d", 1),
        meta(3, 0, b"x", b"z", 1),
    ];
    let (lo, hi) = key_span(&metas, 0).unwrap();
    assert_eq!(lo, b"a");
    assert_eq!(hi, b"z");
}

#[test]
fn overlap_logic() {
    assert!(overlaps(b"a", b"m", b"f", b"r"));
    assert!(overlaps(b"a", b"z", b"m", b"n"));
    assert!(!overlaps(b"a", b"c", b"d", b"f"));
    assert!(!overlaps(b"x", b"z", b"a", b"c"));
    assert!(overlaps(b"a", b"m", b"m", b"z"));
}
