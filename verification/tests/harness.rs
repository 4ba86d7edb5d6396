use zydecodb_engine::engine::write::WriteGate;
use zydecodb_engine::engine::{Engine, EngineConfig};
use zydecodb_engine::block_cache::BlockCache;
use zydecodb_engine::harness::collect::{collect_sample, Reading};
use zydecodb_engine::harness::drive::{judge_recovery, Harness, StepEnd};
use zydecodb_engine::harness::args::{
    parse_model_args, parse_soak_args, parse_tenant_args, ArgFault, Mode,
};
use zydecodb_engine::harness::load::{
    mean_us, measures_space, rss_from_status, LatencySampler, Mix, Op, RateLimiter, Totals,
    WindowCounters, Workload,
};
use zydecodb_engine::harness::model::{key_of, Model};
use zydecodb_engine::harness::report::{diff_summary, divergence_line, json_string};
use zydecodb_engine::harness::sample::Sample;
use zydecodb_engine::harness::steps::{
    check_get, check_recovered, check_scan, check_snapshot, check_state, choose_step,
    recovery_detail, Step, StepBounds,
};
use zydecodb_engine::harness::tenants::{
    busy_class, exit_code, next_noise, reclaim_puts, sealed_corruption, tenant_key, Verdict,
};
use zydecodb_engine::keys::KS_USER;
use zydecodb_engine::soak_util::Lcg;
use zydecodb_engine::wal::{ReplayOutcome, WalSegment};

const NOW: u64 = 1_700_000_000_000;
const GATE: WriteGate = WriteGate { fair_on: false, noisy: false, admits: true };

fn tokens(line: &str) -> Vec<String> {
    line.split_whitespace().map(|t| t.to_string()).collect()
}

fn live(e: &Engine) -> Vec<(Vec<u8>, Vec<u8>)> {
    e.prefix_scan(&[KS_USER], NOW).unwrap().collect()
}

#[test]
fn engine_and_model_agree_over_a_run() {
    let bounds = StepBounds { keyspace: 20, val_min: 1, val_max: 9 };
    let mut rng = Lcg::new(7);
    let mut model = Model::new();
    let mut e = Engine::open(EngineConfig::default(), 0, Vec::new(), &Vec::new(), false).unwrap();
    for step in 0..2000u64 {
        match choose_step(&mut rng, step, StepBounds { ..bounds }) {
            Step::Put { id, value } => {
                let seq = e.put(key_of(id), value.clone(), 0, GATE).unwrap();
                model.put(key_of(id), seq, value);
            }
            Step::Delete { id } => {
                let (_, seq) = e.del(key_of(id), GATE, NOW).unwrap();
                model.del(key_of(id), seq);
            }
            Step::Get { id } => {
                let got = e.get(&key_of(id), NOW).unwrap();
                let want = model.value_at(&key_of(id), e.current_seq());
                assert_eq!(check_get(id, &want, &got), None);
            }
            Step::Scan { lo, hi } => {
                let (lo, hi) = (key_of(lo), key_of(hi));
                let got = e.scan(&lo, &hi, NOW).unwrap().collect();
                let want = model.live_in(&lo, &hi, e.current_seq());
                assert_eq!(check_scan(&lo, &hi, &want, &got), None);
            }
            Step::Flush => {
                e.force_flush().unwrap();
            }
            Step::Compact => {
                e.drain_compaction().unwrap();
            }
            Step::Snapshot { ids } => {
                assert_eq!(ids.len(), 8);
                let at = e.current_seq();
                for id in ids {
                    let got = e.snapshot_get(at, &key_of(id), NOW).unwrap();
                    let want = model.value_at(&key_of(id), at);
                    assert_eq!(check_snapshot(id, at, &want, &got), None);
                }
            }
            Step::Crash => {
                assert_eq!(check_state(&model.live_at(e.current_seq()), &live(&e)), None);
            }
        }
    }
    assert_eq!(check_state(&model.live_at(e.current_seq()), &live(&e)), None);
    assert!(!live(&e).is_empty());
}

#[test]
fn a_model_answers_at_every_sequence_number() {
    let mut m = Model::new();
    m.put(key_of(1), 1, b"a".to_vec());
    m.put(key_of(2), 2, b"b".to_vec());
    m.del(key_of(1), 3);
    m.put(key_of(1), 4, b"c".to_vec());
    assert_eq!(m.value_at(&key_of(1), 0), None);
    assert_eq!(m.value_at(&key_of(1), 2), Some(b"a".to_vec()));
    assert_eq!(m.value_at(&key_of(1), 3), None);
    assert_eq!(m.value_at(&key_of(1), 9), Some(b"c".to_vec()));
    assert_eq!(m.live_at(3), vec![(key_of(2), b"b".to_vec())]);
    assert_eq!(m.live_in(&key_of(1), &key_of(2), 9), vec![(key_of(1), b"c".to_vec())]);
    assert!(key_of(9) < key_of(10));
    assert_eq!(key_of(0)[0], KS_USER);
}

#[test]
fn differences_are_told_in_words() {
    let some = Some(b"ab".to_vec());
    assert_eq!(
        check_get(3, &some, &None),
        Some("key id 3: expected Some(2 bytes, prefix [97, 98]), got None".to_string())
    );
    assert_eq!(check_get(3, &some, &some), None);
    let told = check_snapshot(3, 8, &None, &some).unwrap();
    assert!(told.starts_with("key id 3 at seq 8: expected None, got Some("), "{}", told);
    let one = vec![(vec![1], vec![2])];
    let told = check_scan(&[1], &[2], &one, &Vec::new()).unwrap();
    assert!(told.ends_with("expected 1 keys, got 0 keys"), "{}", told);
    assert!(diff_summary(&one, &Vec::new()).starts_with("key count: expected 1, got 0"));
    assert!(check_state(&one, &vec![(vec![1], vec![3])]).is_some());
    assert_eq!(
        check_recovered(9, 8, 7),
        Some("replay fabricated writes: recovered seq 9 > ack 8".to_string())
    );
    assert_eq!(
        check_recovered(6, 8, 7),
        Some("replay lost fsynced writes: recovered seq 6 < durable 7".to_string())
    );
    assert_eq!(check_recovered(7, 8, 7), None);
    assert_eq!(recovery_detail(5, "x"), "state != model at seq 5: x");
    assert_eq!(json_string("a\"\\\n\u{1}"), "\"a\\\"\\\\\\n\\u0001\"");
    assert_eq!(
        divergence_line(1, 2, "get", "d"),
        "{\"kind\":\"divergence\",\"seed\":1,\"step\":2,\"op\":\"get\",\"detail\":\"d\"}"
    );
}

#[test]
fn model_arguments_have_defaults() {
    let a = parse_model_args(&tokens("--data-dir d --wal-dir w --steps 5 --steps 6")).unwrap();
    assert_eq!((a.data_dir.as_str(), a.wal_dir.as_str(), a.steps), ("d", "w", 6));
    assert_eq!((a.seed, a.keyspace, a.val_min, a.val_max), (1, 50_000, 8, 64));
    assert_eq!(a.out, None);
    let fault = |line: &str| parse_model_args(&tokens(line)).unwrap_err();
    assert!(matches!(fault("--wal-dir w"), ArgFault::Missing(m) if m == "--data-dir"));
    assert!(matches!(fault("--data-dir d"), ArgFault::Missing(m) if m == "--wal-dir"));
    assert!(matches!(fault("--data-dir"), ArgFault::Missing(m) if m == "--data-dir"));
    assert!(matches!(fault("--what"), ArgFault::Unknown(m) if m == "--what"));
    assert!(matches!(fault("--steps x"), ArgFault::Bad(_)));
    assert!(matches!(fault("--help"), ArgFault::Unknown(_)));
}

#[test]
fn soak_arguments_are_held_together() {
    let a = parse_soak_args(&tokens("--data-dir d --put-pct 50 --scan-pct 25")).unwrap();
    assert_eq!((a.put_pct, a.get_pct, a.scan_pct, a.hot_pct), (50, 25, 25, 80));
    assert_eq!(a.wal_dir, None);
    let fault = |line: &str| parse_soak_args(&tokens(line)).unwrap_err();
    for (line, told) in [
        ("--data-dir d --put-pct 90", "put-pct + get-pct + scan-pct must be <= 100 (rest is delete)"),
        ("--data-dir d --val-min 9 --val-max 8", "--val-min must be <= --val-max"),
        ("--data-dir d --hot-pct 101", "--hot-pct must be 0-100"),
    ] {
        assert!(matches!(fault(line), ArgFault::Bad(m) if m == told), "{}", line);
    }
    assert!(matches!(fault("--put-pct 256"), ArgFault::Bad(_)));
}

#[test]
fn tenant_arguments_name_a_mode() {
    let a = parse_tenant_args(&tokens("--mode rampup --skip-fair-off --fail-delta-ms 2.5")).unwrap();
    assert_eq!((a.mode, a.skip_fair_off), (Mode::Rampup, true));
    assert_eq!(a.fail_delta_ms, Some("2.5".to_string()));
    assert_eq!(a.seconds, 30);
    assert_eq!(parse_tenant_args(&Vec::new()).unwrap().mode, Mode::Both);
    let e = parse_tenant_args(&tokens("--mode other")).unwrap_err();
    assert!(matches!(e, ArgFault::Bad(m) if m == "--mode"));
    assert!(matches!(parse_tenant_args(&tokens("--help")), Err(ArgFault::Help)));
}

#[test]
fn the_first_bad_value_stops_the_arguments() {
    let bad = |line: &str| match parse_tenant_args(&tokens(line)) {
        Err(ArgFault::Bad(name)) => name,
        other => panic!("{:?}", other),
    };
    assert_eq!(bad("--mode other --mode both"), "--mode");
    assert_eq!(bad("--fail-delta-ms x --fail-delta-ms 1 --seconds z"), "--fail-delta-ms");
    assert_eq!(bad("--seconds z --mode other"), "--seconds");
    assert_eq!(bad("--min-success-ratio . --unknown"), "--min-success-ratio");
    for good in ["1", "-1.5", "+.5", "2.", "1e9", "1.5E-3", "inf", "-Infinity", "NaN"] {
        let a = parse_tenant_args(&tokens(&format!("--ship-delta-ms {}", good))).unwrap();
        assert_eq!(a.ship_delta_ms, Some(good.to_string()));
        assert!(good.parse::<f64>().is_ok(), "{}", good);
    }
    for wrong in ["e5", "1e", "1e+", "1.5.", "0x1", "infin", "--1", "1_0"] {
        assert_eq!(bad(&format!("--ship-delta-ms {}", wrong)), "--ship-delta-ms");
        assert!(wrong.parse::<f64>().is_err(), "{}", wrong);
    }
    match parse_soak_args(&tokens("--hours much --hours 2 --data-dir d")) {
        Err(ArgFault::Bad(name)) => assert_eq!(name, "--hours"),
        other => panic!("{:?}", other),
    }
}

#[test]
fn a_workload_draws_by_its_mix() {
    let mix = |put: u8, get: u8, scan: u8| Mix {
        put_pct: put,
        get_pct: get,
        scan_pct: scan,
        scan_range_keys: 10,
        hot_key_count: 4,
        cold_key_count: 4,
        hot_pct: 50,
        val_min: 2,
        val_max: 5,
    };
    let mut w = Workload::new(mix(100, 0, 0), 3);
    for _ in 0..50 {
        match w.next() {
            Op::Put { key, val } => {
                assert_eq!(key[0], KS_USER);
                assert!(2 <= val.len() && val.len() <= 5);
            }
            other => panic!("{:?}", other),
        }
    }
    let mut w = Workload::new(mix(0, 0, 100), 3);
    match w.next() {
        Op::Scan { lo, hi } => assert!(lo < hi),
        other => panic!("{:?}", other),
    }
    let mut w = Workload::new(mix(0, 0, 0), 3);
    assert!(matches!(w.next(), Op::Del { .. }));
    let mut w = Workload::new(mix(0, 100, 0), 3);
    assert!(matches!(w.next(), Op::Get { .. }));
}

#[test]
fn samples_wrap_round_in_their_ring() {
    let mut s = LatencySampler::new(3);
    for us in [1, 2, 3, 4] {
        s.record(us);
    }
    assert_eq!((s.samples_us.clone(), s.count), (vec![4, 2, 3], 4));
    s.reset_window();
    assert!(s.samples_us.is_empty());
}

fn totals(n: u64) -> Totals {
    Totals {
        jobs_l0: n,
        jobs_l1: n,
        jobs_l2: n,
        flushes: n,
        cache_hits: n,
        cache_misses: n,
        compaction_reads: n,
        tombstones_dropped: n,
        versions_dropped: n,
        result_hits: n,
        result_misses: n,
    }
}

#[test]
fn a_window_reports_what_was_added() {
    let mut w = WindowCounters::new();
    w.record_poll(4_000);
    w.record_poll(2_000);
    w.record_op();
    w.record_op();
    w.record_error();
    let r = w.roll(totals(5));
    assert_eq!((r.grown.flushes, r.poll_mean_us, r.poll_max_us, r.errors), (5, 3, 4, 1));
    let r = w.roll(totals(7));
    assert_eq!((r.grown.jobs_l2, r.poll_mean_us, r.errors), (2, 0, 0));
    let r = w.roll(totals(1));
    assert_eq!(r.grown.cache_hits, 0);
    w.record_error();
    assert_eq!((w.drain_errors(), w.drain_errors()), (1, 0));
    assert_eq!((mean_us(0, 9), mean_us(2, 9_000)), (0, 4));
    assert!(measures_space(0));
}

#[test]
fn a_rate_limiter_spaces_operations() {
    let mut r = RateLimiter::new(1000, 50);
    assert_eq!(r.interval_ns, 1_000_000);
    assert_eq!(r.wait_ns(50), 0);
    r.advance(50);
    assert_eq!(r.wait_ns(60), 999_990);
    // A late caller does not catch up in a burst.
    r.advance(9_000_000);
    assert_eq!(r.wait_ns(9_000_000), 0);
    assert_eq!(r.next_at, 9_000_000);
    assert_eq!(RateLimiter::new(0, 7).wait_ns(0), 0);
}

#[test]
fn the_resident_size_is_read_from_the_status() {
    assert_eq!(rss_from_status("Name:\tx\nVmRSS:\t  12 kB\n"), Some(12 * 1024));
    assert_eq!(rss_from_status("VmSize: 1 kB"), None);
    assert_eq!(rss_from_status("VmRSS:"), None);
}

#[test]
fn a_sample_is_one_line() {
    let mut s = Sample::empty();
    s.elapsed_secs = 3;
    s.ops_per_sec_observed = "1.50".to_string();
    let mut w = WindowCounters::new();
    w.record_error();
    s.set_window(w.roll(totals(2)), (4, 8_000, 5_000));
    let line = s.to_jsonl();
    assert!(line.starts_with("{\"kind\":\"sample\",\"elapsed_secs\":3,"), "{}", line);
    assert!(line.contains("\"ops_per_sec_observed\":1.50,"), "{}", line);
    assert!(line.contains("\"flushes_window\":2,"), "{}", line);
    assert!(line.contains("\"apply_count_window\":4,"), "{}", line);
    assert!(line.ends_with("\"errors_window\":1}"), "{}", line);
    assert!(!line.contains('\n'));
}

#[test]
fn tenants_are_told_apart() {
    let k = tenant_key(9, 258);
    assert_eq!(k[0], KS_USER);
    assert_eq!(&k[1..17], &[9; 16]);
    assert_eq!(&k[17..], &258u64.to_be_bytes());
    assert_eq!(busy_class("L0 compaction backlog (3 files)"), "l0_stall");
    assert_eq!(busy_class("compaction backlog (queue depth 4)"), "compaction_backlog");
    assert_eq!(busy_class("Flush Queue full"), "flush_queue");
    assert_eq!(busy_class("what"), "other");
    assert_eq!((reclaim_puts(0), reclaim_puts(8)), (64, 1024));
    assert_eq!(next_noise(1), 1_082_269_761);
}

#[test]
fn the_exit_code_is_the_worst_of_the_phases() {
    let v = |meets_bound, meets_success, fails_bound| {
        Some(Verdict { meets_bound, meets_success, fails_bound })
    };
    assert_eq!(exit_code(None, None), 0);
    assert_eq!(exit_code(v(true, true, false), v(true, true, false)), 0);
    assert_eq!(exit_code(v(false, true, false), None), 1);
    assert_eq!(exit_code(v(true, false, false), None), 2);
    assert_eq!(exit_code(None, v(true, true, true)), 3);
    assert_eq!(exit_code(v(false, false, true), v(true, true, false)), 2);
}

#[test]
fn only_sealed_segments_must_be_sound() {
    let seg = |id, outcome| WalSegment { id, entries: Vec::new(), outcome };
    let bad = || ReplayOutcome::Corruption;
    assert_eq!(sealed_corruption(&vec![seg(1, ReplayOutcome::Clean), seg(2, bad())]), None);
    assert_eq!(sealed_corruption(&vec![seg(1, bad()), seg(2, ReplayOutcome::Clean)]), Some(1));
}

#[test]
fn a_driven_engine_stays_in_step() {
    let e = Engine::open(EngineConfig::default(), 0, Vec::new(), &Vec::new(), false).unwrap();
    let mut h = Harness::new(e);
    let mut rng = Lcg::new(11);
    let mut wrote = 0;
    for step in 0..1500u64 {
        let bounds = StepBounds { keyspace: 12, val_min: 1, val_max: 20 };
        let chosen = choose_step(&mut rng, step, bounds);
        if matches!(chosen, Step::Crash) {
            let (ack, synced) = (h.engine.current_seq(), h.engine.synced_seq);
            assert!(matches!(judge_recovery(&h.model, &h.engine, ack, synced, NOW), StepEnd::Agreed));
            continue;
        }
        if matches!(chosen, Step::Put { .. } | Step::Delete { .. }) {
            wrote += 1;
        }
        assert!(matches!(h.step(chosen, GATE, NOW), StepEnd::Agreed), "step {}", step);
    }
    assert_eq!(h.model.writes.len(), wrote);
    assert!(matches!(h.checkpoint(NOW), StepEnd::Agreed));
    assert!(h.engine.pins.no_snapshots());
}

#[test]
fn a_recovery_is_judged() {
    let fresh =
        || Engine::open(EngineConfig::default(), 0, Vec::new(), &Vec::new(), false).unwrap();
    let mut h = Harness::new(fresh());
    let put = |id, v: &[u8]| Step::Put { id, value: v.to_vec() };
    h.step(put(1, b"a"), GATE, NOW);
    h.step(put(2, b"b"), GATE, NOW);
    // What was lost after the durable write is no fault.
    let mut part = fresh();
    part.put(key_of(1), b"a".to_vec(), 0, GATE).unwrap();
    assert!(matches!(judge_recovery(&h.model, &part, 2, 1, NOW), StepEnd::Agreed));
    match judge_recovery(&h.model, &part, 2, 2, NOW) {
        StepEnd::Diverged { op, detail } => {
            assert_eq!(op, "crash");
            assert_eq!(detail, "replay lost fsynced writes: recovered seq 1 < durable 2");
        }
        other => panic!("{:?}", other),
    }
    match judge_recovery(&h.model, &part, 0, 0, NOW) {
        StepEnd::Diverged { detail, .. } => {
            assert_eq!(detail, "replay fabricated writes: recovered seq 1 > ack 0");
        }
        other => panic!("{:?}", other),
    }
    let mut wrong = fresh();
    wrong.put(key_of(1), b"x".to_vec(), 0, GATE).unwrap();
    match judge_recovery(&h.model, &wrong, 2, 1, NOW) {
        StepEnd::Diverged { detail, .. } => {
            assert!(detail.starts_with("state != model at seq 1: "), "{}", detail);
        }
        other => panic!("{:?}", other),
    }
}

#[test]
fn a_frozen_engine_blocks_a_step() {
    let e = Engine::open(EngineConfig::default(), 0, Vec::new(), &Vec::new(), false).unwrap();
    let mut h = Harness::new(e);
    h.engine.freeze_writes();
    let step = Step::Put { id: 1, value: b"a".to_vec() };
    assert!(matches!(h.step(step, GATE, NOW), StepEnd::Blocked));
    assert!(h.model.writes.is_empty());
    h.engine.unfreeze_writes();
    let step = Step::Put { id: 1, value: b"a".to_vec() };
    assert!(matches!(h.step(step, GATE, NOW), StepEnd::Agreed));
    assert_eq!(h.model.writes.len(), 1);
}

fn reading(sample_index: u64, n: u64) -> Reading {
    Reading {
        sample_index,
        now_ms: NOW,
        elapsed_secs: 1,
        wall_unix_secs: 2,
        ops_done: 3,
        rss_bytes: 4,
        open_fds: 5,
        p50_us: 6,
        p99_us: 7,
        p999_us: 8,
        max_us: 9,
        wal_segments: 10,
        cache: BlockCache::new(100).stats(),
        totals: totals(n),
        compaction_jobs_total: 11,
        compaction_repack_total: 12,
        compaction_rejected_no_progress: 13,
    }
}

#[test]
fn a_sample_shows_engine_and_window() {
    let mut e = Engine::open(EngineConfig::default(), 0, Vec::new(), &Vec::new(), false).unwrap();
    e.put(key_of(1), b"abc".to_vec(), 0, GATE).unwrap();
    e.force_flush().unwrap();
    e.record_apply_duration(6_000);
    let size = e.estimate_disk_bytes();
    let mut w = WindowCounters::new();
    let mut space = (0, 0);
    let s = collect_sample(&mut e, &mut w, &mut space, reading(1, 4));
    assert_eq!((s.ops_done, s.p999_us, s.wal_segment_count), (3, 8, 10));
    assert_eq!((s.live_sstable_count, s.sstables_l0, s.sstables_l1), (1, 1, 0));
    assert_eq!((s.apply_count_window, s.apply_mean_us, s.apply_max_us), (1, 6, 6));
    assert_eq!((s.flushes_window, s.last_durable_seq), (4, 1));
    assert_eq!((s.disk_bytes_total, s.logical_live_bytes), (size, 9 + 3));
    e.put(key_of(2), b"abc".to_vec(), 0, GATE).unwrap();
    let s = collect_sample(&mut e, &mut w, &mut space, reading(2, 7));
    assert_eq!((s.flushes_window, s.apply_count_window), (3, 0));
    // The space was not measured again.
    assert_eq!(s.logical_live_bytes, 12);
    let s = collect_sample(&mut e, &mut w, &mut space, reading(10, 7));
    assert_eq!(s.logical_live_bytes, 24);
}

/// An engine with one key, and a model that thinks otherwise of it.
fn out_of_step() -> Harness {
    let e = Engine::open(EngineConfig::default(), 0, Vec::new(), &Vec::new(), false).unwrap();
    let mut h = Harness::new(e);
    let step = Step::Put { id: 3, value: b"ab".to_vec() };
    assert!(matches!(h.step(step, GATE, NOW), StepEnd::Agreed));
    h.model.del(key_of(3), 1);
    h
}

fn divergence(end: StepEnd) -> (&'static str, String) {
    match end {
        StepEnd::Diverged { op, detail } => (op, detail),
        other => panic!("{:?}", other),
    }
}

#[test]
fn a_wrong_read_is_told() {
    let (op, detail) = divergence(out_of_step().step(Step::Get { id: 3 }, GATE, NOW));
    assert_eq!(op, "get");
    assert_eq!(detail, "key id 3: expected None, got Some(2 bytes, prefix [97, 98])");
    assert!(matches!(out_of_step().step(Step::Get { id: 4 }, GATE, NOW), StepEnd::Agreed));
}

#[test]
fn a_wrong_scan_is_told() {
    let (op, detail) = divergence(out_of_step().step(Step::Scan { lo: 1, hi: 9 }, GATE, NOW));
    assert_eq!(op, "scan");
    assert!(detail.ends_with("expected 0 keys, got 1 keys"), "{}", detail);
    let end = out_of_step().step(Step::Scan { lo: 4, hi: 9 }, GATE, NOW);
    assert!(matches!(end, StepEnd::Agreed));
}

#[test]
fn the_first_wrong_read_from_a_snapshot_is_told() {
    let mut h = out_of_step();
    h.step(Step::Put { id: 5, value: b"c".to_vec() }, GATE, NOW);
    h.model.del(key_of(5), 2);
    let (op, detail) =
        divergence(h.step(Step::Snapshot { ids: vec![4, 3, 5] }, GATE, NOW));
    assert_eq!(op, "snapshot");
    assert!(detail.starts_with("key id 3 at seq 2: expected None, got Some("), "{}", detail);
    assert!(h.engine.pins.no_snapshots());
    let end = h.step(Step::Snapshot { ids: vec![4, 6] }, GATE, NOW);
    assert!(matches!(end, StepEnd::Agreed));
}

#[test]
fn a_wrong_state_is_told() {
    let (op, detail) = divergence(out_of_step().checkpoint(NOW));
    assert_eq!(op, "checkpoint");
    assert_eq!(detail, "key count: expected 0, got 1");
}
