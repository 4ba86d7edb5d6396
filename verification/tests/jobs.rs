use zydecodb_engine::block_cache::BlockCache;
use zydecodb_engine::compaction::CompactionConfig;
use zydecodb_engine::compaction_worker::CompactionScheduler;
use zydecodb_engine::engine::gauges::counter_step;
use zydecodb_engine::engine::jobs::{DrainStep, FlushStep, INJECTED};
use zydecodb_engine::engine::write::WriteGate;
use zydecodb_engine::engine::{Engine, EngineConfig};
use zydecodb_engine::errors::EngineError;
use zydecodb_engine::flush_worker::{execute_flush, FlushScheduler};
use zydecodb_engine::keys::KS_USER;
use zydecodb_engine::shipping::ShipMode;
use zydecodb_engine::manifest::{apply, ManifestRecord, ManifestState};

const NOW: u64 = 1_700_000_000_000;
const GATE: WriteGate = WriteGate { fair_on: false, noisy: false, admits: true };

fn uk(k: &str) -> Vec<u8> {
    let mut v = vec![KS_USER];
    v.extend_from_slice(k.as_bytes());
    v
}

/// Compacts as soon as two tables lie on level zero.
fn eager() -> Engine {
    let compaction = CompactionConfig { l0_trigger: 2, ..CompactionConfig::default() };
    let cfg = EngineConfig { compaction, ..EngineConfig::default() };
    Engine::open(cfg, 0, Vec::new(), &Vec::new(), false).unwrap()
}

fn put(e: &mut Engine, k: &str, v: &str) {
    e.put(uk(k), v.as_bytes().to_vec(), 0, GATE).unwrap();
}

fn all(e: &Engine) -> Vec<(Vec<u8>, Vec<u8>)> {
    e.prefix_scan(&[KS_USER], NOW).unwrap().collect()
}

/// Writes the memtables out and leaves the tables as they are.
fn write_out(e: &mut Engine) {
    e.freeze_active();
    while e.flush_one() {}
}

fn two_tables() -> Engine {
    let mut e = eager();
    put(&mut e, "a", "1");
    put(&mut e, "b", "1");
    write_out(&mut e);
    put(&mut e, "a", "2");
    put(&mut e, "c", "2");
    write_out(&mut e);
    e
}

fn frozen() -> Engine {
    let cfg = EngineConfig { memtable_flush_threshold: 1, ..EngineConfig::default() };
    let mut e = Engine::open(cfg, 0, Vec::new(), &Vec::new(), false).unwrap();
    put(&mut e, "a", "1");
    assert_eq!(e.immutable_len(), 1);
    e
}

#[test]
fn a_compaction_keeps_what_readers_see() {
    let mut e = two_tables();
    let before = all(&e);
    assert_eq!(e.live_sstable_levels(), vec![(0, 2)]);
    assert!(e.can_compact());
    assert!(e.compact_once().unwrap());
    assert_eq!(e.live_sstable_levels(), vec![(1, 1)]);
    assert_eq!(all(&e), before);
    assert_eq!(e.metas()[0].min_key, uk("a"));
    assert_eq!(e.metas()[0].max_key, uk("c"));
    // Nothing is left to do.
    assert!(!e.compact_once().unwrap());
    assert!(!e.compact_range().unwrap());
}

#[test]
fn a_compaction_drops_a_tombstone_with_all_below_it() {
    let mut e = eager();
    put(&mut e, "a", "1");
    put(&mut e, "b", "1");
    write_out(&mut e);
    e.del(uk("a"), GATE, NOW).unwrap();
    write_out(&mut e);
    assert!(e.drain_compaction().unwrap());
    assert_eq!(all(&e), vec![(uk("b"), b"1".to_vec())]);
    // A later compaction does not bring the deleted value back.
    put(&mut e, "c", "1");
    write_out(&mut e);
    put(&mut e, "d", "1");
    write_out(&mut e);
    assert!(e.drain_compaction().unwrap());
    assert_eq!(e.get(&uk("a"), NOW).unwrap(), None);
    assert_eq!(all(&e).len(), 3);
}

#[test]
fn a_live_snapshot_keeps_its_versions_through_a_compaction() {
    let mut e = eager();
    put(&mut e, "a", "1");
    write_out(&mut e);
    let h = e.snapshot_owned();
    assert_eq!(e.compaction_gc_watermark(), 1);
    assert!(!e.compaction_allow_tombstone_drop());
    put(&mut e, "a", "2");
    write_out(&mut e);
    assert!(e.compact_once().unwrap());
    assert_eq!(e.snapshot_get(1, &uk("a"), NOW).unwrap(), Some(b"1".to_vec()));
    assert_eq!(h.get(&uk("a"), NOW), Some(b"1".to_vec()));
    // The pinned table's file goes only with the last snapshot.
    assert_eq!(e.pins.deferred_unlinks, vec![1]);
    assert_eq!(h.release(&mut e.pins), vec![1]);
    assert!(e.pins.deferred_unlinks.is_empty());
    assert!(e.compaction_allow_tombstone_drop());
    assert!(e.try_unlink_sstable(1));
}

#[test]
fn a_submitted_flush_stays_readable_until_it_is_published() {
    let mut e = frozen();
    let pairs = e.try_submit_flush().unwrap();
    assert!(e.flush_scheduler.is_worker_busy());
    assert!(e.try_submit_flush().is_none());
    assert_eq!(e.get(&uk("a"), NOW).unwrap(), Some(b"1".to_vec()));
    let id = e.next_sstable_id;
    let done = execute_flush(pairs, id);
    assert_eq!(done.max_seq, 1);
    let ready = e.take_flush_result(Ok(done)).unwrap().unwrap();
    assert!(!e.flush_scheduler.is_worker_busy());
    assert_eq!(e.apply_scheduler.pending_applies(), 1);
    assert_eq!(ready.flush_max_seq, Some(1));
    assert!(matches!(ready.manifest_records[0], ManifestRecord::SstableAdd(_)));
    assert_eq!(e.get(&uk("a"), NOW).unwrap(), Some(b"1".to_vec()));
    let records: Vec<ManifestRecord> = ready
        .manifest_records
        .iter()
        .map(|r| ManifestRecord::decode_one(&r.encode()).unwrap().unwrap().0)
        .collect();
    assert!(e.publish_catalog_apply(ready).is_empty());
    assert_eq!(e.immutable_len(), 0);
    assert_eq!(e.sstable_count(), 1);
    assert_eq!(e.next_sstable_id, id + 1);
    assert_eq!(e.get(&uk("a"), NOW).unwrap(), Some(b"1".to_vec()));
    assert!(e.compaction_scheduler.compaction_needed());
    // The records describe the catalog that the engine now has.
    let mut state = ManifestState::default();
    for r in records {
        apply(&mut state, r);
    }
    assert_eq!(state.live_sstables, e.metas());
    assert_eq!(state.last_durable_seq, 1);
}

#[test]
fn a_submitted_compaction_is_published_like_a_direct_one() {
    let mut e = two_tables();
    let before = all(&e);
    let work = e.maybe_submit_compaction().unwrap();
    assert_eq!(work.job.inputs.len(), 2);
    assert_eq!(work.job.output_level, 1);
    assert!(e.compaction_scheduler.is_worker_busy());
    assert!(!e.compact_once().unwrap());
    let done = e.run_compaction(work, e.next_sstable_id);
    assert_eq!(done.versions_dropped, 1);
    assert_eq!(done.tombstones_dropped, 0);
    let ready = e.take_compaction_result(Ok(done)).unwrap().unwrap();
    assert_eq!(ready.add_tables.len(), 1);
    let mut removed = ready.remove_sstable_ids.clone();
    removed.sort();
    assert_eq!(removed, vec![1, 2]);
    let mut gone = e.publish_catalog_apply(ready);
    gone.sort();
    assert_eq!(gone, vec![1, 2]);
    assert_eq!(all(&e), before);
    assert!(e.maybe_sync_data_dir());
    assert!(!e.maybe_sync_data_dir());
}

#[test]
fn a_failed_worker_is_reported_once_it_is_asked() {
    let mut e = two_tables();
    e.maybe_submit_compaction().unwrap();
    assert!(e.take_compaction_result(Err(format!("{}: x", INJECTED))).unwrap().is_none());
    match e.drain_compaction_step() {
        DrainStep::Failed(EngineError::Io(m)) => assert_eq!(m, "injected failpoint: x"),
        other => panic!("{:?}", other),
    }
    let mut e = two_tables();
    e.maybe_submit_compaction().unwrap();
    e.take_compaction_result(Err("disk full".to_string())).unwrap();
    assert!(matches!(e.drain_compaction_step(), DrainStep::Done));

    let mut e = frozen();
    e.try_submit_flush().unwrap();
    assert!(e.take_flush_result(Err(INJECTED.to_string())).unwrap().is_none());
    assert!(matches!(e.drain_flush_step(), FlushStep::Failed(EngineError::Io(_))));
    // The memtable is still there, and can be flushed again.
    assert_eq!(e.get(&uk("a"), NOW).unwrap(), Some(b"1".to_vec()));
    assert!(e.try_submit_flush().is_some());
}

#[test]
fn draining_goes_step_by_step() {
    let mut e = two_tables();
    let work = match e.drain_compaction_step() {
        DrainStep::Submit(w) => w,
        other => panic!("{:?}", other),
    };
    assert!(matches!(e.drain_compaction_step(), DrainStep::Wait));
    let done = e.run_compaction(work, e.next_sstable_id);
    let ready = e.take_compaction_result(Ok(done)).unwrap().unwrap();
    e.publish_catalog_apply(ready);
    assert!(matches!(e.drain_compaction_step(), DrainStep::Done));

    let mut e = frozen();
    let pairs = match e.drain_flush_step() {
        FlushStep::Submit(p) => p,
        other => panic!("{:?}", other),
    };
    assert!(matches!(e.drain_flush_step(), FlushStep::Wait));
    let id = e.next_sstable_id;
    let ready = e.take_flush_result(Ok(execute_flush(pairs, id))).unwrap().unwrap();
    e.publish_catalog_apply(ready);
    assert!(matches!(e.drain_flush_step(), FlushStep::Done));
}

#[test]
fn pending_applies_end_in_one_of_three_ways() {
    let mut e = frozen();
    assert!(e.finish_pending_applies(false).unwrap());
    let pairs = e.try_submit_flush().unwrap();
    let id = e.next_sstable_id;
    let ready = e.take_flush_result(Ok(execute_flush(pairs, id))).unwrap().unwrap();
    assert!(!e.finish_pending_applies(false).unwrap());
    match e.finish_pending_applies(true) {
        Err(EngineError::Io(m)) => assert_eq!(m, "apply worker drain timeout"),
        other => panic!("{:?}", other),
    }
    e.apply_scheduler.fail();
    match e.finish_pending_applies(false) {
        Err(EngineError::Io(m)) => assert_eq!(m, "background apply failed"),
        other => panic!("{:?}", other),
    }
    assert!(e.finish_pending_applies(false).unwrap());
    e.publish_catalog_apply(ready);
}

#[test]
fn a_shut_down_apply_worker_takes_nothing() {
    let mut e = two_tables();
    e.apply_scheduler.shutdown();
    match e.compact_once() {
        Err(EngineError::Io(m)) => assert_eq!(m, "apply worker shut down"),
        other => panic!("{:?}", other),
    }
    assert_eq!(e.sstable_count(), 2);
}

#[test]
fn work_waits_while_the_worker_is_busy() {
    let mut e = two_tables();
    e.request_compaction();
    let work = e.maybe_submit_compaction().unwrap();
    assert!(e.maybe_submit_compaction().is_none());
    assert_eq!(e.compaction_scheduler.queue_depth(), 2);
    let mut s = CompactionScheduler::new();
    assert_eq!(s.queue_depth(), 0);
    s.stage_if_busy(work);
    assert_eq!(s.queue_depth(), 1);
    assert!(s.try_submit_staged().is_some());
    assert!(s.is_worker_busy());
    s.worker_finished();
    s.clear_staged();
    assert_eq!(s.queue_depth(), 0);
    s.request_compaction();
    assert!(s.compaction_needed());
    s.clear_compaction_needed();
    assert!(!s.compaction_needed());
    s.note_worker_failed("x".to_string());
    assert_eq!(s.take_worker_failure(), Some("x".to_string()));
    assert_eq!(s.take_worker_failure(), None);
}

#[test]
fn the_flush_scheduler_takes_one_memtable_at_a_time() {
    let mut s = FlushScheduler::new();
    assert!(!s.try_submit(0));
    assert!(s.try_submit(1));
    assert!(!s.try_submit(1));
    assert_eq!(s.queue_depth(), 1);
    s.worker_finished();
    assert!(!s.is_worker_busy());
    s.note_worker_failed("x".to_string());
    assert_eq!(s.take_worker_failure(), Some("x".to_string()));
}

fn with_backlog(soft: u64, hard: u64, stall: Option<usize>) -> Engine {
    let compaction = CompactionConfig {
        l0_trigger: 1,
        soft_pending_compaction_bytes: soft,
        hard_pending_compaction_bytes: hard,
        ..CompactionConfig::default()
    };
    let cfg =
        EngineConfig { compaction, l0_write_stall_threshold: stall, ..EngineConfig::default() };
    let mut e = Engine::open(cfg, 0, Vec::new(), &Vec::new(), false).unwrap();
    put(&mut e, "a", "1");
    write_out(&mut e);
    e
}

#[test]
fn writes_slow_down_with_the_backlog() {
    let owed = with_backlog(0, 0, None).estimate_pending_compaction_bytes();
    assert!(owed > 2);
    let mut e = with_backlog(0, 0, None);
    put(&mut e, "b", "1");
    assert_eq!(e.take_write_slowdown(), 0);
    // At the hard limit a write waits a millisecond, far above it five.
    let mut e = with_backlog(0, owed, None);
    put(&mut e, "b", "1");
    assert_eq!(e.take_write_slowdown(), 1000);
    assert_eq!(e.take_write_slowdown(), 0);
    let mut e = with_backlog(0, 1, None);
    put(&mut e, "b", "1");
    assert_eq!(e.take_write_slowdown(), 5000);
    // Above the soft limit the wait grows from a tenth of a millisecond.
    let mut e = with_backlog(owed / 2, 0, None);
    put(&mut e, "b", "1");
    let waits = e.take_write_slowdown();
    assert!(900 <= waits && waits <= 1000, "{}", waits);
}

#[test]
fn writes_stop_at_too_many_tables_on_level_zero() {
    let mut e = with_backlog(0, 0, Some(1));
    match e.put(uk("b"), b"1".to_vec(), 0, GATE) {
        Err(EngineError::EngineBusy(m)) => assert_eq!(m, "L0 compaction backlog (1 files)"),
        other => panic!("{:?}", other),
    }
    // A tenant within its share is spared; a noisy one is charged.
    let spared = WriteGate { fair_on: true, noisy: false, admits: true };
    let mut tenant_key = vec![KS_USER];
    tenant_key.extend_from_slice(&[7; 17]);
    e.put(tenant_key.clone(), b"1".to_vec(), 0, spared).unwrap();
    let noisy = WriteGate { fair_on: true, noisy: true, admits: true };
    assert!(e.put(tenant_key, b"1".to_vec(), 0, noisy).is_err());
    assert!(e.take_stall_charge());
    assert!(!e.take_stall_charge());
    assert!(e.drain_compaction().unwrap());
    put(&mut e, "b", "1");
}

#[test]
fn covered_log_segments_can_go() {
    let mut e = eager();
    put(&mut e, "a", "1");
    assert_eq!(e.force_roll_wal_for_test(), Some(1));
    put(&mut e, "b", "1");
    assert_eq!(e.sealed_segment_max_seq_snapshot(), vec![(1, 1)]);
    assert_eq!(e.wal_segments_covered(0), 0);
    assert_eq!(e.wal_segments_covered(1), 1);
    let gone = e.unlink_wal_segments_up_to(&vec![1, 2, 3], 1);
    assert_eq!(gone, vec![1]);
    assert!(e.sealed_segment_max_seq_snapshot().is_empty());
}

#[test]
fn a_pass_ends_with_the_next_work() {
    let mut e = two_tables();
    let (work, pairs) = e.next_background_work(true);
    assert!(work.is_none() && pairs.is_none());
    let (work, pairs) = e.next_background_work(false);
    assert_eq!(work.unwrap().job.inputs.len(), 2);
    assert!(pairs.is_none());
    assert!(e.next_background_work(false).0.is_none());
    let mut e = frozen();
    let (work, pairs) = e.next_background_work(false);
    assert!(work.is_none());
    assert_eq!(pairs.unwrap().len(), 1);
    assert!(e.next_background_work(false).1.is_none());
}

#[test]
fn gauges_show_the_moment() {
    let mut e = two_tables();
    put(&mut e, "z", "1");
    let cache = BlockCache::new(10).stats();
    let g = e.update_gauges(&cache, 3);
    assert_eq!((g.live_sstable_count, g.immutable_memtable_count), (2, 0));
    assert_eq!(g.live_sstables_by_level, vec![2, 0, 0]);
    assert_eq!((g.last_durable_seq, g.wal_segment_count), (5, 3));
    assert_eq!(g.memtable_size_bytes, e.layers.active.size_bytes() as u64);
    assert_eq!(g.wal_unshipped_bytes, 0);
    assert_eq!(g.result_cache, None);
    assert_eq!(g.disk_bytes_total, e.estimate_disk_bytes());
    let e = e.with_shipping(Some("s".to_string()), ShipMode::Hardlink);
    let g = e.update_gauges(&cache, 3);
    assert_eq!(g.wal_unshipped_bytes, e.active_wal_size as u64);
    assert_eq!((counter_step(5, 3), counter_step(3, 5)), (2, 0));
}

#[test]
fn a_finished_job_is_tested_against_the_engine() {
    let mut e = frozen();
    let pairs = e.try_submit_flush().unwrap();
    let done = execute_flush(pairs, e.next_sstable_id);
    let ready = e.take_flush_result(Ok(done)).unwrap().unwrap();
    assert_eq!(ready.unlink_wal_up_to, None);
    assert!(e.can_publish(&ready));
    // A flush of another memtable does not fit, nor one whose number is taken.
    assert!(!two_tables().can_publish(&ready));
    let mut other = ready;
    other.flush_max_seq = Some(2);
    assert!(!e.can_publish(&other));
    other.flush_max_seq = Some(1);
    other.add_tables[0].meta.level = 1;
    assert!(!e.can_publish(&other));

    let mut e = two_tables();
    let work = e.maybe_submit_compaction().unwrap();
    let first = e.next_sstable_id + 10;
    let done = e.run_compaction(work, first);
    let bytes = (done.bytes_read, done.bytes_written);
    let ready = e.take_compaction_result(Ok(done)).unwrap().unwrap();
    let c = ready.compaction.as_ref().unwrap();
    assert_eq!((c.bytes_read, c.bytes_written), bytes);
    assert_eq!(ready.manifest_records.len(), 3);
    assert!(e.can_publish(&ready));
    // A later flush is no obstacle; without its inputs the compaction does not fit.
    put(&mut e, "b", "3");
    write_out(&mut e);
    assert!(e.can_publish(&ready));
    assert!(!eager().can_publish(&ready));
    e.publish_catalog_apply(ready);
    assert_eq!(e.next_sstable_id, first + 1);
}

#[test]
fn compactions_run_until_the_engine_is_at_rest() {
    let mut e = two_tables();
    put(&mut e, "d", "1");
    write_out(&mut e);
    assert!(e.drain_compaction().unwrap());
    assert!(!e.compact_once().unwrap());
    let mut e = two_tables();
    let next = e.next_sstable_id;
    assert!(e.drain_compaction().unwrap());
    assert_eq!(e.next_sstable_id, next + 1);
    // A worker that is at one is left alone.
    let mut e = two_tables();
    e.maybe_submit_compaction().unwrap();
    assert!(e.drain_compaction().unwrap());
    assert_eq!(e.sstable_count(), 2);
}

#[test]
fn a_write_past_the_threshold_freezes_the_memtable() {
    let cfg = EngineConfig { memtable_flush_threshold: 150, ..EngineConfig::default() };
    let mut e = Engine::open(cfg, 0, Vec::new(), &Vec::new(), false).unwrap();
    // Each pair counts its key, its value and sixty-five bytes.
    put(&mut e, "a", "1");
    put(&mut e, "b", "1");
    assert_eq!(e.immutable_len(), 0);
    put(&mut e, "c", "1");
    assert_eq!(e.immutable_len(), 1);
    assert_eq!(all(&e).len(), 3);
}

#[test]
fn a_key_for_shipping_is_kept() {
    let e = eager();
    assert_eq!(e.ship_hmac_key, None);
    let e = e.with_shipping_hmac_key(Some(vec![7; 32]));
    assert_eq!(e.ship_hmac_key, Some(vec![7; 32]));
}
