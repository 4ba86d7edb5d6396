use zydecodb_engine::compaction::CompactionConfig;
use zydecodb_engine::engine::write::WriteGate;
use zydecodb_engine::engine::{BatchOp, Engine, EngineConfig};
use zydecodb_engine::errors::EngineError;
use zydecodb_engine::keys::{KS_SYSTEM, KS_USER, MAX_BATCH_KEYS, MAX_KEY_BYTES, MAX_VALUE_BYTES};
use zydecodb_engine::wal::{read_segment, segment_header, WalCommand, WalOp, WalSegment};

const NOW: u64 = 1_700_000_000_000;
const GATE: WriteGate = WriteGate { fair_on: false, noisy: false, admits: true };

fn uk(k: &str) -> Vec<u8> {
    let mut v = vec![KS_USER];
    v.extend_from_slice(k.as_bytes());
    v
}

fn fresh() -> Engine {
    Engine::open(EngineConfig::default(), 0, Vec::new(), &Vec::new(), false).unwrap()
}

fn put(e: &mut Engine, k: &str, v: &str) -> u64 {
    e.put(uk(k), v.as_bytes().to_vec(), 0, GATE).unwrap()
}

fn get(e: &mut Engine, k: &str) -> Option<String> {
    e.get(&uk(k), NOW).unwrap().map(|v| String::from_utf8(v).unwrap())
}

fn all(e: &Engine) -> Vec<(Vec<u8>, Vec<u8>)> {
    e.prefix_scan(&[KS_USER], NOW).unwrap().collect()
}

fn text(s: &str) -> Option<String> {
    Some(s.to_string())
}

#[test]
fn a_put_is_read_back_and_spares_the_rest() {
    let mut e = fresh();
    put(&mut e, "a", "1");
    put(&mut e, "b", "2");
    let n = put(&mut e, "a", "3");
    assert_eq!(n, 3);
    assert_eq!(e.seq_peek(), 4);
    assert_eq!(e.current_seq(), 3);
    assert_eq!(get(&mut e, "a"), text("3"));
    assert_eq!(get(&mut e, "b"), text("2"));
    assert_eq!(get(&mut e, "c"), None);
}

#[test]
fn a_deleted_key_is_gone_wherever_it_was() {
    let mut e = fresh();
    put(&mut e, "a", "1");
    e.force_flush().unwrap();
    put(&mut e, "b", "2");
    assert_eq!(e.del(uk("a"), GATE, NOW).unwrap(), (true, 3));
    assert_eq!(e.del(uk("b"), GATE, NOW).unwrap(), (true, 4));
    assert_eq!(e.del(uk("c"), GATE, NOW).unwrap(), (false, 5));
    assert_eq!(get(&mut e, "a"), None);
    assert_eq!(get(&mut e, "b"), None);
    assert!(all(&e).is_empty());
}

#[test]
fn a_batch_takes_one_sequence_number() {
    let mut e = fresh();
    put(&mut e, "a", "1");
    let seq = e
        .write_batch(
            vec![
                BatchOp::Put { key: uk("b"), value: b"2".to_vec(), expires_at: 0 },
                BatchOp::Del { key: uk("a") },
                BatchOp::Put { key: uk("c"), value: b"3".to_vec(), expires_at: 0 },
            ],
            GATE,
        )
        .unwrap();
    assert_eq!(seq, 2);
    // Below the batch nothing of it shows; at the batch all of it does.
    assert_eq!(e.snapshot_get(1, &uk("a"), NOW).unwrap(), Some(b"1".to_vec()));
    assert_eq!(e.snapshot_get(1, &uk("b"), NOW).unwrap(), None);
    assert_eq!(e.snapshot_get(1, &uk("c"), NOW).unwrap(), None);
    assert_eq!(e.snapshot_get(2, &uk("a"), NOW).unwrap(), None);
    assert_eq!(e.snapshot_get(2, &uk("b"), NOW).unwrap(), Some(b"2".to_vec()));
    assert_eq!(e.snapshot_get(2, &uk("c"), NOW).unwrap(), Some(b"3".to_vec()));
}

#[test]
fn refused_writes_change_nothing() {
    let mut e = fresh();
    put(&mut e, "a", "1");
    let before = e.seq_peek();
    let too_long = vec![KS_USER; MAX_KEY_BYTES + 1];
    assert!(matches!(e.put(too_long, Vec::new(), 0, GATE), Err(EngineError::InvalidKey(_))));
    assert!(matches!(e.put(Vec::new(), Vec::new(), 0, GATE), Err(EngineError::InvalidKey(_))));
    assert!(matches!(
        e.put(vec![KS_SYSTEM, b'x'], Vec::new(), 0, GATE),
        Err(EngineError::InvalidKey(_))
    ));
    assert!(matches!(
        e.put(uk("a"), vec![0; MAX_VALUE_BYTES + 1], 0, GATE),
        Err(EngineError::InvalidValue(_))
    ));
    assert!(e.write_batch(Vec::new(), GATE).is_err());
    let twice = vec![BatchOp::Del { key: uk("a") }, BatchOp::Del { key: uk("a") }];
    assert!(e.write_batch(twice, GATE).is_err());
    let many: Vec<BatchOp> =
        (0..=MAX_BATCH_KEYS).map(|i| BatchOp::Del { key: uk(&format!("k{}", i)) }).collect();
    assert!(e.write_batch(many, GATE).is_err());
    assert_eq!(e.seq_peek(), before);
    assert_eq!(get(&mut e, "a"), text("1"));
}

#[test]
fn frozen_writes_are_refused_until_unfrozen() {
    let mut e = fresh();
    e.freeze_writes();
    assert!(e.writes_frozen());
    assert!(matches!(
        e.put(uk("a"), b"1".to_vec(), 0, GATE),
        Err(EngineError::EngineBusy(_))
    ));
    e.unfreeze_writes();
    assert!(!e.writes_frozen());
    assert_eq!(put(&mut e, "a", "1"), 1);
}

#[test]
fn a_failed_append_leaves_the_store_alone() {
    let mut e = fresh();
    put(&mut e, "a", "1");
    let op = WalOp {
        command: WalCommand::Put,
        expires_at: 0,
        key: uk("a"),
        value: b"2".to_vec(),
    };
    let w = e.stage_write(vec![op]);
    let r = e.finish_write(w, Err(EngineError::Io("disk".to_string())));
    assert!(matches!(r, Err(EngineError::Io(_))));
    assert_eq!(get(&mut e, "a"), text("1"));
}

#[test]
fn snapshots_do_not_see_later_writes() {
    let mut e = fresh();
    put(&mut e, "a", "1");
    put(&mut e, "b", "1");
    let h = e.snapshot_owned();
    assert_eq!(h.seq_upper(), 2);
    put(&mut e, "a", "2");
    e.del(uk("b"), GATE, NOW).unwrap();
    e.force_flush().unwrap();
    put(&mut e, "c", "1");
    assert_eq!(h.get(&uk("a"), NOW), Some(b"1".to_vec()));
    assert_eq!(h.get_with_seq(&uk("b"), NOW), Some((b"1".to_vec(), 2)));
    assert_eq!(h.get(&uk("c"), NOW), None);
    let seen = h.scan(&[KS_USER], &[], NOW).unwrap().collect();
    assert_eq!(seen, vec![(uk("a"), b"1".to_vec()), (uk("b"), b"1".to_vec())]);
    let mut back = h.scan_rev(&[KS_USER], &[], NOW).unwrap().collect();
    back.reverse();
    assert_eq!(back, seen);
    h.release(&mut e.pins);
    assert!(e.pins.no_snapshots());
}

#[test]
fn an_early_snapshot_reads_below_its_ceiling() {
    let mut e = fresh();
    put(&mut e, "a", "1");
    put(&mut e, "a", "2");
    put(&mut e, "a", "3");
    let h = e.snapshot_at(2);
    assert_eq!(h.get(&uk("a"), NOW), Some(b"2".to_vec()));
    let far = e.snapshot_at(99);
    assert_eq!(far.seq_upper(), 3);
    let v = e.snapshot();
    assert_eq!(v.seq_upper(), 3);
    assert_eq!(v.get(&uk("a"), NOW).unwrap(), Some(b"3".to_vec()));
}

#[test]
fn reads_come_out_in_key_order_across_layers() {
    let mut e = fresh();
    put(&mut e, "d", "1");
    put(&mut e, "b", "1");
    e.force_flush().unwrap();
    put(&mut e, "c", "1");
    put(&mut e, "b", "2");
    e.force_flush().unwrap();
    put(&mut e, "a", "1");
    e.del(uk("d"), GATE, NOW).unwrap();
    let want = vec![
        (uk("a"), b"1".to_vec()),
        (uk("b"), b"2".to_vec()),
        (uk("c"), b"1".to_vec()),
    ];
    assert_eq!(all(&e), want);
    let part = e.scan(&uk("b"), &uk("c"), NOW).unwrap().collect();
    assert_eq!(part, vec![(uk("b"), b"2".to_vec())]);
    let rest = e.scan(&uk("b"), &[], NOW).unwrap().collect();
    assert_eq!(rest, want[1..].to_vec());
}

#[test]
fn an_expired_value_is_not_read() {
    let mut e = fresh();
    e.put(uk("a"), b"1".to_vec(), NOW - 1, GATE).unwrap();
    e.put(uk("b"), b"1".to_vec(), NOW, GATE).unwrap();
    assert_eq!(get(&mut e, "a"), None);
    assert_eq!(get(&mut e, "b"), text("1"));
    assert_eq!(all(&e).len(), 1);
    assert_eq!(e.get(&uk("b"), NOW + 1).unwrap(), None);
}

#[test]
fn the_result_cache_never_shows_an_old_value() {
    let cfg = EngineConfig { result_cache_bytes: 1 << 20, ..EngineConfig::default() };
    let mut e = Engine::open(cfg, 0, Vec::new(), &Vec::new(), false).unwrap();
    put(&mut e, "a", "1");
    e.force_flush().unwrap();
    assert_eq!(get(&mut e, "a"), text("1"));
    assert!(e.result_cache.as_ref().unwrap().resident_bytes() > 0);
    assert_eq!(get(&mut e, "a"), text("1"));
    put(&mut e, "a", "2");
    assert_eq!(get(&mut e, "a"), text("2"));
    e.del(uk("a"), GATE, NOW).unwrap();
    assert_eq!(get(&mut e, "a"), None);
    // An old ceiling is answered from the store, not from the cache.
    assert_eq!(e.snapshot_get(1, &uk("a"), NOW).unwrap(), Some(b"1".to_vec()));
}

#[test]
fn the_next_user_key_is_the_smallest_greater_one() {
    let next = Engine::next_user_key(&uk("a"));
    assert_eq!(next, [KS_USER, b'a', 0].to_vec());
    assert!(next > uk("a"));
    assert!(next < uk("aa"));
}

#[test]
fn the_log_alone_brings_every_write_back() {
    let mut e = fresh();
    let mut bytes = segment_header(e.seq_peek());
    for (k, v) in [("a", "1"), ("b", "2"), ("a", "3")] {
        let op = WalOp {
            command: WalCommand::Put,
            expires_at: 0,
            key: uk(k),
            value: v.as_bytes().to_vec(),
        };
        let w = e.stage_write(vec![op]);
        bytes.extend_from_slice(&w.bytes);
        e.finish_write(w, Ok(())).unwrap();
    }
    let seg = read_segment(1, &bytes).unwrap();
    let mut again =
        Engine::open(EngineConfig::default(), 0, Vec::new(), &vec![seg], false).unwrap();
    assert_eq!(all(&again), all(&e));
    assert_eq!(again.seq_peek(), 4);
    assert_eq!(get(&mut again, "a"), text("3"));

    // A ceiling on the replay leaves out what came after it.
    let seg: WalSegment = read_segment(1, &bytes).unwrap();
    let cfg = EngineConfig { wal_replay_max_seq: Some(2), ..EngineConfig::default() };
    let mut early = Engine::open(cfg, 0, Vec::new(), &vec![seg], false).unwrap();
    assert_eq!(get(&mut early, "a"), text("1"));
    assert_eq!(get(&mut early, "b"), text("2"));
}

#[test]
fn group_commit_moves_the_synced_mark_on_sync() {
    let mut e = fresh().with_group_commit(true);
    assert!(e.group_commit_enabled());
    put(&mut e, "a", "1");
    put(&mut e, "b", "1");
    assert_eq!(e.last_buffered_seq(), 2);
    assert_eq!(e.synced_seq, 0);
    assert_eq!(e.sync_wal(), 2);
    assert_eq!(e.synced_seq, 2);
    let mut e = e.with_group_commit(false);
    assert!(!e.group_commit_enabled());
    put(&mut e, "c", "1");
    assert_eq!(e.synced_seq, 3);
}

#[test]
fn a_dropped_tombstone_does_not_bring_its_value_back() {
    let cfg = || EngineConfig {
        compaction: CompactionConfig { l0_trigger: 2, ..CompactionConfig::default() },
        ..EngineConfig::default()
    };
    let mut e = Engine::open(cfg(), 0, Vec::new(), &Vec::new(), false).unwrap();
    let mut bytes = segment_header(e.seq_peek());
    let mut write = |e: &mut Engine, command: WalCommand, key: &str| {
        let value = if command == WalCommand::Put { b"1".to_vec() } else { Vec::new() };
        let w = e.stage_write(vec![WalOp { command, expires_at: 0, key: uk(key), value }]);
        bytes.extend_from_slice(&w.bytes);
        e.finish_write(w, Ok(())).unwrap();
    };
    write(&mut e, WalCommand::Put, "j");
    write(&mut e, WalCommand::Put, "k");
    e.force_flush().unwrap();
    write(&mut e, WalCommand::Del, "k");
    e.force_flush().unwrap();
    // Down to the last level, where the tombstone goes with the value under it.
    while e.drain_compaction().unwrap() && e.live_sstable_levels()[0].0 < 2 {
        e.cfg.compaction.l1_target_bytes = 1;
        if !e.compact_once().unwrap() {
            break;
        }
    }
    assert_eq!(get(&mut e, "k"), None);
    let seg = read_segment(1, &bytes).unwrap();
    let tables = e.layers.tables;
    let mut again = Engine::open(cfg(), 3, tables, &vec![seg], false).unwrap();
    assert_eq!(get(&mut again, "k"), None);
    assert_eq!(get(&mut again, "j"), text("1"));
    assert_eq!(again.current_seq(), 3);
}
