use zydecodb_engine::engine::catalog::snapmeta_text;
use zydecodb_engine::engine::write::WriteGate;
use zydecodb_engine::engine::{Engine, EngineConfig};
use zydecodb_engine::errors::EngineError;
use zydecodb_engine::keys::{KS_SYSTEM, KS_USER};
use zydecodb_engine::shipping::ShipMode;
use zydecodb_engine::wal::{ReplayOutcome, WalEntry, WalSegment};

const NOW: u64 = 1_700_000_000_000;
const GATE: WriteGate = WriteGate { fair_on: false, noisy: false, admits: true };

fn key(space: u8, k: &str) -> Vec<u8> {
    let mut v = vec![space];
    v.extend_from_slice(k.as_bytes());
    v
}

fn uk(k: &str) -> Vec<u8> {
    key(KS_USER, k)
}

fn fresh() -> Engine {
    Engine::open(EngineConfig::default(), 0, Vec::new(), &Vec::new(), false).unwrap()
}

#[test]
fn system_keys_are_kept_apart_from_user_keys() {
    let mut e = fresh();
    e.sys_put(key(KS_SYSTEM, "a"), b"s".to_vec(), GATE).unwrap();
    e.put(uk("a"), b"u".to_vec(), 0, GATE).unwrap();
    assert_eq!(e.sys_get(&key(KS_SYSTEM, "a"), NOW).unwrap(), Some(b"s".to_vec()));
    assert_eq!(e.get(&uk("a"), NOW).unwrap(), Some(b"u".to_vec()));
    assert!(matches!(e.sys_put(uk("a"), Vec::new(), GATE), Err(EngineError::InvalidKey(_))));
    assert!(matches!(e.sys_get(&uk("a"), NOW), Err(EngineError::InvalidKey(_))));
    assert!(matches!(e.sys_del(uk("a"), GATE, NOW), Err(EngineError::InvalidKey(_))));
    assert!(e.sys_del(key(KS_SYSTEM, "a"), GATE, NOW).unwrap());
    assert!(!e.sys_del(key(KS_SYSTEM, "a"), GATE, NOW).unwrap());
    assert_eq!(e.sys_get(&key(KS_SYSTEM, "a"), NOW).unwrap(), None);
    assert_eq!(e.get(&uk("a"), NOW).unwrap(), Some(b"u".to_vec()));
}

#[test]
fn a_policy_may_write_while_writes_are_frozen() {
    let mut e = fresh();
    e.freeze_writes();
    assert!(e.sys_put(key(KS_SYSTEM, "a"), b"1".to_vec(), GATE).is_err());
    e.sys_put_policy(key(KS_SYSTEM, "a"), b"1".to_vec()).unwrap();
    assert_eq!(e.sys_get(&key(KS_SYSTEM, "a"), NOW).unwrap(), Some(b"1".to_vec()));
}

#[test]
fn a_sweep_buries_what_has_expired() {
    let mut e = fresh();
    e.put(uk("a"), b"1".to_vec(), NOW - 1, GATE).unwrap();
    e.put(uk("b"), b"1".to_vec(), NOW + 9, GATE).unwrap();
    e.put(uk("c"), b"1".to_vec(), 0, GATE).unwrap();
    let seen: Vec<_> = e.prefix_scan(&[KS_USER], NOW).unwrap().collect();
    assert_eq!(e.sweep_expired(NOW), 1);
    let after: Vec<_> = e.prefix_scan(&[KS_USER], NOW).unwrap().collect();
    assert_eq!(seen, after);
    // Read as of an earlier time the key is gone now.
    assert_eq!(e.get(&uk("a"), 1).unwrap(), None);
    // A second sweep still counts the key, and has nothing left to bury.
    let next = e.seq_peek();
    assert_eq!(e.sweep_expired(NOW), 1);
    assert_eq!(e.seq_peek(), next);
}

#[test]
fn a_prefix_is_deleted_whole_and_nothing_else() {
    let mut e = fresh();
    for i in 0..2500u32 {
        e.put(uk(&format!("p{:05}", i)), b"1".to_vec(), 0, GATE).unwrap();
    }
    e.put(uk("o"), b"1".to_vec(), 0, GATE).unwrap();
    e.put(uk("q"), b"1".to_vec(), 0, GATE).unwrap();
    e.force_flush().unwrap();
    assert_eq!(e.delete_prefix(&uk("p"), GATE, NOW).unwrap(), 2500);
    let left: Vec<_> = e.prefix_scan(&[KS_USER], NOW).unwrap().collect();
    assert_eq!(left, vec![(uk("o"), b"1".to_vec()), (uk("q"), b"1".to_vec())]);
    assert_eq!(e.delete_prefix(&uk("p"), GATE, NOW).unwrap(), 0);
    e.sys_put(key(KS_SYSTEM, "a"), b"1".to_vec(), GATE).unwrap();
    assert!(e.delete_prefix(&[KS_SYSTEM], GATE, NOW).is_err());
    assert_eq!(e.sys_get(&key(KS_SYSTEM, "a"), NOW).unwrap(), Some(b"1".to_vec()));
}

#[test]
fn compacting_all_leaves_the_reads_alone() {
    let mut e = fresh();
    for round in 0..6u32 {
        for i in 0..10u32 {
            let v = format!("{}", round).into_bytes();
            e.put(uk(&format!("k{}", i)), v, 0, GATE).unwrap();
        }
        e.force_flush().unwrap();
    }
    let before: Vec<_> = e.prefix_scan(&[KS_USER], NOW).unwrap().collect();
    assert!(e.compact_all().unwrap());
    let after: Vec<_> = e.prefix_scan(&[KS_USER], NOW).unwrap().collect();
    assert_eq!(before, after);
    assert!(e.sstable_count() < 6);
}

#[test]
fn a_snapshot_note_names_its_sequence_number() {
    let text = snapmeta_text(42);
    assert!(text.contains("42"), "{}", text);
}

#[test]
fn an_installed_segment_is_applied_once() {
    let mut e = fresh();
    e.put(uk("a"), b"1".to_vec(), 0, GATE).unwrap();
    let segment = || WalSegment {
        id: 9,
        entries: vec![
            WalEntry::put(1, 0, uk("a"), b"x".to_vec()),
            WalEntry::put(2, 0, uk("b"), b"2".to_vec()),
            WalEntry::del(3, uk("a")),
        ],
        outcome: ReplayOutcome::Clean,
    };
    assert_eq!(e.apply_installed_wal_segment(segment()).unwrap(), 2);
    assert_eq!(e.get(&uk("a"), NOW).unwrap(), None);
    assert_eq!(e.get(&uk("b"), NOW).unwrap(), Some(b"2".to_vec()));
    assert_eq!(e.current_seq(), 3);
    assert_eq!(e.apply_installed_wal_segment(segment()).unwrap(), 0);
    let bad = WalSegment { id: 9, entries: Vec::new(), outcome: ReplayOutcome::Corruption };
    assert!(e.apply_installed_wal_segment(bad).is_err());
}

#[test]
fn a_shutdown_flushes_and_leaves_a_marker() {
    let mut e = fresh().with_shipping(Some("ship".to_string()), ShipMode::Copy);
    assert_eq!(e.ship_dir, Some("ship".to_string()));
    e.put(uk("a"), b"1".to_vec(), 0, GATE).unwrap();
    let marker = e.shutdown().unwrap().marker;
    assert!(!marker.is_empty());
    assert_eq!(e.sstable_count(), 1);
    assert_eq!(e.immutable_len(), 0);
    // A second stop finds nothing to do.
    assert_eq!(e.shutdown().unwrap().marker, marker);
    assert_eq!(e.sstable_count(), 1);
    assert_eq!(e.synced_seq, 1);
}

#[test]
fn figures_describe_the_store() {
    let mut e = fresh();
    e.put(uk("a"), b"12345".to_vec(), 0, GATE).unwrap();
    e.put(uk("b"), b"1".to_vec(), NOW - 1, GATE).unwrap();
    assert_eq!(e.estimate_disk_bytes(), 0);
    assert_eq!(e.estimate_logical_live_bytes(NOW).unwrap(), 2 + 5);
    let s = e.stats(5, &Vec::new());
    assert_eq!((s.uptime_s, s.memtable_entries, s.immutable_memtables), (5, 2, 0));
    e.force_flush().unwrap();
    let size = e.metas()[0].size_bytes;
    assert_eq!(e.estimate_disk_bytes(), size);
    assert_eq!(e.disk_bytes_by_level(), vec![(0, size)]);
    assert_eq!(e.l2_file_size_stats(), (0, 0, 0));
    let s = e.stats(6, &vec![(1, 100), (e.active_wal_id, 9)]);
    assert_eq!(s.sstables.len(), 1);
    assert_eq!((s.sstables[0].min_seq, s.sstables[0].max_seq), (1, 2));
    assert_eq!(s.memtable_entries, 0);
    e.record_apply_duration(3);
    e.record_apply_duration(5);
    assert_eq!(e.drain_apply_window_stats(), (2, 8, 5));
    assert_eq!(e.drain_apply_window_stats(), (0, 0, 0));
    e.apply_scheduler.manifest_sync_window().record(4);
    assert_eq!(e.drain_manifest_sync_window_stats(), (1, 4, 4));
}
