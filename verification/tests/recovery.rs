use zydecodb_engine::apply_worker::manifest_bytes;
use zydecodb_engine::compaction::CompactionConfig;
use zydecodb_engine::compaction_worker::NewTable;
use zydecodb_engine::engine::reopen::TableFile;
use zydecodb_engine::engine::write::WriteGate;
use zydecodb_engine::engine::{Engine, EngineConfig};
use zydecodb_engine::errors::EngineError;
use zydecodb_engine::keys::{KS_SYSTEM, KS_USER};
use zydecodb_engine::manifest::{replay, ManifestRecord, SstableMeta};
use zydecodb_engine::shipping::{parse_shipped_log, shipped_text};
use zydecodb_engine::table_file::table_bytes;

const NOW: u64 = 1_700_000_000_000;
const GATE: WriteGate = WriteGate { fair_on: false, noisy: false, admits: true };

fn uk(k: &str) -> Vec<u8> {
    let mut v = vec![KS_USER];
    v.extend_from_slice(k.as_bytes());
    v
}

fn cfg() -> EngineConfig {
    let compaction = CompactionConfig { l0_trigger: 2, ..CompactionConfig::default() };
    EngineConfig { compaction, ..EngineConfig::default() }
}

fn open() -> Engine {
    Engine::open(cfg(), 0, Vec::new(), &Vec::new(), false).unwrap()
}

fn put(e: &mut Engine, k: &str, v: &str) {
    e.put(uk(k), v.as_bytes().to_vec(), 0, GATE).unwrap();
}

/// Writes the memtables out and leaves the tables as they are.
fn write_out(e: &mut Engine) {
    e.freeze_active();
    while e.flush_one() {}
}

fn all(e: &Engine) -> Vec<(Vec<u8>, Vec<u8>)> {
    e.prefix_scan(&[KS_USER], NOW).unwrap().collect()
}

fn two_tables() -> Engine {
    let mut e = open();
    put(&mut e, "a", "1");
    put(&mut e, "b", "1");
    write_out(&mut e);
    put(&mut e, "a", "2");
    e.del(uk("b"), GATE, NOW).unwrap();
    put(&mut e, "c", "2");
    write_out(&mut e);
    e
}

/// The file of a live entry, out of the engine's tables and those that were made.
fn file_of(e: &Engine, made: &[NewTable], meta: &SstableMeta) -> TableFile {
    let bytes = match e.layers.tables.iter().find(|t| t.meta.id == meta.id) {
        Some(t) => table_bytes(t.reader.full_iter()),
        None => {
            let t = made.iter().find(|t| t.meta.id == meta.id).unwrap();
            table_bytes(t.reader.full_iter())
        }
    };
    TableFile { meta: meta.clone(), bytes }
}

#[test]
fn a_torn_append_of_a_compaction_loses_nothing() {
    let mut e = two_tables();
    let before = all(&e);
    assert_eq!(before, vec![(uk("a"), b"2".to_vec()), (uk("c"), b"2".to_vec())]);
    let mut past = Vec::new();
    for m in e.metas() {
        past.extend_from_slice(&ManifestRecord::SstableAdd(m).encode());
    }
    let work = e.maybe_submit_compaction().unwrap();
    let done = e.run_compaction(work, e.next_sstable_id);
    let ready = e.take_compaction_result(Ok(done)).unwrap().unwrap();
    assert_eq!(ready.manifest_records.len(), 3);
    let append = manifest_bytes(&ready.manifest_records);
    let mut seen = Vec::new();
    for n in 0..=append.len() {
        let mut text = past.clone();
        text.extend_from_slice(&append[..n]);
        let mut live = replay(&text).unwrap().live_sstables;
        live.sort_by_key(|m| m.id);
        let ids: Vec<u64> = live.iter().map(|m| m.id).collect();
        if !seen.contains(&ids) {
            seen.push(ids);
        }
        let files = live.iter().map(|m| file_of(&e, &ready.add_tables, m)).collect();
        let mut again = Engine::open_files(cfg(), 0, files, &Vec::new(), false).unwrap();
        assert_eq!(all(&again), before, "after {} bytes", n);
        // What two tables hold is compacted into one.
        while again.compact_once().unwrap() {}
        assert_eq!(all(&again), before, "after {} bytes", n);
        assert_eq!(again.get(&uk("b"), NOW).unwrap(), None);
    }
    assert_eq!(seen, vec![vec![1, 2], vec![1, 2, 3], vec![2, 3], vec![3]]);
}

#[test]
fn equal_versions_of_two_tables_are_merged_into_one() {
    let mut e = open();
    put(&mut e, "a", "1");
    write_out(&mut e);
    let meta = e.metas().remove(0);
    let twice: Vec<TableFile> =
        [1u64, 2].iter().map(|id| TableFile {
            meta: SstableMeta { id: *id, ..meta.clone() },
            bytes: table_bytes(e.layers.tables[0].reader.full_iter()),
        }).collect();
    let mut again = Engine::open_files(cfg(), 0, twice, &Vec::new(), false).unwrap();
    assert_eq!(all(&again), vec![(uk("a"), b"1".to_vec())]);
    assert!(again.compact_once().unwrap());
    assert_eq!(again.sstable_count(), 1);
    assert_eq!(again.layers.tables[0].reader.full_iter().len(), 1);
    // Tables that disagree on a version are refused.
    let mut other = open();
    put(&mut other, "a", "9");
    write_out(&mut other);
    let files = vec![
        TableFile { meta: meta.clone(), bytes: table_bytes(e.layers.tables[0].reader.full_iter()) },
        TableFile {
            meta: SstableMeta { id: 2, ..meta },
            bytes: table_bytes(other.layers.tables[0].reader.full_iter()),
        },
    ];
    assert!(Engine::open_files(cfg(), 0, files, &Vec::new(), false).is_err());
}

#[test]
fn a_forced_flush_compacts_and_frees_the_log() {
    let mut e = open();
    put(&mut e, "a", "1");
    assert_eq!(e.force_roll_wal_for_test(), Some(1));
    let first = e.active_wal_id;
    // The sealed segment is covered; the active one is not.
    assert_eq!(e.force_flush().unwrap(), Some(first - 1));
    assert_eq!(e.unlink_wal_segments_up_to(&vec![first - 1, first], first - 1), vec![first - 1]);
    assert_eq!(e.live_sstable_levels(), vec![(0, 1)]);
    put(&mut e, "a", "2");
    assert_eq!(e.flush().unwrap(), None);
    assert_eq!(e.live_sstable_levels(), vec![(1, 1)]);
    assert_eq!(all(&e), vec![(uk("a"), b"2".to_vec())]);
    // With empty memtables nothing happens, whatever is due.
    let mut e = two_tables();
    assert_eq!(e.force_flush().unwrap(), None);
    assert_eq!(e.sstable_count(), 2);
    put(&mut e, "d", "1");
    let stopped = e.shutdown().unwrap();
    assert_eq!(stopped.marker, e.current_seq().to_be_bytes().to_vec());
    assert_eq!(e.live_sstable_levels(), vec![(1, 1)]);
    assert_eq!(e.synced_seq, e.current_seq());
}

#[test]
fn a_flush_needs_the_apply_worker() {
    let mut e = two_tables();
    put(&mut e, "d", "1");
    e.apply_scheduler.shutdown();
    for _ in 0..2 {
        match e.force_flush() {
            Err(EngineError::Io(m)) => assert_eq!(m, "apply worker shut down"),
            other => panic!("{:?}", other),
        }
    }
    assert!(e.shutdown().is_err());
    assert!(e.compact_all().is_err());
    assert_eq!(e.get(&uk("d"), NOW).unwrap(), Some(b"1".to_vec()));
}

#[test]
fn draining_leaves_nothing_to_do() {
    let mut e = two_tables();
    assert!(e.drain_compaction().unwrap());
    assert!(!e.compact_once().unwrap());
    let mut e = two_tables();
    assert!(e.compact_all().unwrap());
    assert_eq!(e.sstable_count(), 1);
}

#[test]
fn a_memtable_at_the_worker_does_not_queue() {
    let cfg = EngineConfig { memtable_flush_threshold: 1, ..EngineConfig::default() };
    let mut e = Engine::open(cfg, 0, Vec::new(), &Vec::new(), false).unwrap();
    put(&mut e, "a", "1");
    assert_eq!(e.immutable_len(), 1);
    e.try_submit_flush().unwrap();
    assert_eq!(e.immutable_len(), 0);
    assert_eq!(e.stats(0, &Vec::new()).immutable_memtables, 0);
    for k in ["b", "c", "d", "e"] {
        put(&mut e, k, "1");
    }
    assert_eq!(e.immutable_len(), 4);
    match e.put(uk("f"), b"1".to_vec(), 0, GATE) {
        Err(EngineError::EngineBusy(m)) => assert_eq!(m, "flush queue full"),
        other => panic!("{:?}", other),
    }
}

#[test]
fn a_table_is_as_large_as_its_file() {
    let e = two_tables();
    for t in &e.layers.tables {
        let file = table_bytes(t.reader.full_iter());
        assert_eq!(t.meta.size_bytes, file.len() as u64);
    }
    // Two versions of two key bytes and one value byte each.
    assert_eq!(e.layers.tables[0].meta.size_bytes, 2 * (41 + 2 + 1));
}

#[test]
fn scans_stay_within_the_user_keyspace() {
    let mut e = open();
    e.sys_put(vec![KS_SYSTEM, 7], b"s".to_vec(), GATE).unwrap();
    put(&mut e, "a", "1");
    let user = vec![(uk("a"), b"1".to_vec())];
    assert_eq!(e.scan(&[], &[], NOW).unwrap().collect(), user);
    assert_eq!(e.prefix_scan(&[], NOW).unwrap().collect(), user);
    assert!(e.scan(&[KS_SYSTEM], &[KS_USER], NOW).unwrap().collect().is_empty());
    assert!(e.prefix_scan(&[KS_SYSTEM], NOW).unwrap().collect().is_empty());
    assert!(e.scan(&[KS_USER + 1], &[], NOW).unwrap().collect().is_empty());
    assert!(e.scan(&uk("z"), &uk("b"), NOW).unwrap().collect().is_empty());
    // A view lists what its lookups find.
    let v = e.snapshot();
    assert_eq!(v.scan(&[KS_SYSTEM], &[KS_USER], NOW).unwrap().collect().len(), 1);
    assert_eq!(v.get(&[KS_SYSTEM, 7], NOW).unwrap(), Some(b"s".to_vec()));
}

#[test]
fn a_prefix_of_the_largest_byte_has_no_end() {
    let mut e = open();
    for k in [vec![KS_USER, 0xfe], vec![KS_USER, 0xff], vec![KS_USER, 0xff, 0xff, 3]] {
        e.put(k, b"1".to_vec(), 0, GATE).unwrap();
    }
    let keys = |prefix: &[u8]| -> Vec<Vec<u8>> {
        e.snapshot().prefix_scan(prefix, NOW).unwrap().collect().into_iter().map(|p| p.0).collect()
    };
    assert_eq!(keys(&[KS_USER, 0xff]), vec![vec![KS_USER, 0xff], vec![KS_USER, 0xff, 0xff, 3]]);
    assert_eq!(keys(&[KS_USER, 0xff, 0xff]), vec![vec![KS_USER, 0xff, 0xff, 3]]);
}

#[test]
fn only_what_a_table_gave_is_cached() {
    let cfg = EngineConfig { result_cache_bytes: 1 << 20, ..EngineConfig::default() };
    let mut e = Engine::open(cfg, 0, Vec::new(), &Vec::new(), false).unwrap();
    let cached = |e: &Engine| e.result_cache.as_ref().unwrap().resident_bytes();
    put(&mut e, "a", "123");
    assert_eq!(e.get(&uk("a"), NOW).unwrap(), Some(b"123".to_vec()));
    assert_eq!(cached(&e), 0);
    e.force_flush().unwrap();
    assert_eq!(e.get(&uk("a"), NOW).unwrap(), Some(b"123".to_vec()));
    assert_eq!(cached(&e), 2 + 3);
    assert_eq!(e.get(&uk("a"), NOW).unwrap(), Some(b"123".to_vec()));
    assert_eq!(cached(&e), 2 + 3);
    assert_eq!(e.get(&uk("none"), NOW).unwrap(), None);
    assert_eq!(cached(&e), 2 + 3);
}

#[test]
fn the_text_of_shipped_segments_reads_back() {
    let digest = |c: char| std::iter::repeat(c).take(64).collect::<String>();
    let list = [(1, 42, digest('a')), (u64::MAX, 0, digest('0')), (7, u64::MAX, digest('f'))];
    let text: String = list.iter().map(|(id, seq, d)| shipped_text(*id, *seq, d)).collect();
    let back = parse_shipped_log(&text).unwrap();
    let back: Vec<(u64, u64, String)> =
        back.into_iter().map(|s| (s.segment_id, s.seal_seq, s.sha256_hex)).collect();
    assert_eq!(back, list.to_vec());
}
