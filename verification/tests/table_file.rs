use zydecodb_engine::engine::open::{join_path, orphan_table, table_file_name, tables_to_open};
use zydecodb_engine::engine::reopen::TableFile;
use zydecodb_engine::engine::write::WriteGate;
use zydecodb_engine::engine::{Engine, EngineConfig};
use zydecodb_engine::entry::Entry;
use zydecodb_engine::errors::EngineError;
use zydecodb_engine::keys::{EntryKind, InternalKey, KS_USER};
use zydecodb_engine::manifest::{ManifestState, SstableMeta};
use zydecodb_engine::table_file::{can_store, read_table, table_bytes};
use zydecodb_engine::wal::{ReplayOutcome, WalEntry, WalSegment};

const NOW: u64 = 1_700_000_000_000;
const GATE: WriteGate = WriteGate { fair_on: false, noisy: false, admits: true };

fn run() -> Vec<(InternalKey, Entry)> {
    vec![
        (InternalKey::new(vec![1, 1], 7, EntryKind::Tombstone), Entry::tombstone()),
        (InternalKey::new(vec![1, 1], 3, EntryKind::Value), Entry::value(vec![9], None)),
        (InternalKey::new(vec![1, 2], 5, EntryKind::Value), Entry::value(vec![8], Some(44))),
    ]
}

fn meta(id: u64, level: u8) -> SstableMeta {
    SstableMeta {
        id,
        level,
        min_key: vec![1, 1],
        max_key: vec![1, 2],
        min_seq: 3,
        max_seq: 7,
        size_bytes: 40,
    }
}

#[test]
fn a_table_file_reads_back_what_was_written() {
    let pairs = run();
    assert!(can_store(&pairs));
    let bytes = table_bytes(&pairs);
    assert_eq!(read_table(&bytes).unwrap(), pairs);
    assert!(read_table(&table_bytes(&[])).unwrap().is_empty());
}

#[test]
fn a_damaged_table_file_is_refused() {
    let bytes = table_bytes(&run());
    for at in 0..bytes.len() {
        let mut bad = bytes.clone();
        bad[at] ^= 0x10;
        assert_ne!(read_table(&bad).ok(), Some(run()), "byte {}", at);
    }
    match read_table(&bytes[..bytes.len() - 1]) {
        Err(EngineError::Io(m)) => assert_eq!(m, "sstable: damaged file"),
        other => panic!("{:?}", other),
    }
}

#[test]
fn a_store_opens_again_from_its_files() {
    let mut e = Engine::open(EngineConfig::default(), 0, Vec::new(), &Vec::new(), false).unwrap();
    let keys: Vec<Vec<u8>> = (0..20u8).map(|i| vec![KS_USER, i]).collect();
    for k in &keys {
        e.put(k.clone(), vec![k[1]; 3], 0, GATE).unwrap();
    }
    e.del(keys[4].clone(), GATE, NOW).unwrap();
    e.force_flush().unwrap();
    let metas = e.metas();
    let files: Vec<TableFile> = e
        .layers
        .tables
        .iter()
        .zip(metas)
        .map(|(t, meta)| TableFile { meta, bytes: table_bytes(t.reader.full_iter()) })
        .collect();
    let mut again =
        Engine::open_files(EngineConfig::default(), 21, files, &Vec::new(), true).unwrap();
    assert!(again.was_clean_shutdown());
    assert_eq!(again.seq_peek(), 22);
    for k in &keys {
        assert_eq!(again.get(k, NOW).unwrap(), e.get(k, NOW).unwrap());
    }
    assert_eq!(again.get(&keys[4], NOW).unwrap(), None);
    assert_eq!(again.get(&keys[5], NOW).unwrap(), Some(vec![5; 3]));
}

#[test]
fn unsound_files_are_refused() {
    let refused = |files: Vec<TableFile>| {
        match Engine::open_files(EngineConfig::default(), 0, files, &Vec::new(), false) {
            Err(EngineError::Io(m)) => assert_eq!(m, "sstable: damaged or inconsistent files"),
            Err(other) => panic!("{:?}", other),
            Ok(_) => panic!("opened"),
        }
    };
    refused(vec![TableFile { meta: meta(1, 0), bytes: vec![1, 2, 3] }]);
    // A description that does not fit the contents.
    let mut wrong = meta(1, 0);
    wrong.max_seq = 6;
    refused(vec![TableFile { meta: wrong, bytes: table_bytes(&run()) }]);
    // Two tables of one number.
    refused(vec![
        TableFile { meta: meta(1, 0), bytes: table_bytes(&run()) },
        TableFile { meta: meta(1, 0), bytes: table_bytes(&run()) },
    ]);
}

#[test]
fn an_unsound_log_is_refused() {
    // No number is left for the next write.
    let entries = vec![WalEntry::put(u64::MAX, 0, vec![KS_USER, 1], vec![1])];
    let last = WalSegment { id: 1, entries, outcome: ReplayOutcome::Clean };
    match Engine::open_files(EngineConfig::default(), 0, Vec::new(), &vec![last], false) {
        Err(EngineError::Io(m)) => assert_eq!(m, "WAL: records too large"),
        Err(other) => panic!("{:?}", other),
        Ok(_) => panic!("opened"),
    }
    // A torn segment below a later one.
    let torn = WalSegment {
        id: 1,
        entries: vec![WalEntry::put(1, 0, vec![KS_USER, 1], vec![1])],
        outcome: ReplayOutcome::Corruption,
    };
    let next = WalSegment {
        id: 2,
        entries: vec![WalEntry::put(2, 0, vec![KS_USER, 1], vec![1])],
        outcome: ReplayOutcome::Clean,
    };
    assert!(Engine::open_files(EngineConfig::default(), 0, Vec::new(), &vec![torn, next], false)
        .is_err());
}

#[test]
fn file_names_follow_the_table_numbers() {
    assert_eq!(join_path("data", "x"), "data/x");
    let name = table_file_name(7);
    assert!(name.starts_with("0") && name.ends_with("7.sst"), "{}", name);
    assert_eq!(orphan_table(&name, &vec![1, 2]), Some(7));
    assert_eq!(orphan_table(&name, &vec![7]), None);
    assert_eq!(orphan_table("notes.txt", &vec![]), None);
}

#[test]
fn live_tables_are_opened_in_level_order() {
    let mut state = ManifestState::default();
    state.live_sstables = vec![meta(3, 1), meta(1, 0), meta(2, 0)];
    let ids: Vec<u64> = tables_to_open(&state).iter().map(|m| m.id).collect();
    let mut sorted = ids.clone();
    sorted.sort();
    assert_eq!(sorted, vec![1, 2, 3]);
}

fn segment(id: u64, entries: Vec<WalEntry>) -> WalSegment {
    WalSegment { id, entries, outcome: ReplayOutcome::Clean }
}

fn user(k: u8) -> Vec<u8> {
    vec![KS_USER, k]
}

#[test]
fn a_log_out_of_order_is_replayed() {
    let back =
        segment(1, vec![WalEntry::put(5, 0, user(1), vec![1]), WalEntry::put(4, 0, user(2), vec![2])]);
    let e = Engine::open_files(EngineConfig::default(), 0, Vec::new(), &vec![back], false).unwrap();
    assert_eq!(e.current_seq(), 5);
    assert_eq!(e.snapshot_get(5, &user(1), NOW).unwrap(), Some(vec![1]));
    assert_eq!(e.snapshot_get(4, &user(1), NOW).unwrap(), None);
    assert_eq!(e.snapshot_get(4, &user(2), NOW).unwrap(), Some(vec![2]));
}

#[test]
fn a_later_record_of_the_same_key_and_number_wins() {
    let log = vec![
        segment(1, vec![WalEntry::put(1, 0, user(1), vec![1]), WalEntry::put(2, 0, user(2), vec![2])]),
        segment(2, vec![WalEntry::put(2, 0, user(2), vec![3])]),
    ];
    let mut e = Engine::open_files(EngineConfig::default(), 0, Vec::new(), &log, false).unwrap();
    assert_eq!(e.get(&user(2), NOW).unwrap(), Some(vec![3]));
    assert_eq!(e.get(&user(1), NOW).unwrap(), Some(vec![1]));
    assert_eq!(e.current_seq(), 2);
    // A deletion takes the place of a value, and a value that of a deletion.
    let log = vec![
        segment(1, vec![WalEntry::put(2, 0, user(2), vec![2]), WalEntry::del(3, user(3))]),
        segment(2, vec![WalEntry::del(2, user(2)), WalEntry::put(3, 0, user(3), vec![4])]),
    ];
    let mut e = Engine::open_files(EngineConfig::default(), 0, Vec::new(), &log, false).unwrap();
    assert_eq!(e.get(&user(2), NOW).unwrap(), None);
    assert_eq!(e.get(&user(3), NOW).unwrap(), Some(vec![4]));
}

#[test]
fn a_store_restored_to_a_point_in_time_opens_again_after_a_write() {
    let old = || {
        segment(
            1,
            vec![
                WalEntry::put(1, 0, user(1), vec![1]),
                WalEntry::put(2, 0, user(2), vec![2]),
                WalEntry::put(3, 0, user(3), vec![3]),
            ],
        )
    };
    let cfg = EngineConfig { wal_replay_max_seq: Some(1), ..EngineConfig::default() };
    let mut e = Engine::open_files(cfg, 0, Vec::new(), &vec![old()], false).unwrap();
    assert_eq!(e.get(&user(2), NOW).unwrap(), None);
    let n = e.put(user(2), vec![9], 0, GATE).unwrap();
    assert_eq!(n, 2);
    let log = vec![old(), segment(2, vec![WalEntry::put(n, 0, user(2), vec![9])])];
    let mut e = Engine::open_files(EngineConfig::default(), 0, Vec::new(), &log, false).unwrap();
    assert_eq!(e.get(&user(1), NOW).unwrap(), Some(vec![1]));
    assert_eq!(e.get(&user(2), NOW).unwrap(), Some(vec![9]));
    assert_eq!(e.current_seq(), 3);
}

#[test]
fn an_installed_segment_may_repeat_a_number() {
    let mut e = Engine::open(EngineConfig::default(), 0, Vec::new(), &Vec::new(), false).unwrap();
    let s =
        segment(7, vec![WalEntry::put(2, 0, user(1), vec![1]), WalEntry::put(2, 0, user(1), vec![2])]);
    assert_eq!(e.apply_installed_wal_segment(s).unwrap(), 2);
    assert_eq!(e.get(&user(1), NOW).unwrap(), Some(vec![2]));
    match e.apply_installed_wal_segment(segment(8, vec![WalEntry::del(u64::MAX, user(1))])) {
        Err(EngineError::Io(m)) => assert_eq!(m, "WAL: records too large"),
        other => panic!("{:?}", other),
    }
}
