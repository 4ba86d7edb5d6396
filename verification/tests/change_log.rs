use zydecodb_engine::change_log::{
    archive_segment, database_id_from_data_dir, is_archived, is_doc_body_key,
    iter_logical_changes_after, prune, read_segment_entries, reconcile_sealed_wal,
    ChangeLogConfig, ChangeLogManifest, LogicalChangeKind, ResumeToken,
};
use zydecodb_engine::errors::EngineError;
use zydecodb_engine::wal::{
    segment_filename, ReplayOutcome, WalCommand, WalEntry, WalOp, WalSegment, WAL_FORMAT_VERSION,
};

fn config(retention_secs: u64, retention_bytes: u64) -> ChangeLogConfig {
    ChangeLogConfig { archive_dir: String::from("archive"), retention_secs, retention_bytes }
}

fn file_of(records: &[WalEntry]) -> Vec<u8> {
    let mut f = Vec::new();
    f.extend_from_slice(&1u64.to_be_bytes());
    f.push(WAL_FORMAT_VERSION);
    for r in records {
        f.extend_from_slice(&r.encode());
    }
    f
}

#[test]
fn resume_token_round_trip() {
    let token = ResumeToken {
        database_id: [7u8; 16],
        tenant_prefix: b"\x01tenant".to_vec(),
        collection_id: 3,
        seq: 99,
        op_ordinal: 2,
    };
    let encoded = token.encode();
    assert_eq!(ResumeToken::decode(&encoded).unwrap(), token);
    let mut bad = encoded.clone();
    bad[5] ^= 0xff;
    assert!(ResumeToken::decode(&bad).is_err());
}

#[test]
fn resume_token_faults_are_told_apart() {
    let token = ResumeToken {
        database_id: [7u8; 16],
        tenant_prefix: b"\x01tenant".to_vec(),
        collection_id: 3,
        seq: 99,
        op_ordinal: 2,
    };
    let encoded = token.encode();
    assert_eq!(encoded.len(), 1 + 16 + 2 + 7 + 4 + 8 + 4 + 4);
    match ResumeToken::decode(&encoded[..20]) {
        Err(EngineError::Protocol(m)) => assert_eq!(m, "resume token truncated"),
        other => panic!("{:?}", other),
    }
    let mut old = encoded.clone();
    old[0] = 9;
    match ResumeToken::decode(&old) {
        Err(EngineError::Protocol(m)) => assert_eq!(m, "unsupported resume token version 9"),
        other => panic!("{:?}", other),
    }
    let mut flipped = encoded.clone();
    flipped[30] ^= 1;
    match ResumeToken::decode(&flipped) {
        Err(EngineError::Protocol(m)) => assert_eq!(m, "resume token checksum mismatch"),
        other => panic!("{:?}", other),
    }
}

#[test]
fn archive_before_manifest_and_logical_decode() {
    let db_id = [1u8; 16];
    let manifest = ChangeLogManifest::new(db_id);

    let prefix = b"\x01";
    let mut doc_key = prefix.to_vec();
    doc_key.push(b'd');
    doc_key.extend_from_slice(&5u32.to_be_bytes());
    doc_key.extend_from_slice(b"doc1");
    let mut idx_key = prefix.to_vec();
    idx_key.push(b'i');
    idx_key.extend_from_slice(&5u32.to_be_bytes());
    idx_key.extend_from_slice(&1u32.to_be_bytes());
    idx_key.extend_from_slice(b"x");
    idx_key.extend_from_slice(b"doc1");

    let batch = WalEntry {
        seq: 10,
        ops: vec![
            WalOp {
                command: WalCommand::Put,
                expires_at: 0,
                key: doc_key.clone(),
                value: vec![0x01, 1, 2, 3],
            },
            WalOp {
                command: WalCommand::Put,
                expires_at: 0,
                key: idx_key,
                value: b"doc1".to_vec(),
            },
        ],
    };
    let file = file_of(&[batch]);
    let segment = read_segment_entries(1, &file).unwrap();

    let manifest = archive_segment(&manifest, &segment, 10, file.len() as u64, 77).unwrap();
    assert!(is_archived(&manifest, 1));
    assert_eq!(manifest.segments[0].file_name, segment_filename(1));

    let read = vec![segment];
    let live = Vec::new();
    let changes = iter_logical_changes_after(&manifest, &read, &live, prefix, 5, 0, 0).unwrap();
    assert_eq!(changes.len(), 1);
    assert_eq!(changes[0].seq, 10);
    assert_eq!(changes[0].op_ordinal, 0);
    assert_eq!(changes[0].doc_id, b"doc1");
    assert_eq!(changes[0].kind, LogicalChangeKind::Upsert);

    // Exclusive resume after the event.
    let after = iter_logical_changes_after(&manifest, &read, &live, prefix, 5, 10, 0).unwrap();
    assert!(after.is_empty());
}

#[test]
fn prune_removes_old_segments() {
    let cfg = config(1, u64::MAX);
    let manifest = ChangeLogManifest::new([2u8; 16]);
    let now = 1_700_000_000_000;
    let first = file_of(&[WalEntry::put(1, 0, b"\x01d\0\0\0\x01a".to_vec(), b"v".to_vec())]);
    let second = file_of(&[WalEntry::put(2, 0, b"\x01d\0\0\0\x01b".to_vec(), b"v".to_vec())]);
    let seg1 = read_segment_entries(1, &first).unwrap();
    let seg2 = read_segment_entries(2, &second).unwrap();
    let mut manifest = archive_segment(&manifest, &seg1, 1, first.len() as u64, now).unwrap();
    // Backdate first segment.
    manifest.segments[0].sealed_unix_ms = 1;
    let mut manifest = archive_segment(&manifest, &seg2, 2, second.len() as u64, now).unwrap();
    let removed = prune(&cfg, &mut manifest, now);
    assert!(removed.len() >= 1);
    assert!(!manifest.contains_segment(1));
    assert!(manifest.contains_segment(2));
}

#[test]
fn prune_by_bytes_keeps_the_last_segment() {
    let cfg = config(0, 1);
    let manifest = ChangeLogManifest::new([3u8; 16]);
    let file = file_of(&[WalEntry::del(4, b"\x01x".to_vec())]);
    let a = read_segment_entries(1, &file).unwrap();
    let b = read_segment_entries(2, &file).unwrap();
    let manifest = archive_segment(&manifest, &a, 4, 100, 5).unwrap();
    let mut manifest = archive_segment(&manifest, &b, 4, 100, 5).unwrap();
    assert_eq!(manifest.total_bytes(), 200);
    let removed = prune(&cfg, &mut manifest, 5);
    assert_eq!(removed.len(), 1);
    assert_eq!(removed[0].segment_id, 1);
    assert_eq!(manifest.total_bytes(), 100);
}

#[test]
fn archiving_twice_changes_nothing() {
    let manifest = ChangeLogManifest::new([4u8; 16]);
    let file = file_of(&[WalEntry::put(6, 0, b"\x01k".to_vec(), b"v".to_vec())]);
    let s = read_segment_entries(9, &file).unwrap();
    let once = archive_segment(&manifest, &s, 6, 10, 1).unwrap();
    let twice = archive_segment(&once, &s, 6, 99, 2).unwrap();
    assert_eq!(once.segments, twice.segments);
    assert_eq!(once.earliest_seq(), Some(6));
    assert_eq!(once.latest_seq(), Some(6));
    assert_eq!(manifest.earliest_seq(), None);
}

#[test]
fn damaged_segments_are_not_archived() {
    let manifest = ChangeLogManifest::new([5u8; 16]);
    let s = WalSegment { id: 3, entries: Vec::new(), outcome: ReplayOutcome::TornTail };
    match archive_segment(&manifest, &s, 1, 1, 1) {
        Err(EngineError::Io(m)) => {
            assert_eq!(m, "change_log: refusing to archive damaged segment 3")
        }
        other => panic!("{:?}", other),
    }
}

#[test]
fn archived_files_are_read_with_their_version() {
    let short = read_segment_entries(1, b"12345678").unwrap();
    assert!(short.entries.is_empty());
    assert_eq!(short.outcome, ReplayOutcome::TornTail);
    let mut file = file_of(&[]);
    file[8] = 7;
    match read_segment_entries(1, &file) {
        Err(EngineError::Io(m)) => {
            assert_eq!(m, "change_log: unsupported WAL format version 7")
        }
        other => panic!("{:?}", other),
    }
}

#[test]
fn document_keys_are_recognised() {
    let mut key = b"\x01t".to_vec();
    key.push(b'd');
    key.extend_from_slice(&5u32.to_be_bytes());
    key.extend_from_slice(b"id");
    assert!(is_doc_body_key(&key, b"\x01t", 5));
    assert!(!is_doc_body_key(&key, b"\x01t", 6));
    assert!(!is_doc_body_key(&key, b"\x01u", 5));
    assert!(!is_doc_body_key(b"\x01td", b"\x01t", 5));
}

#[test]
fn changes_resume_within_a_batch() {
    let manifest = ChangeLogManifest::new([6u8; 16]);
    let doc = |name: &[u8]| {
        let mut k = b"\x01d".to_vec();
        k.extend_from_slice(&1u32.to_be_bytes());
        k.extend_from_slice(name);
        k
    };
    let live = vec![WalEntry {
        seq: 3,
        ops: vec![
            WalOp { command: WalCommand::Put, expires_at: 0, key: doc(b"a"), value: vec![1] },
            WalOp { command: WalCommand::Del, expires_at: 0, key: doc(b"b"), value: vec![] },
        ],
    }];
    let read = Vec::new();
    let all = iter_logical_changes_after(&manifest, &read, &live, b"\x01", 1, 0, 0).unwrap();
    assert_eq!(all.len(), 2);
    assert_eq!(all[1].kind, LogicalChangeKind::Delete);
    let rest = iter_logical_changes_after(&manifest, &read, &live, b"\x01", 1, 3, 0).unwrap();
    assert_eq!(rest.len(), 1);
    assert_eq!(rest[0].doc_id, b"b");
}

#[test]
fn database_ids_follow_the_directory() {
    let a = database_id_from_data_dir(b"/data/a");
    let b = database_id_from_data_dir(b"/data/b");
    assert_eq!(a, database_id_from_data_dir(b"/data/a"));
    assert_ne!(a, b);
    assert_eq!(ChangeLogManifest::new(a).database_id().unwrap(), a);
}

#[test]
fn reconciling_archives_all_but_the_active_segment() {
    let manifest = ChangeLogManifest::new([8u8; 16]);
    let file = file_of(&[WalEntry::put(2, 0, b"\x01k".to_vec(), b"v".to_vec())]);
    let segments: Vec<WalSegment> =
        (1..=3).map(|id| read_segment_entries(id, &file).unwrap()).collect();
    let sizes = vec![10, 20, 30];
    let m = reconcile_sealed_wal(&manifest, &segments, &sizes, Some(3), 1).unwrap();
    assert!(m.contains_segment(1));
    assert!(m.contains_segment(2));
    assert!(!m.contains_segment(3));
    assert_eq!(m.total_bytes(), 30);
}

#[test]
fn a_later_position_gives_the_rest_of_the_stream() {
    let manifest = ChangeLogManifest::new([6u8; 16]);
    let doc = |name: u8| {
        let mut k = b"\x01d".to_vec();
        k.extend_from_slice(&1u32.to_be_bytes());
        k.push(name);
        k
    };
    let put = |key: Vec<u8>| WalOp { command: WalCommand::Put, expires_at: 0, key, value: vec![1] };
    let live = vec![
        WalEntry { seq: 2, ops: vec![put(vec![1, 9]), put(doc(1)), put(doc(2))] },
        WalEntry { seq: 5, ops: vec![put(doc(3)), put(vec![1, 9]), put(doc(4))] },
    ];
    let read = Vec::new();
    let after = |seq: u64, ord: u32| {
        let changes =
            iter_logical_changes_after(&manifest, &read, &live, b"\x01", 1, seq, ord).unwrap();
        changes.iter().map(|c| (c.seq, c.op_ordinal)).collect::<Vec<(u64, u32)>>()
    };
    let all = after(0, 0);
    // Operations on other keys count among the ordinals.
    assert_eq!(all, vec![(2, 1), (2, 2), (5, 0), (5, 2)]);
    for &(seq, ord) in &[(1, 7), (2, 0), (2, 1), (2, 9), (5, 0), (5, 2), (6, 0)] {
        let rest: Vec<(u64, u32)> = all.iter().copied().filter(|&p| p > (seq, ord)).collect();
        assert_eq!(after(seq, ord), rest, "after {:?}", (seq, ord));
    }
}
