use zydecodb_engine::errors::EngineError;
use zydecodb_engine::keys::WAL_SEGMENT_SIZE;
use zydecodb_engine::wal::{
    intact_len, largest_seq, read_segment, replay_segment_body, segment_filename, segment_header,
    should_roll, smallest_seq, ReplayOutcome, WalCommand, WalEntry, WalOp, SEGMENT_HEADER_LEN,
    WAL_FORMAT_VERSION,
};

fn batch() -> WalEntry {
    WalEntry {
        seq: 9,
        ops: vec![
            WalOp {
                command: WalCommand::Put,
                expires_at: 77,
                key: vec![1, 2],
                value: vec![3, 4, 5],
            },
            WalOp { command: WalCommand::Del, expires_at: 0, key: vec![1, 9], value: Vec::new() },
        ],
    }
}

fn body(entries: &[WalEntry]) -> Vec<u8> {
    let mut b = Vec::new();
    for e in entries {
        b.extend_from_slice(&e.encode());
    }
    b
}

#[test]
fn a_record_reads_back() {
    for e in [batch(), WalEntry::put(1, 0, vec![1], vec![]), WalEntry::del(u64::MAX, vec![1, 1])] {
        let mut bytes = e.encode();
        let len = bytes.len();
        bytes.extend_from_slice(&[1, 2, 3]);
        let (back, used) = WalEntry::decode_one(&bytes).unwrap().unwrap();
        assert_eq!(back, e);
        assert_eq!(used, len);
    }
}

#[test]
fn a_record_carries_a_checksum_of_its_payload() {
    let bytes = batch().encode();
    assert_eq!(&bytes[..8], &(bytes.len() as u64 - 12).to_be_bytes());
    assert_eq!(&bytes[8..12], &crc32fast::hash(&bytes[12..]).to_be_bytes());
}

#[test]
fn every_part_of_a_record_is_short() {
    let bytes = batch().encode();
    for n in 0..bytes.len() {
        assert!(WalEntry::decode_one(&bytes[..n]).unwrap().is_none(), "{}", n);
    }
}

#[test]
fn a_flipped_payload_byte_is_noticed() {
    let bytes = batch().encode();
    for at in 8..bytes.len() {
        let mut bad = bytes.clone();
        bad[at] ^= 1;
        assert!(WalEntry::decode_one(&bad).is_err(), "{}", at);
    }
}

#[test]
fn a_replay_gives_the_whole_records_before_a_torn_tail() {
    let entries = [WalEntry::put(1, 0, vec![1], vec![2]), WalEntry::del(2, vec![1]), batch()];
    let whole = body(&entries);
    let (got, outcome) = replay_segment_body(&whole);
    assert_eq!(got, entries);
    assert_eq!(outcome, ReplayOutcome::Clean);
    let keep = body(&entries[..2]).len();
    for n in keep + 1..whole.len() {
        let (got, outcome) = replay_segment_body(&whole[..n]);
        assert_eq!(got, entries[..2]);
        assert_eq!(outcome, ReplayOutcome::TornTail);
    }
    let mut bad = whole.clone();
    bad[keep + 13] ^= 1;
    let (got, outcome) = replay_segment_body(&bad);
    assert_eq!(got, entries[..2]);
    assert_ne!(outcome, ReplayOutcome::Clean);
}

#[test]
fn damage_before_the_end_is_corruption() {
    let entries = [WalEntry::put(1, 0, vec![1], vec![2]), WalEntry::del(2, vec![1])];
    let mut bytes = body(&entries);
    bytes[13] ^= 1;
    let (got, outcome) = replay_segment_body(&bytes);
    assert!(got.is_empty());
    assert_eq!(outcome, ReplayOutcome::Corruption);
}

#[test]
fn a_segment_starts_with_a_header() {
    let header = segment_header(258);
    assert_eq!(header.len(), SEGMENT_HEADER_LEN);
    assert_eq!(&header[..8], &258u64.to_be_bytes());
    assert_eq!(header[8], WAL_FORMAT_VERSION);
    let mut bytes = header.clone();
    bytes.extend_from_slice(&batch().encode());
    let s = read_segment(4, &bytes).unwrap();
    assert_eq!((s.id, s.entries.len(), s.outcome), (4, 1, ReplayOutcome::Clean));
    assert_eq!(intact_len(&bytes), bytes.len());
    let all = bytes.len();
    bytes.extend_from_slice(&[0, 0, 0]);
    assert_eq!(intact_len(&bytes), all);
}

#[test]
fn a_foreign_header_is_refused() {
    let mut bytes = segment_header(1);
    bytes[8] = 0x7f;
    assert!(matches!(read_segment(1, &bytes), Err(EngineError::Io(_))));
}

#[test]
fn sequence_bounds_of_records() {
    let entries = vec![WalEntry::del(5, vec![1]), WalEntry::del(3, vec![1])];
    assert_eq!(largest_seq(&entries), 5);
    assert_eq!(smallest_seq(&entries), Some(3));
    assert_eq!(largest_seq(&Vec::new()), 0);
    assert_eq!(smallest_seq(&Vec::new()), None);
}

#[test]
fn segments_roll_at_their_size() {
    assert!(!should_roll(0, WAL_SEGMENT_SIZE));
    assert!(should_roll(WAL_SEGMENT_SIZE, 1));
    assert!(segment_filename(1) < segment_filename(2));
    assert!(segment_filename(9) < segment_filename(10));
}
