use zydecodb_engine::errors::EngineError;
use zydecodb_engine::manifest::{replay, ManifestRecord, SstableMeta};

fn meta(id: u64, max_seq: u64) -> SstableMeta {
    SstableMeta {
        id,
        level: 0,
        min_key: b"\x01a".to_vec(),
        max_key: b"\x01z".to_vec(),
        min_seq: 1,
        max_seq,
        size_bytes: 4096,
    }
}

#[test]
fn sstable_add_round_trips() {
    let rec = ManifestRecord::SstableAdd(meta(1, 100));
    let bytes = rec.encode();
    let (back, n) = ManifestRecord::decode_one(&bytes).unwrap().unwrap();
    assert_eq!(rec, back);
    assert_eq!(n, bytes.len());
}

#[test]
fn all_record_types_round_trip() {
    let recs = vec![
        ManifestRecord::SstableAdd(meta(2, 50)),
        ManifestRecord::SstableRemove { id: 2 },
        ManifestRecord::SeqCheckpoint {
            last_durable_seq: 123,
        },
        ManifestRecord::WalTruncate {
            up_to_segment_id: 3,
        },
    ];
    for r in recs {
        let bytes = r.encode();
        let (back, _) = ManifestRecord::decode_one(&bytes).unwrap().unwrap();
        assert_eq!(r, back);
    }
}

#[test]
fn replay_reconstructs_live_set() {
    let mut stream = Vec::new();
    stream.extend_from_slice(&ManifestRecord::SstableAdd(meta(1, 10)).encode());
    stream.extend_from_slice(&ManifestRecord::SstableAdd(meta(2, 20)).encode());
    stream.extend_from_slice(&ManifestRecord::SstableRemove { id: 1 }.encode());
    stream.extend_from_slice(
        &ManifestRecord::SeqCheckpoint {
            last_durable_seq: 25,
        }
        .encode(),
    );
    let state = replay(&stream).expect("clean stream replays without error");
    assert_eq!(state.live_sstables.len(), 1);
    assert_eq!(state.live_sstables[0].id, 2);
    assert_eq!(state.last_durable_seq, 25);
}

#[test]
fn replay_tolerates_torn_tail() {
    let mut stream = ManifestRecord::SstableAdd(meta(1, 10)).encode();
    stream.extend_from_slice(&[0x01, 0x00, 0x00]); // partial record
    let state = replay(&stream).expect("torn tail must not be an error");
    assert_eq!(state.live_sstables.len(), 1);
}

#[test]
fn replay_rejects_unknown_record_type() {
    // An intact record of an unknown type is refused, not taken for the end of
    // the stream.
    let mut stream = ManifestRecord::SstableAdd(meta(1, 10)).encode();
    let payload: &[u8] = &[];
    let rtype: u8 = 0xFF;
    let mut framed = Vec::new();
    framed.push(rtype);
    framed.extend_from_slice(&(payload.len() as u32).to_be_bytes());
    framed.extend_from_slice(payload);
    let crc = crc32fast::hash(&framed);
    framed.extend_from_slice(&crc.to_be_bytes());
    stream.extend_from_slice(&framed);

    let err = replay(&stream).expect_err("unknown record type must propagate");
    assert!(
        matches!(err, EngineError::UnsupportedFormat(_)),
        "expected UnsupportedFormat, got {:?}",
        err
    );
}

#[test]
fn crc_mismatch_detected() {
    let mut bytes = ManifestRecord::SstableRemove { id: 5 }.encode();
    let n = bytes.len();
    bytes[n - 5] ^= 0xFF;
    assert!(ManifestRecord::decode_one(&bytes).is_err());
}
