use std::cell::Cell;
use zydecodb_engine::engine::write::WriteGate;
use zydecodb_engine::engine::{BatchOp, Engine, EngineConfig};
use zydecodb_engine::errors::{EngineError, EngineResult};
use zydecodb_engine::keys::{KS_SYSTEM, KS_USER};
use zydecodb_engine::policy::{WriteFacts, WritePolicy};
use zydecodb_engine::wal::{read_segment, segment_header, WalCommand, WalOp, WalSegment};

const NOW: u64 = 1_700_000_000_000;
const GATE: WriteGate = WriteGate { fair_on: false, noisy: false, admits: true };

fn uk(k: &[u8]) -> Vec<u8> {
    let mut v = vec![KS_USER];
    v.extend_from_slice(k);
    v
}

/// An engine with the files that its owner would keep for it.
struct Rig {
    e: Engine,
    /// The log segments by number.
    log: Vec<(u64, Vec<u8>)>,
    marker: Option<Vec<u8>>,
}

fn open_over(log: Vec<(u64, Vec<u8>)>, e: Option<Engine>, clean: bool) -> Rig {
    let tables = match e {
        Some(e) => e.layers.tables,
        None => Vec::new(),
    };
    let durable = tables.iter().map(|t| t.meta.max_seq).max().unwrap_or(0);
    let segments: Vec<WalSegment> =
        log.iter().map(|(id, bytes)| read_segment(*id, bytes).unwrap()).collect();
    let e = Engine::open(EngineConfig::default(), durable, tables, &segments, clean).unwrap();
    let mut log = log;
    log.push((e.active_wal_id, segment_header(e.seq_peek())));
    Rig { e, log, marker: None }
}

fn open_engine() -> Rig {
    open_over(Vec::new(), None, false)
}

impl Rig {
    fn write(&mut self, ops: Vec<WalOp>) -> EngineResult<u64> {
        let w = self.e.stage_write(ops);
        if w.seals {
            self.log.push((self.e.active_wal_id + 1, segment_header(w.entry.seq)));
        }
        self.log.last_mut().unwrap().1.extend_from_slice(&w.bytes);
        self.e.finish_write(w, Ok(()))
    }

    fn put(&mut self, key: Vec<u8>, value: Vec<u8>, expires_at: u64) -> EngineResult<u64> {
        self.e.prepare_put(&key, &value, GATE)?;
        self.write(vec![WalOp { command: WalCommand::Put, expires_at, key, value }])
    }

    fn del(&mut self, key: Vec<u8>) -> EngineResult<(bool, u64)> {
        self.e.prepare_del(&key, GATE)?;
        let existed = self.e.get(&key, NOW)?.is_some();
        let op = WalOp { command: WalCommand::Del, expires_at: 0, key, value: Vec::new() };
        Ok((existed, self.write(vec![op])?))
    }

    fn write_batch(&mut self, ops: Vec<BatchOp>) -> EngineResult<u64> {
        self.e.prepare_batch(&ops, GATE)?;
        let ops = ops
            .into_iter()
            .map(|op| match op {
                BatchOp::Put { key, value, expires_at } => {
                    WalOp { command: WalCommand::Put, expires_at, key, value }
                }
                BatchOp::Del { key } => {
                    WalOp { command: WalCommand::Del, expires_at: 0, key, value: Vec::new() }
                }
            })
            .collect();
        self.write(ops)
    }

    fn get(&mut self, key: &[u8]) -> EngineResult<Option<Vec<u8>>> {
        self.e.get(key, NOW)
    }

    /// Drops the segments that a flush has made needless.
    fn drop_segments(&mut self, freed: Option<u64>) {
        if let Some(up_to) = freed {
            let on_disk = self.log.iter().map(|s| s.0).collect();
            let gone = self.e.unlink_wal_segments_up_to(&on_disk, up_to);
            self.log.retain(|s| !gone.contains(&s.0));
        }
    }

    fn force_flush(&mut self) {
        let freed = self.e.force_flush().unwrap();
        self.drop_segments(freed);
    }

    fn roll(&mut self) {
        self.e.force_roll_wal_for_test();
        self.log.push((self.e.active_wal_id, segment_header(self.e.seq_peek())));
    }

    fn shutdown(&mut self) {
        let stopped = self.e.shutdown().unwrap();
        self.drop_segments(stopped.unlink_wal_up_to);
        self.marker = Some(stopped.marker);
    }

    /// Stops without a shutdown and opens again.
    fn reopen(self) -> Rig {
        let clean = self.marker.is_some();
        open_over(self.log, Some(self.e), clean)
    }
}

#[test]
fn engine_put_get_del_roundtrip() {
    let mut e = open_engine();
    e.put(uk(b"a"), b"1".to_vec(), 0).unwrap();
    assert_eq!(e.get(&uk(b"a")).unwrap(), Some(b"1".to_vec()));
    assert!(e.del(uk(b"a")).unwrap().0);
    assert_eq!(e.get(&uk(b"a")).unwrap(), None);
}

#[test]
fn engine_reserved_keyspace_rejected() {
    let mut e = open_engine();
    let sys_key = vec![KS_SYSTEM, b'x'];
    assert!(e.put(sys_key, b"v".to_vec(), 0).is_err());
}

#[test]
fn engine_recovery_restores_unflushed_data() {
    let mut e = open_engine();
    for i in 0..100u32 {
        let key = uk(format!("k{:03}", i).as_bytes());
        e.put(key, format!("v{}", i).into_bytes(), 0).unwrap();
    }
    // stop without flushing -> data only in the log
    let mut e = e.reopen();
    for i in 0..100u32 {
        let key = uk(format!("k{:03}", i).as_bytes());
        assert_eq!(
            e.get(&key).unwrap(),
            Some(format!("v{}", i).into_bytes()),
            "key {} lost",
            i
        );
    }
}

#[test]
fn engine_shutdown_writes_marker_and_open_consumes_it() {
    let mut e = open_engine();
    assert!(!e.e.was_clean_shutdown(), "fresh dir is not a clean boot");
    e.put(uk(b"k"), b"v".to_vec(), 0).unwrap();
    e.shutdown();
    assert!(e.marker.is_some(), "marker must be written on shutdown");

    // Reopen: marker present -> clean boot, then consumed.
    let mut e = e.reopen();
    assert!(e.e.was_clean_shutdown(), "reopen after shutdown is clean");
    assert!(e.marker.is_none(), "marker must be consumed on open");
    assert_eq!(e.get(&uk(b"k")).unwrap(), Some(b"v".to_vec()));

    // A second reopen without a shutdown in between is NOT clean.
    let e2 = e.reopen();
    assert!(!e2.e.was_clean_shutdown(), "reopen without prior shutdown is unclean");
}

#[test]
fn engine_policy_can_reject_and_record() {
    // Rejects any key whose raw suffix is "deny", and counts post_write calls.
    struct TestPolicy {
        writes: Cell<usize>,
    }
    impl WritePolicy for TestPolicy {
        fn looks_up(&self) -> bool {
            unreachable!()
        }
        fn allows(&self, _engine: Engine, _write: WriteFacts) -> bool {
            unreachable!()
        }
        fn refuses_with(&self, _engine: Engine, _write: WriteFacts, _e: EngineError) -> bool {
            unreachable!()
        }
        fn asked(&self, _before: Engine, _write: WriteFacts, _after: Engine) -> bool {
            unreachable!()
        }
        fn told(&self, _before: Engine, _write: WriteFacts, _after: Engine) -> bool {
            unreachable!()
        }
        fn needs_existing_len(&self) -> bool {
            false
        }
        fn pre_write(
            &self,
            _engine: &mut Engine,
            key: &[u8],
            _value_len: usize,
            _existing: Option<usize>,
            _is_delete: bool,
        ) -> EngineResult<()> {
            if key.ends_with(b"deny") {
                return Err(EngineError::PolicyRejected("denied by test".into()));
            }
            Ok(())
        }
        fn post_write(
            &self,
            _engine: &mut Engine,
            _key: &[u8],
            _value_len: usize,
            _existing: Option<usize>,
            _is_delete: bool,
        ) {
            self.writes.set(self.writes.get() + 1);
        }
    }

    let policy = TestPolicy { writes: Cell::new(0) };
    let mut e = open_engine();
    e.e.put_with_policy(&policy, uk(b"ok"), b"1".to_vec(), 0, GATE, NOW).unwrap();
    let err = e.e.put_with_policy(&policy, uk(b"deny"), b"2".to_vec(), 0, GATE, NOW).unwrap_err();
    assert!(matches!(err, EngineError::PolicyRejected(_)));
    // The denied write must not have persisted.
    assert_eq!(e.get(&uk(b"deny")).unwrap(), None);
    // Only the allowed put reached post_write.
    assert_eq!(policy.writes.get(), 1);
}

#[test]
fn engine_flush_then_recover_reads_from_sstable() {
    let mut e = open_engine();
    e.put(uk(b"persist"), b"yes".to_vec(), 0).unwrap();
    e.force_flush();
    assert_eq!(e.e.sstable_count(), 1);
    let mut e = e.reopen();
    assert_eq!(e.e.sstable_count(), 1);
    assert_eq!(e.get(&uk(b"persist")).unwrap(), Some(b"yes".to_vec()));
}

#[test]
fn engine_overwrite_after_flush_returns_new_value() {
    let mut e = open_engine();
    e.put(uk(b"k"), b"old".to_vec(), 0).unwrap();
    e.force_flush();
    e.put(uk(b"k"), b"new".to_vec(), 0).unwrap();
    assert_eq!(e.get(&uk(b"k")).unwrap(), Some(b"new".to_vec()));
}

#[test]
fn engine_delete_after_flush_returns_not_found() {
    let mut e = open_engine();
    e.put(uk(b"gone"), b"here".to_vec(), 0).unwrap();
    e.force_flush();
    e.del(uk(b"gone")).unwrap();
    assert_eq!(e.get(&uk(b"gone")).unwrap(), None);
}

#[test]
fn engine_delete_then_reflush_stays_deleted() {
    let mut e = open_engine();
    e.put(uk(b"gone"), b"here".to_vec(), 0).unwrap();
    e.force_flush();
    e.del(uk(b"gone")).unwrap();
    e.force_flush();
    assert_eq!(e.get(&uk(b"gone")).unwrap(), None);
    let mut e = e.reopen();
    assert_eq!(e.get(&uk(b"gone")).unwrap(), None);
}

#[test]
fn engine_expiry_makes_key_disappear() {
    let mut e = open_engine();
    let past = 1; // 1 ms after epoch, definitely expired
    e.put(uk(b"temp"), b"v".to_vec(), past).unwrap();
    assert_eq!(e.get(&uk(b"temp")).unwrap(), None);
}

#[test]
fn engine_seq_monotonic_across_restart() {
    let mut e = open_engine();
    e.put(uk(b"a"), b"1".to_vec(), 0).unwrap();
    e.put(uk(b"b"), b"2".to_vec(), 0).unwrap();
    let seq_after_first = e.e.seq_peek();
    let e = e.reopen();
    assert!(
        e.e.seq_peek() >= seq_after_first,
        "seq must not regress: {} vs {}",
        e.e.seq_peek(),
        seq_after_first
    );
}

#[test]
fn engine_sealed_segment_max_seq_cache_drives_truncation() {
    let mut e = open_engine();

    // Segment 1: two writes, then force seal. The cached max_seq for the
    // sealed segment must equal the seq of the last write in it.
    e.put(uk(b"a"), b"1".to_vec(), 0).unwrap();
    e.put(uk(b"b"), b"2".to_vec(), 0).unwrap();
    let seq_after_seg1 = e.e.seq_peek().saturating_sub(1);
    let seg1_id = e.e.active_wal_id;
    e.roll();

    // Segment 2.
    e.put(uk(b"c"), b"3".to_vec(), 0).unwrap();
    let seq_after_seg2 = e.e.seq_peek().saturating_sub(1);
    let seg2_id = e.e.active_wal_id;
    e.roll();

    // Segment 3 is the new active; nothing in it yet.
    let snap = e.e.sealed_segment_max_seq_snapshot();
    assert_eq!(
        snap,
        vec![(seg1_id, seq_after_seg1), (seg2_id, seq_after_seg2)],
        "cache must hold max seq for both sealed segments"
    );

    // A flush covers both: they are unlinked and leave the cache.
    e.put(uk(b"d"), b"4".to_vec(), 0).unwrap();
    let active_before_flush = e.e.active_wal_id;
    e.force_flush();
    assert_eq!(
        e.e.sealed_segment_max_seq_snapshot(),
        vec![],
        "covered sealed segments must be unlinked AND dropped from the cache"
    );
    // Active segment id must not change across flush; flush does not roll.
    assert_eq!(e.e.active_wal_id, active_before_flush);
}

#[test]
fn engine_write_batch_applies_all_ops() {
    let mut e = open_engine();
    e.write_batch(vec![
        BatchOp::Put { key: uk(b"a"), value: b"1".to_vec(), expires_at: 0 },
        BatchOp::Put { key: uk(b"b"), value: b"2".to_vec(), expires_at: 0 },
    ])
    .unwrap();
    assert_eq!(e.get(&uk(b"a")).unwrap(), Some(b"1".to_vec()));
    assert_eq!(e.get(&uk(b"b")).unwrap(), Some(b"2".to_vec()));
}

#[test]
fn engine_write_batch_rejects_duplicate_keys() {
    let mut e = open_engine();
    let err = e
        .write_batch(vec![
            BatchOp::Put { key: uk(b"dup"), value: b"1".to_vec(), expires_at: 0 },
            BatchOp::Put { key: uk(b"dup"), value: b"2".to_vec(), expires_at: 0 },
        ])
        .unwrap_err();
    assert!(matches!(err, EngineError::InvalidKey(_)));
    // Rejected before any mutation: nothing persisted.
    assert_eq!(e.get(&uk(b"dup")).unwrap(), None);
}

#[test]
fn engine_write_batch_empty_is_rejected() {
    let mut e = open_engine();
    assert!(e.write_batch(vec![]).is_err());
}

#[test]
fn engine_write_batch_policy_rejection_persists_nothing() {
    // Rejects any key whose raw suffix is "deny".
    struct DenyPolicy;
    impl WritePolicy for DenyPolicy {
        fn looks_up(&self) -> bool {
            unreachable!()
        }
        fn allows(&self, _engine: Engine, _write: WriteFacts) -> bool {
            unreachable!()
        }
        fn refuses_with(&self, _engine: Engine, _write: WriteFacts, _e: EngineError) -> bool {
            unreachable!()
        }
        fn asked(&self, _before: Engine, _write: WriteFacts, _after: Engine) -> bool {
            unreachable!()
        }
        fn told(&self, _before: Engine, _write: WriteFacts, _after: Engine) -> bool {
            unreachable!()
        }
        fn needs_existing_len(&self) -> bool {
            false
        }
        fn pre_write(
            &self,
            _engine: &mut Engine,
            key: &[u8],
            _value_len: usize,
            _existing: Option<usize>,
            _is_delete: bool,
        ) -> EngineResult<()> {
            if key.ends_with(b"deny") {
                return Err(EngineError::PolicyRejected("denied".into()));
            }
            Ok(())
        }
        fn post_write(
            &self,
            _engine: &mut Engine,
            _key: &[u8],
            _value_len: usize,
            _existing: Option<usize>,
            _is_delete: bool,
        ) {
        }
    }

    let mut e = open_engine();
    let err = e
        .e
        .write_batch_with_policy(
            &DenyPolicy,
            vec![
                BatchOp::Put { key: uk(b"ok"), value: b"1".to_vec(), expires_at: 0 },
                BatchOp::Put { key: uk(b"deny"), value: b"2".to_vec(), expires_at: 0 },
            ],
            GATE,
            NOW,
        )
        .unwrap_err();
    assert!(matches!(err, EngineError::PolicyRejected(_)));
    // The policy is asked for all operations before any mutation: even the op
    // preceding the rejected one must not have persisted.
    assert_eq!(e.get(&uk(b"ok")).unwrap(), None);
    assert_eq!(e.get(&uk(b"deny")).unwrap(), None);
}

#[test]
fn engine_write_batch_clean_recovery_replays_all() {
    let mut e = open_engine();
    e.put(uk(b"old"), b"x".to_vec(), 0).unwrap();
    e.write_batch(vec![
        BatchOp::Put { key: uk(b"a"), value: b"1".to_vec(), expires_at: 0 },
        BatchOp::Put { key: uk(b"b"), value: b"2".to_vec(), expires_at: 0 },
        BatchOp::Del { key: uk(b"old") },
    ])
    .unwrap();
    // stop without flush -> data only in the log
    let mut e = e.reopen();
    assert_eq!(e.get(&uk(b"a")).unwrap(), Some(b"1".to_vec()));
    assert_eq!(e.get(&uk(b"b")).unwrap(), Some(b"2".to_vec()));
    assert_eq!(e.get(&uk(b"old")).unwrap(), None);
}

#[test]
fn engine_write_batch_torn_recovery_is_all_or_nothing() {
    let mut e = open_engine();
    e.put(uk(b"keep"), b"v".to_vec(), 0).unwrap();
    e.write_batch(vec![
        BatchOp::Put { key: uk(b"a"), value: b"1".to_vec(), expires_at: 0 },
        BatchOp::Put { key: uk(b"b"), value: b"2".to_vec(), expires_at: 0 },
        BatchOp::Put { key: uk(b"c"), value: b"3".to_vec(), expires_at: 0 },
    ])
    .unwrap();
    e.e.sync_wal();

    // A torn batch write: the tail of the latest segment is cut off, so that the
    // single batch record is incomplete. The committed put before it stays intact.
    let last = &mut e.log.last_mut().unwrap().1;
    let len = last.len();
    last.truncate(len - 3);

    let mut e = e.reopen();
    // The committed single put survives; no op from the torn batch replays.
    assert_eq!(e.get(&uk(b"keep")).unwrap(), Some(b"v".to_vec()));
    assert_eq!(e.get(&uk(b"a")).unwrap(), None);
    assert_eq!(e.get(&uk(b"b")).unwrap(), None);
    assert_eq!(e.get(&uk(b"c")).unwrap(), None);
}

#[test]
fn engine_recovery_rebuilds_sealed_segment_cache() {
    // Two sealed segments and an active one with unflushed data: opening again
    // rebuilds the cache from the log.
    let mut e = open_engine();
    e.put(uk(b"a"), b"1".to_vec(), 0).unwrap();
    let sealed1 = e.e.active_wal_id;
    let max1 = e.e.seq_peek().saturating_sub(1);
    e.roll();
    e.put(uk(b"b"), b"2".to_vec(), 0).unwrap();
    let sealed2 = e.e.active_wal_id;
    let max2 = e.e.seq_peek().saturating_sub(1);
    e.roll();
    // leave a write in the new active too, no flush
    e.put(uk(b"c"), b"3".to_vec(), 0).unwrap();
    let e = e.reopen();
    let snap = e.e.sealed_segment_max_seq_snapshot();
    // The just-active segment from before is now sealed too, but the test only pins
    // the two that were rolled.
    assert!(
        snap.iter().any(|&(id, m)| id == sealed1 && m == max1),
        "seg1 missing from rebuilt cache: {:?}",
        snap
    );
    assert!(
        snap.iter().any(|&(id, m)| id == sealed2 && m == max2),
        "seg2 missing from rebuilt cache: {:?}",
        snap
    );
}
