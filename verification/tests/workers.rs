use zydecodb_engine::apply_worker::{
    manifest_bytes, ApplyScheduler, ManifestSyncWindow, ReadyCatalogApply,
};
use zydecodb_engine::compaction::{CompactionConfig, CompactionJob, LevelScore};
use zydecodb_engine::compaction_worker::{
    execute_compaction, should_drop_at_compaction, DropRule,
};
use zydecodb_engine::entry::Entry;
use zydecodb_engine::flush_worker::execute_flush;
use zydecodb_engine::keys::{EntryKind, InternalKey};
use zydecodb_engine::manifest::{replay, ManifestRecord};
use zydecodb_engine::owned_snapshot::PinState;

fn value(k: u8, seq: u64) -> (InternalKey, Entry) {
    (InternalKey::new(vec![1, k], seq, EntryKind::Value), Entry::value(vec![seq as u8], None))
}

fn gone(k: u8, seq: u64) -> (InternalKey, Entry) {
    (InternalKey::new(vec![1, k], seq, EntryKind::Tombstone), Entry::tombstone())
}

fn job() -> CompactionJob {
    CompactionJob {
        inputs: vec![1, 2],
        input_level: 0,
        output_level: 1,
        priority_score: LevelScore { num: 2, den: 1 },
    }
}

fn kept(rule: DropRule) -> Vec<(InternalKey, Entry)> {
    let older = vec![value(1, 1), value(2, 2), value(3, 3)];
    let newer = vec![value(1, 6), gone(2, 5)];
    let cfg = CompactionConfig::default();
    let r = execute_compaction(job(), Vec::new(), vec![newer, older], &cfg, 10, rule);
    let all: Vec<(InternalKey, Entry)> =
        r.new_tables.iter().flat_map(|t| t.reader.full_iter().to_vec()).collect();
    assert_eq!(all.len() as u64 + r.versions_dropped + r.tombstones_dropped, 5);
    all
}

#[test]
fn a_compaction_merges_and_drops_by_its_rule() {
    // Nothing below the watermark: every version stays.
    let all = kept(DropRule { gc_watermark: 0, drop_tombstones: true });
    assert_eq!(all, vec![value(1, 6), value(1, 1), gone(2, 5), value(2, 2), value(3, 3)]);
    // Everything below it: one version of each key, and no tombstone.
    let all = kept(DropRule { gc_watermark: u64::MAX, drop_tombstones: true });
    assert_eq!(all, vec![value(1, 6), value(3, 3)]);
    // Tombstones stay where older versions may lie elsewhere.
    let all = kept(DropRule { gc_watermark: u64::MAX, drop_tombstones: false });
    assert_eq!(all, vec![value(1, 6), gone(2, 5), value(3, 3)]);
    // A reader at four still finds what it could see.
    let all = kept(DropRule { gc_watermark: 4, drop_tombstones: true });
    assert_eq!(all, vec![value(1, 6), value(1, 1), gone(2, 5), value(2, 2), value(3, 3)]);
}

#[test]
fn a_version_is_dropped_once_a_newer_one_was_seen() {
    let rule = DropRule { gc_watermark: 9, drop_tombstones: true };
    let mut seen = false;
    let (k, e) = value(1, 8);
    assert!(!should_drop_at_compaction(&k, &e, &rule, &mut seen));
    assert!(seen);
    let (k, e) = value(1, 7);
    assert!(should_drop_at_compaction(&k, &e, &rule, &mut seen));
    let mut seen = false;
    let (k, e) = gone(1, 8);
    assert!(should_drop_at_compaction(&k, &e, &rule, &mut seen));
    // What lies under the dropped tombstone goes with it.
    let (k, e) = value(1, 7);
    assert!(should_drop_at_compaction(&k, &e, &rule, &mut seen));
}

#[test]
fn compaction_output_is_split_at_the_target_size() {
    let run: Vec<(InternalKey, Entry)> = (0..50u8).map(|k| value(k, 1 + k as u64)).collect();
    let cfg = CompactionConfig { target_file_bytes: 200, ..CompactionConfig::default() };
    let rule = DropRule { gc_watermark: 0, drop_tombstones: false };
    let r = execute_compaction(job(), Vec::new(), vec![run.clone()], &cfg, 10, rule);
    assert!(r.new_tables.len() > 1);
    let ids: Vec<u64> = r.new_tables.iter().map(|t| t.meta.id).collect();
    assert_eq!(ids, (10..10 + ids.len() as u64).collect::<Vec<u64>>());
    assert!(r.new_tables.iter().all(|t| t.meta.level == 1));
    for pair in r.new_tables.windows(2) {
        assert!(pair[0].meta.max_key < pair[1].meta.min_key);
    }
    let all: Vec<(InternalKey, Entry)> =
        r.new_tables.iter().flat_map(|t| t.reader.full_iter().to_vec()).collect();
    assert_eq!(all, run);
}

#[test]
fn a_flush_describes_its_table() {
    let r = execute_flush(vec![value(1, 4), gone(2, 9), value(2, 3)], 7);
    assert_eq!((r.meta.id, r.meta.level), (7, 0));
    assert_eq!((r.meta.min_key.clone(), r.meta.max_key.clone()), (vec![1, 1], vec![1, 2]));
    assert_eq!((r.meta.min_seq, r.meta.max_seq, r.max_seq), (3, 9, 9));
    assert!(r.reader.might_contain(&[1, 1]));
    let (k, e) = r.reader.get_latest(&[1, 2]).unwrap();
    assert_eq!((k.seq, e.is_tombstone()), (9, true));
    let (k, _) = r.reader.newest_visible(&[1, 2], 8).unwrap();
    assert_eq!(k.seq, 3);
    assert!(r.reader.newest_visible(&[1, 2], 2).is_none());
}

fn empty_apply() -> ReadyCatalogApply {
    ReadyCatalogApply {
        manifest_records: Vec::new(),
        add_tables: Vec::new(),
        remove_sstable_ids: Vec::new(),
        unlink_wal_up_to: None,
        flush_max_seq: None,
        compaction: None,
    }
}

#[test]
fn applies_are_handed_back_in_order() {
    let mut s = ApplyScheduler::new();
    s.submit().unwrap();
    s.submit().unwrap();
    assert_eq!(s.pending_applies(), 2);
    s.complete(empty_apply());
    assert_eq!((s.pending_applies(), s.ready_count()), (1, 1));
    assert_eq!(s.drain_ready().len(), 1);
    assert_eq!(s.ready_count(), 0);
    s.fail();
    assert_eq!(s.pending_applies(), 0);
    assert!(s.take_failed());
    assert!(!s.take_failed());
    s.shutdown();
    assert!(s.submit().is_err());
}

#[test]
fn a_window_sums_and_keeps_the_largest() {
    let mut w = ManifestSyncWindow::default();
    w.record(3);
    w.record(9);
    w.record(1);
    assert_eq!(w.drain(), (3, 13, 9));
    assert_eq!(w.drain(), (0, 0, 0));
    w.record(u64::MAX);
    w.record(2);
    assert_eq!(w.drain().0, 2);
}

#[test]
fn appended_records_are_replayed() {
    let recs = vec![
        ManifestRecord::SeqCheckpoint { last_durable_seq: 5 },
        ManifestRecord::WalTruncate { up_to_segment_id: 3 },
    ];
    let state = replay(&manifest_bytes(&recs)).unwrap();
    assert_eq!((state.last_durable_seq, state.wal_truncated_up_to), (5, 3));
}

#[test]
fn pins_are_counted_and_released() {
    let mut p = PinState::new();
    assert!(p.no_snapshots());
    assert_eq!(p.gc_watermark(50), 50);
    assert!(p.has_room(&[1, 2], 10));
    p.acquire_pins(&[1, 2], 10);
    p.acquire_pins(&[2, 3], 20);
    assert_eq!(p.gc_watermark(50), 10);
    assert!(!p.try_unlink(2));
    assert!(p.try_unlink(4));
    assert!(p.release_pins(&[1, 2], 10).is_empty());
    assert_eq!(p.gc_watermark(50), 20);
    assert_eq!(p.release_pins(&[2, 3], 20), vec![2]);
    assert!(p.no_snapshots());
    assert!(p.try_unlink(2));
}

#[test]
fn the_last_level_has_no_filters_where_they_are_saved() {
    let rule = || DropRule { gc_watermark: 0, drop_tombstones: false };
    let absent = |save: bool, level: u8| {
        let cfg = CompactionConfig {
            optimize_filters_for_hits: save,
            ..CompactionConfig::default()
        };
        let job = CompactionJob { output_level: level, ..job() };
        let r = execute_compaction(job, Vec::new(), vec![vec![value(1, 1)]], &cfg, 1, rule());
        // Without a filter any key may be there.
        (0..200u8).filter(|k| !r.new_tables[0].reader.might_contain(&[9, *k])).count()
    };
    let last = CompactionConfig::default().max_level;
    assert_eq!(absent(true, last), 0);
    assert!(absent(true, last - 1) > 100);
    assert!(absent(false, last) > 100);
}

#[test]
fn releasing_pins_undoes_acquiring_them() {
    let mut p = PinState::new();
    p.acquire_pins(&[1, 2], 5);
    let before = (p.pin_counts.count(1), p.pin_counts.count(2), p.live_snapshot_seqs.count(5));
    p.acquire_pins(&[2, 3, 2], 5);
    assert_eq!((p.pin_counts.count(2), p.pin_counts.count(3)), (3, 1));
    assert!(p.release_pins(&[2, 3, 2], 5).is_empty());
    assert_eq!(
        (p.pin_counts.count(1), p.pin_counts.count(2), p.live_snapshot_seqs.count(5)),
        before
    );
    assert_eq!(p.pin_counts.count(3), 0);
    // Deferred tables are handed out in the order in which they were deferred.
    assert!(!p.try_unlink(2) && !p.try_unlink(1));
    assert_eq!(p.release_pins(&[1, 2], 5), vec![2, 1]);
    assert!(p.no_snapshots());
}
