use zydecodb_engine::entry::Entry;
use zydecodb_engine::errors::EngineResult;
use zydecodb_engine::iter::{EntryIterator, MergeMode, MergingIterator, RunIter};
use zydecodb_engine::keys::{EntryKind, InternalKey};

fn ik(k: &[u8], seq: u64, kind: EntryKind) -> InternalKey {
    InternalKey::new(k.to_vec(), seq, kind)
}

fn src(pairs: Vec<(InternalKey, Entry)>) -> RunIter {
    RunIter::new(pairs)
}

fn collect(mut it: MergingIterator<RunIter>) -> EngineResult<Vec<(InternalKey, Entry)>> {
    let mut out = Vec::new();
    while let Some(pair) = it.next()? {
        out.push(pair);
    }
    Ok(out)
}

#[test]
fn raw_mode_yields_every_version_in_sorted_order() {
    let a = vec![
        (
            ik(b"a", 5, EntryKind::Value),
            Entry::value(b"new".to_vec(), None),
        ),
        (
            ik(b"a", 1, EntryKind::Value),
            Entry::value(b"old".to_vec(), None),
        ),
    ];
    let b = vec![(
        ik(b"b", 3, EntryKind::Value),
        Entry::value(b"x".to_vec(), None),
    )];
    let it = MergingIterator::new(vec![src(a), src(b)], MergeMode::Raw).unwrap();
    let got = collect(it).unwrap();
    assert_eq!(got.len(), 3);
    assert_eq!(got[0].0.user_key, b"a");
    assert_eq!(got[0].0.seq, 5);
    assert_eq!(got[1].0.user_key, b"a");
    assert_eq!(got[1].0.seq, 1);
    assert_eq!(got[2].0.user_key, b"b");
}

#[test]
fn dedup_keeps_only_newest_per_user_key() {
    let a = vec![(
        ik(b"k", 5, EntryKind::Value),
        Entry::value(b"new".to_vec(), None),
    )];
    let b = vec![(
        ik(b"k", 1, EntryKind::Value),
        Entry::value(b"old".to_vec(), None),
    )];
    let it = MergingIterator::new(vec![src(a), src(b)], MergeMode::Dedup).unwrap();
    let got = collect(it).unwrap();
    assert_eq!(got.len(), 1);
    assert_eq!(got[0].0.seq, 5);
    assert_eq!(got[0].1.value.as_deref(), Some(b"new".as_ref()));
}

#[test]
fn dedup_suppresses_keys_whose_newest_version_is_a_tombstone() {
    let a = vec![
        (ik(b"k", 9, EntryKind::Tombstone), Entry::tombstone()),
        (
            ik(b"k", 1, EntryKind::Value),
            Entry::value(b"v".to_vec(), None),
        ),
    ];
    let it = MergingIterator::new(vec![src(a)], MergeMode::Dedup).unwrap();
    let got = collect(it).unwrap();
    assert!(got.is_empty(), "tombstoned key must not surface in Dedup");
}

#[test]
fn raw_mode_preserves_tombstones_for_compaction() {
    let a = vec![
        (ik(b"k", 9, EntryKind::Tombstone), Entry::tombstone()),
        (
            ik(b"k", 1, EntryKind::Value),
            Entry::value(b"v".to_vec(), None),
        ),
    ];
    let it = MergingIterator::new(vec![src(a)], MergeMode::Raw).unwrap();
    let got = collect(it).unwrap();
    assert_eq!(got.len(), 2);
    assert_eq!(got[0].0.kind, EntryKind::Tombstone);
}

#[test]
fn interleaved_keys_from_many_sources_emerge_in_global_order() {
    let a = vec![
        (
            ik(b"a", 1, EntryKind::Value),
            Entry::value(b"1".to_vec(), None),
        ),
        (
            ik(b"c", 3, EntryKind::Value),
            Entry::value(b"3".to_vec(), None),
        ),
    ];
    let b = vec![
        (
            ik(b"b", 2, EntryKind::Value),
            Entry::value(b"2".to_vec(), None),
        ),
        (
            ik(b"d", 4, EntryKind::Value),
            Entry::value(b"4".to_vec(), None),
        ),
    ];
    let c = vec![(
        ik(b"e", 5, EntryKind::Value),
        Entry::value(b"5".to_vec(), None),
    )];
    let it = MergingIterator::new(vec![src(a), src(b), src(c)], MergeMode::Dedup).unwrap();
    let got = collect(it).unwrap();
    let keys: Vec<&[u8]> = got.iter().map(|(k, _)| k.user_key.as_slice()).collect();
    assert_eq!(
        keys,
        vec![&b"a"[..], &b"b"[..], &b"c"[..], &b"d"[..], &b"e"[..]]
    );
}

#[test]
fn empty_input_yields_nothing() {
    let it = MergingIterator::new(vec![], MergeMode::Dedup).unwrap();
    let got = collect(it).unwrap();
    assert!(got.is_empty());
}
