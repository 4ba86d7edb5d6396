use std::sync::Arc;
use zydecodb_engine::entry::Entry;
use zydecodb_engine::keys::{EntryKind, InternalKey};
use zydecodb_engine::reader_cache::ReaderCache;
use zydecodb_engine::sstable::SstableReader;

fn uk(s: &[u8]) -> Vec<u8> {
    s.to_vec()
}

fn table(i: u64) -> Arc<SstableReader> {
    let pairs = vec![(
        InternalKey::new(uk(format!("k{}", i).as_bytes()), 1, EntryKind::Value),
        Entry::value(b"v".to_vec(), None),
    )];
    Arc::new(SstableReader::build(pairs, false))
}

#[test]
fn evicts_lru_when_over_cap() {
    let mut rc = ReaderCache::new(2);
    for i in 0..3u64 {
        let _ = rc.get_or_open(i, Ok(table(i))).unwrap();
    }
    assert_eq!(rc.open_count(), 2);
    // touch id 0 so id 1 is LRU
    let _ = rc.get_or_open(0, Ok(table(0))).unwrap();
    let _ = rc.get_or_open(2, Ok(table(2))).unwrap();
    assert_eq!(rc.open_count(), 2);
    // id 1 should have been evicted; reopen works
    let r = rc.get_or_open(1, Ok(table(1))).unwrap();
    assert!(r.get_latest(&uk(b"k1")).is_some());
}

#[test]
fn pinned_entries_are_not_evicted() {
    let mut rc = ReaderCache::new(1);
    for i in 0..2u64 {
        rc.pin(i);
        let _ = rc.get_or_open(i, Ok(table(i))).unwrap();
    }
    assert_eq!(rc.open_count(), 2);
}
