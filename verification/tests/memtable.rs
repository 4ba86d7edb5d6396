use zydecodb_engine::entry::Entry;
use zydecodb_engine::keys::{EntryKind, InternalKey};
use zydecodb_engine::memtable::Memtable;

fn uk(k: &[u8]) -> Vec<u8> {
    let mut v = vec![zydecodb_engine::keys::KS_USER];
    v.extend_from_slice(k);
    v
}

#[test]
fn get_latest_returns_newest_seq() {
    let mut m = Memtable::new();
    m.insert(
        InternalKey::new(uk(b"a"), 1, EntryKind::Value),
        Entry::value(b"old".to_vec(), None),
    );
    m.insert(
        InternalKey::new(uk(b"a"), 2, EntryKind::Value),
        Entry::value(b"new".to_vec(), None),
    );
    let (k, e) = m.get_latest(&uk(b"a")).unwrap();
    assert_eq!(k.seq, 2);
    assert_eq!(e.value.as_deref(), Some(b"new".as_ref()));
}

#[test]
fn tombstone_shadows_value() {
    let mut m = Memtable::new();
    m.insert(
        InternalKey::new(uk(b"a"), 1, EntryKind::Value),
        Entry::value(b"v".to_vec(), None),
    );
    m.insert(
        InternalKey::new(uk(b"a"), 2, EntryKind::Tombstone),
        Entry::tombstone(),
    );
    let (k, e) = m.get_latest(&uk(b"a")).unwrap();
    assert_eq!(k.seq, 2);
    assert!(e.is_tombstone());
}

#[test]
fn size_accounting_grows_and_tracks() {
    let mut m = Memtable::new();
    assert_eq!(m.size_bytes(), 0);
    m.insert(
        InternalKey::new(uk(b"a"), 1, EntryKind::Value),
        Entry::value(vec![0u8; 100], None),
    );
    let after_one = m.size_bytes();
    assert!(after_one >= 100);
    m.insert(
        InternalKey::new(uk(b"b"), 2, EntryKind::Value),
        Entry::value(vec![0u8; 100], None),
    );
    assert!(m.size_bytes() > after_one);
}

#[test]
fn seq_bounds_tracked() {
    let mut m = Memtable::new();
    m.insert(
        InternalKey::new(uk(b"a"), 5, EntryKind::Value),
        Entry::value(b"x".to_vec(), None),
    );
    m.insert(
        InternalKey::new(uk(b"b"), 9, EntryKind::Value),
        Entry::value(b"y".to_vec(), None),
    );
    m.insert(
        InternalKey::new(uk(b"c"), 3, EntryKind::Value),
        Entry::value(b"z".to_vec(), None),
    );
    assert_eq!(m.min_seq(), 3);
    assert_eq!(m.max_seq(), 9);
}

#[test]
fn missing_key_returns_none() {
    let m = Memtable::new();
    assert!(m.get_latest(&uk(b"nope")).is_none());
}

#[test]
fn a_memtable_lists_the_last_entry_under_each_key() {
    let mut mt = Memtable::new();
    let key = |k: &[u8], seq: u64| InternalKey::new(uk(k), seq, EntryKind::Value);
    mt.insert(key(b"b", 4), Entry::value(b"1".to_vec(), None));
    mt.insert(key(b"a", 2), Entry::value(b"2".to_vec(), None));
    assert_eq!((mt.len(), mt.min_seq(), mt.max_seq()), (2, 2, 4));
    // An entry under the same key takes the place of the one before.
    mt.insert(key(b"b", 4), Entry::value(b"33".to_vec(), None));
    assert_eq!((mt.len(), mt.min_seq(), mt.max_seq()), (2, 2, 4));
    mt.insert(key(b"b", 9), Entry::value(b"4".to_vec(), None));
    let listed: Vec<(Vec<u8>, u64, Option<Vec<u8>>)> =
        mt.iter().iter().map(|p| (p.0.user_key.clone(), p.0.seq, p.1.value.clone())).collect();
    assert_eq!(
        listed,
        vec![
            (uk(b"a"), 2, Some(b"2".to_vec())),
            (uk(b"b"), 9, Some(b"4".to_vec())),
            (uk(b"b"), 4, Some(b"33".to_vec())),
        ]
    );
}
