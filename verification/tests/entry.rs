use zydecodb_engine::entry::Entry;

#[test]
fn tombstone_has_no_value() {
    let t = Entry::tombstone();
    assert!(t.is_tombstone());
    assert_eq!(t.value_len(), 0);
}

#[test]
fn value_entry_reports_len() {
    let e = Entry::value(b"hello".to_vec(), None);
    assert!(!e.is_tombstone());
    assert_eq!(e.value_len(), 5);
}

#[test]
fn expiry_logic() {
    let e = Entry::value(b"x".to_vec(), Some(100));
    assert!(!e.is_expired(50));
    assert!(!e.is_expired(100));
    assert!(e.is_expired(101));

    let no_expiry = Entry::value(b"x".to_vec(), None);
    assert!(!no_expiry.is_expired(u64::MAX));
}
