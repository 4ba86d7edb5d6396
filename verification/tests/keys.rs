use zydecodb_engine::keys::{
    validate_user_key, validate_value, EntryKind, InternalKey, KS_SYSTEM, KS_USER, MAX_KEY_BYTES,
    MAX_VALUE_BYTES,
};

fn ik(key: &[u8], seq: u64, kind: EntryKind) -> InternalKey {
    InternalKey::new(key.to_vec(), seq, kind)
}

#[test]
fn newer_seq_sorts_first_for_same_key() {
    let older = ik(b"foo", 1, EntryKind::Value);
    let newer = ik(b"foo", 2, EntryKind::Value);
    assert!(newer < older, "newer seq must sort before older seq");
}

#[test]
fn user_keys_sort_ascending() {
    let a = ik(b"aaa", 5, EntryKind::Value);
    let b = ik(b"bbb", 1, EntryKind::Value);
    assert!(a < b);
}

#[test]
fn tombstone_and_value_same_key_seq_are_ordered_deterministically() {
    let v = ik(b"k", 7, EntryKind::Value);
    let t = ik(b"k", 7, EntryKind::Tombstone);
    // Value (0x01) sorts before Tombstone (0x02) at equal key+seq.
    assert!(v < t);
}

#[test]
fn entrykind_round_trips() {
    assert_eq!(EntryKind::from_u8(0x01), Some(EntryKind::Value));
    assert_eq!(EntryKind::from_u8(0x02), Some(EntryKind::Tombstone));
    assert_eq!(EntryKind::from_u8(0x00), None);
    assert_eq!(EntryKind::Value.as_u8(), 0x01);
    assert_eq!(EntryKind::Tombstone.as_u8(), 0x02);
}

#[test]
fn validate_user_key_rejects_bad_keys() {
    assert!(validate_user_key(b"").is_err());
    assert!(validate_user_key(&[KS_SYSTEM, 1, 2]).is_err());
    assert!(validate_user_key(&[KS_USER, 1, 2]).is_ok());
    let too_big = vec![KS_USER; MAX_KEY_BYTES + 1];
    assert!(validate_user_key(&too_big).is_err());
}

#[test]
fn validate_value_rejects_oversize() {
    assert!(validate_value(&[0u8; 10]).is_ok());
    let too_big = vec![0u8; MAX_VALUE_BYTES + 1];
    assert!(validate_value(&too_big).is_err());
}
