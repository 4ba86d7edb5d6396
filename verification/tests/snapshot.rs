use zydecodb_engine::snapshot::next_after_prefix;

#[test]
fn next_after_prefix_bumps_last_byte() {
    assert_eq!(next_after_prefix(b"abc"), b"abd".to_vec());
    assert_eq!(next_after_prefix(b"a\xFF"), b"b".to_vec());
    assert_eq!(next_after_prefix(b"\xFF\xFF"), Vec::<u8>::new());
}
