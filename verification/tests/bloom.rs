use zydecodb_engine::bloom::BloomFilter;

#[test]
fn no_false_negatives() {
    let keys: Vec<Vec<u8>> = (0..1000u32).map(|i| i.to_be_bytes().to_vec()).collect();
    let bf = BloomFilter::build(&keys);
    for k in &keys {
        assert!(
            bf.maybe_contains(k),
            "must never report a present key absent"
        );
    }
}

#[test]
fn definite_absence_is_common() {
    let keys: Vec<Vec<u8>> = (0..1000u32).map(|i| i.to_be_bytes().to_vec()).collect();
    let bf = BloomFilter::build(&keys);
    let mut absent_detected = 0;
    for i in 1000..2000u32 {
        if !bf.maybe_contains(&i.to_be_bytes()) {
            absent_detected += 1;
        }
    }
    // With ~1% FP rate, the vast majority of absent keys should be detected.
    assert!(absent_detected > 900, "got {}", absent_detected);
}

#[test]
fn encode_decode_round_trips() {
    let keys: Vec<Vec<u8>> = (0..100u32).map(|i| i.to_be_bytes().to_vec()).collect();
    let bf = BloomFilter::build(&keys);
    let bytes = bf.encode();
    let back = BloomFilter::decode(&bytes).unwrap();
    for k in &keys {
        assert!(back.maybe_contains(k));
    }
}
