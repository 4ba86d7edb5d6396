use zydecodb_engine::bloom::BloomFilter;
use zydecodb_engine::engine::jobs::INJECTED;
use zydecodb_engine::errors::EngineError;
use zydecodb_engine::failpoints::{failpoint_result, WAL_BEFORE_APPEND};
use zydecodb_engine::result_cache::ResultCache;
use zydecodb_engine::sorted_map::SortedMap;
use zydecodb_engine::tenant_fair::tenant_from_user_key;
use zydecodb_engine::text::{
    chars_of, contains_part, hex_text, lower_all, parse_number, push_padded, split_lines,
    split_words, text_with_number,
};

#[test]
fn a_bloom_filter_sets_the_bits_of_the_seeded_hashes() {
    let key = b"zydeco".to_vec();
    let bytes = BloomFilter::build(&[key.clone()]).encode();
    let num_bits = u32::from_be_bytes([bytes[0], bytes[1], bytes[2], bytes[3]]) as u64;
    assert!(num_bits > 0);
    let h1 = xxhash_rust::xxh3::xxh3_64_with_seed(&key, 0);
    let h2 = xxhash_rust::xxh3::xxh3_64_with_seed(&key, 0x9E37_79B9_7F4A_7C15);
    let mut want = vec![0u8; bytes.len() - 4];
    for i in 0..7u64 {
        let at = h1.wrapping_add(i.wrapping_mul(h2)) % num_bits;
        want[at as usize / 8] |= 1 << (at % 8);
    }
    assert_eq!(&bytes[4..], &want[..]);
    assert!(BloomFilter::decode(&bytes[..3]).is_none());
}

#[test]
fn a_sorted_map_keeps_its_keys_ascending() {
    let mut m = SortedMap::new();
    assert!(m.is_empty());
    m.insert(5, 1);
    m.insert(2, 7);
    m.insert(5, 3);
    m.increment(9);
    m.increment(9);
    assert_eq!(m.pairs(), &[(2, 7), (5, 3), (9, 2)]);
    assert_eq!((m.get(5), m.get(6)), (Some(3), None));
    assert_eq!((m.count(9), m.count(8)), (2, 0));
    assert_eq!(m.first_key(), Some(2));
    m.decrement(9);
    assert_eq!(m.count(9), 1);
    m.decrement(9);
    m.decrement(9);
    m.remove(2);
    m.remove(2);
    assert_eq!(m.pairs(), &[(5, 3)]);
}

#[test]
fn a_result_cache_stays_within_its_capacity() {
    let mut c = ResultCache::new(10);
    c.insert(vec![1], vec![0; 4]);
    c.insert(vec![2], vec![0; 4]);
    assert_eq!(c.resident_bytes(), 10);
    assert_eq!(c.get(&[1]), Some(vec![0; 4]));
    // The key that was asked for last stays.
    c.insert(vec![3], vec![1; 4]);
    assert_eq!(c.get(&[2]), None);
    assert_eq!(c.get(&[1]), Some(vec![0; 4]));
    assert_eq!(c.get(&[3]), Some(vec![1; 4]));
    assert_eq!(c.evictions(), 1);
    c.invalidate(&[3]);
    assert_eq!(c.get(&[3]), None);
    assert_eq!(c.resident_bytes(), 5);
}

#[test]
fn text_is_split_and_read() {
    let c = |s: &str| chars_of(s);
    assert_eq!(split_words(&c("  a bc\t d ")), vec![c("a"), c("bc"), c("d")]);
    assert_eq!(split_lines(&c("a\nb\nc")), vec![c("a"), c("b"), c("c")]);
    assert_eq!(split_lines(&c("a\n")), vec![c("a"), c("")]);
    assert_eq!(parse_number(&c("18446744073709551615")), Some(u64::MAX));
    assert_eq!(parse_number(&c("18446744073709551616")), None);
    assert_eq!(parse_number(&c("+7")), Some(7));
    assert_eq!(parse_number(&c("")), None);
    assert_eq!(parse_number(&c("7x")), None);
    assert_eq!(lower_all(&c("aBZ9")), c("abz9"));
    assert!(contains_part(&c("abcd"), &c("bc")));
    assert!(contains_part(&c("abcd"), &c("")));
    assert!(!contains_part(&c("abcd"), &c("bd")));
    assert_eq!(hex_text(&[0, 171, 255]), "00abff");
    assert_eq!(text_with_number("<", 0, ">"), "<0>");
    let mut s = String::from("k");
    push_padded(&mut s, 42, 5);
    push_padded(&mut s, 123, 2);
    assert_eq!(s, "k00042123");
}

#[test]
fn an_injected_failure_names_its_place() {
    assert!(failpoint_result(WAL_BEFORE_APPEND, false).is_ok());
    match failpoint_result(WAL_BEFORE_APPEND, true) {
        Err(EngineError::Io(m)) => {
            assert_eq!(m, format!("{}: wal::before_append", INJECTED));
        }
        other => panic!("{:?}", other),
    }
}

#[test]
fn a_tenant_is_the_sixteen_bytes_after_the_keyspace() {
    let mut key = vec![1u8];
    key.extend(0..16u8);
    key.push(9);
    assert_eq!(tenant_from_user_key(&key).unwrap().to_vec(), (0..16u8).collect::<Vec<u8>>());
    assert!(tenant_from_user_key(&key[..16]).is_none());
    key[0] = 0;
    assert!(tenant_from_user_key(&key).is_none());
}

#[test]
fn a_result_that_was_just_inserted_is_served() {
    let mut c = ResultCache::new(10);
    c.insert(vec![1], vec![1; 3]);
    c.insert(vec![2], vec![2; 3]);
    // The result used least recently goes first.
    assert_eq!(c.get(&[1]), Some(vec![1; 3]));
    c.insert(vec![3], vec![3; 3]);
    assert_eq!(c.get(&[3]), Some(vec![3; 3]));
    assert_eq!(c.get(&[2]), None);
    assert_eq!(c.get(&[1]), Some(vec![1; 3]));
    assert_eq!((c.evictions(), c.resident_bytes()), (1, 8));
    // One larger than the cache stays alone.
    c.insert(vec![4], vec![4; 50]);
    assert_eq!(c.get(&[4]), Some(vec![4; 50]));
    assert_eq!((c.evictions(), c.resident_bytes()), (3, 51));
    // A result in place of another counts once.
    c.insert(vec![4], vec![4; 2]);
    assert_eq!((c.evictions(), c.resident_bytes()), (3, 3));
}
