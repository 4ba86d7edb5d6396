use zydecodb_engine::entry::Entry;
use zydecodb_engine::harness::tenants::tenant_key;
use zydecodb_engine::keys::{EntryKind, InternalKey, KS_USER};
use zydecodb_engine::manifest::SstableMeta;
use zydecodb_engine::tenant_fair::{FairConfig, attribute_flush, attribute_removal, divide_table, TenantPart};

fn value(key: Vec<u8>, seq: u64, len: usize) -> (InternalKey, Entry) {
    (InternalKey::new(key, seq, EntryKind::Value), Entry::value(vec![0; len], None))
}

fn gone(key: Vec<u8>, seq: u64) -> (InternalKey, Entry) {
    (InternalKey::new(key, seq, EntryKind::Tombstone), Entry::tombstone())
}

fn part(t: u8, bytes: u64) -> TenantPart {
    TenantPart { tenant: [t; 16], bytes }
}

#[test]
fn a_flush_is_put_down_to_the_tenants_of_its_keys() {
    let pairs = vec![
        value(vec![KS_USER, 9], 1, 100),
        value(tenant_key(1, 1), 2, 10),
        gone(tenant_key(1, 2), 3),
        value(tenant_key(2, 1), 4, 0),
        value(tenant_key(2, 2), 5, 30),
    ];
    let parts = attribute_flush(&pairs);
    let got: Vec<(u8, u64)> = parts.iter().map(|p| (p.tenant[0], p.bytes)).collect();
    // A tombstone and an empty value count one byte.
    assert_eq!(got, vec![(1, 11), (2, 31)]);
    assert!(attribute_flush(&pairs[..1]).is_empty());
}

#[test]
fn a_new_table_is_divided_in_proportion() {
    let shares = divide_table(&vec![part(1, 10), part(2, 30), part(3, 5)], 100);
    let got: Vec<(u8, u64, u64, u64)> =
        shares.iter().map(|s| (s.tenant[0], s.released, s.files, s.bytes)).collect();
    assert_eq!(got, vec![(1, 10, 0, 22), (2, 30, 1, 66), (3, 5, 0, 11)]);
    assert!(shares.iter().map(|s| s.bytes).sum::<u64>() <= 100);
    // Of two equal parts the last one has the file.
    let shares = divide_table(&vec![part(1, 7), part(2, 7)], u64::MAX);
    assert_eq!((shares[0].files, shares[1].files), (0, 1));
    assert_eq!(shares[0].bytes, u64::MAX / 2);
    assert!(divide_table(&Vec::new(), 5).is_empty());
}

#[test]
fn removed_tables_of_level_zero_leave_their_tenants() {
    let meta = |id: u64, level: u8, min_key: Vec<u8>| SstableMeta {
        id,
        level,
        max_key: min_key.clone(),
        min_key,
        min_seq: 1,
        max_seq: 1,
        size_bytes: 10 * id,
    };
    let removed = vec![
        meta(1, 0, tenant_key(4, 1)),
        meta(2, 1, tenant_key(4, 2)),
        meta(3, 0, vec![KS_USER, 1]),
        meta(4, 0, tenant_key(5, 1)),
    ];
    let got: Vec<(u8, u64)> =
        attribute_removal(&removed).iter().map(|p| (p.tenant[0], p.bytes)).collect();
    assert_eq!(got, vec![(4, 10), (5, 40)]);
}

#[test]
fn a_tenant_within_its_part_is_never_held_back() {
    let cfg = FairConfig {
        tenant_count: 2,
        memtable_total_bytes: 100,
        cache_total_bytes: 40,
        l0_token_budget: 9,
    };
    assert_eq!(cfg.cache_floor().cache_floor_bytes, 20);
    assert_eq!((cfg.is_noisy(4), cfg.is_noisy(5)), (false, true));
    // Beyond its part a tenant is admitted while there is room.
    assert!(cfg.admits(40, 100, 10));
    assert!(!cfg.admits(40, 100, 11));
    assert!(cfg.admits(60, 90, 10));
    assert!(!cfg.admits(60, 91, 10));
    assert!(!cfg.admits(u64::MAX, u64::MAX, 1));
}
