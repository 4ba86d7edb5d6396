use std::sync::Arc;
use zydecodb_engine::block_cache::{BlockCache, BlockKey};
use zydecodb_engine::tenant_fair::FairShareState;

fn k(id: u64, off: u64) -> BlockKey {
    BlockKey::data(id, off)
}

#[test]
fn miss_then_hit() {
    let mut c = BlockCache::new(1024);
    assert!(c.get(k(1, 0)).is_none());
    c.insert(k(1, 0), Arc::new(vec![1, 2, 3]));
    assert_eq!(c.get(k(1, 0)).unwrap().as_slice(), &[1, 2, 3]);
}

#[test]
fn evicts_lru_when_full() {
    let mut c = BlockCache::new(50);
    c.insert(k(1, 0), Arc::new(vec![0u8; 40]));
    c.insert(k(2, 0), Arc::new(vec![0u8; 40]));
    // First entry should be gone.
    assert!(c.get(k(1, 0)).is_none());
    assert!(c.get(k(2, 0)).is_some());
}

#[test]
fn floor_skips_protected_tenant() {
    // A floor above tenant 1's share keeps its block protected.
    let fair = FairShareState { cache_floor_bytes: 100 };
    let mut c = BlockCache::new(60);
    c.with_fair(fair);

    let t1 = [1u8; 16];
    let t2 = [2u8; 16];
    // Tenant 1 under floor.
    c.insert_for_tenant(k(1, 0), Arc::new(vec![0u8; 40]), Some(t1));
    // Tenant 2 fills over capacity — should evict t2's own older blocks,
    // not t1 while t1 is floor-protected.
    c.insert_for_tenant(k(2, 0), Arc::new(vec![0u8; 40]), Some(t2));
    c.insert_for_tenant(k(2, 1), Arc::new(vec![0u8; 40]), Some(t2));
    assert!(
        c.get(k(1, 0)).is_some(),
        "floor-protected tenant block must survive eviction"
    );
}

#[test]
fn invalidate_clears() {
    let mut c = BlockCache::new(1024);
    c.insert(k(1, 0), Arc::new(vec![1]));
    c.invalidate_sstable(1);
    assert!(c.get(k(1, 0)).is_none());
}

#[test]
fn oversized_single_block_accepted() {
    let mut c = BlockCache::new(10);
    c.insert(k(1, 0), Arc::new(vec![0u8; 100]));
    assert!(c.get(k(1, 0)).is_some());
}

#[test]
fn stats_track_hits() {
    let mut c = BlockCache::new(1024);
    c.insert(k(1, 0), Arc::new(vec![1]));
    let _ = c.get(k(1, 0));
    let _ = c.get(k(9, 0));
    let s = c.stats();
    assert_eq!(s.hits, 1);
    assert_eq!(s.misses, 1);
}

#[test]
fn a_block_put_in_again_counts_once() {
    let mut c = BlockCache::new(100);
    c.insert(k(1, 0), Arc::new(vec![0u8; 60]));
    c.insert(k(1, 0), Arc::new(vec![1u8; 70]));
    let s = c.stats();
    assert_eq!((s.resident_bytes, s.resident_entries, s.evictions), (70, 1, 0));
    assert_eq!(c.get(k(1, 0)).unwrap()[0], 1);
    // Over capacity the block used least recently goes, and the new one is there.
    c.insert(k(2, 0), Arc::new(vec![2u8; 40]));
    let s = c.stats();
    assert_eq!((s.resident_bytes, s.resident_entries, s.evictions), (40, 1, 1));
    assert!(c.get(k(1, 0)).is_none());
    assert_eq!(c.get(k(2, 0)).unwrap().len(), 40);
}
