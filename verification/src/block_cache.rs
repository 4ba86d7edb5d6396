//! The bounded cache of table blocks that all readers share.
//!
//! A block is identified by its table and its offset there. Blocks of a table
//! never change, so a cached block is valid until the table goes away. Eviction
//! takes the block that was used least recently, but passes over the blocks of
//! tenants that hold no more than their guaranteed share.

use std::sync::Arc;
use vstd::prelude::*;
use crate::bytes::bytes_eq;
use crate::tenant_fair::{FairShareState, TenantId};

verus! {

/// A cached block.
pub type CachedBlock = Arc<Vec<u8>>;

/// The identity of a block.
#[derive(Debug, Clone, Copy, Hash, PartialEq, Eq, Structural)]
pub struct BlockKey {
    pub sstable_id: u64,
    pub block_offset: u64,
}

impl BlockKey {
    pub fn data(sstable_id: u64, block_offset: u64) -> (k: Self)
        ensures
            k == (BlockKey { sstable_id, block_offset }),
    {
        BlockKey { sstable_id, block_offset }
    }
}

/// A resident block.
struct Slot {
    key: BlockKey,
    bytes: CachedBlock,
    last_access: u64,
    owner: Option<TenantId>,
}

/// What a resident block holds.
pub struct SlotView {
    pub key: BlockKey,
    pub bytes: Seq<u8>,
    /// The tick of the last use; larger is more recent.
    pub last_access: u64,
    pub owner: Option<Seq<u8>>,
}

impl View for Slot {
    type V = SlotView;

    closed spec fn view(&self) -> SlotView {
        SlotView {
            key: self.key,
            bytes: self.bytes@,
            last_access: self.last_access,
            owner: match self.owner {
                Some(t) => Some(t@),
                None => None,
            },
        }
    }
}

/// The bytes of the tenant that owns a block, where one does.
pub open spec fn owner_view(owner: Option<TenantId>) -> Option<Seq<u8>> {
    match owner {
        Some(t) => Some(t@),
        None => None,
    }
}

/// A number as a 64-bit counter shows it.
pub open spec fn wrapped(n: int) -> u64 {
    (n % 0x1_0000_0000_0000_0000) as u64
}

fn count(c: u64, by: u64) -> (r: u64)
    ensures
        r == wrapped(c + by),
{
    c.wrapping_add(by)
}

/// The bytes of all slots.
pub open spec fn resident(s: Seq<SlotView>) -> nat
    decreases s.len(),
{
    if s.len() == 0 {
        0
    } else {
        resident(s.drop_last()) + s.last().bytes.len()
    }
}

/// The bytes of the slots that `tenant` owns.
pub open spec fn held_by(s: Seq<SlotView>, tenant: Seq<u8>) -> nat
    decreases s.len(),
{
    if s.len() == 0 {
        0
    } else {
        held_by(s.drop_last(), tenant) + (if s.last().owner == Some(tenant) {
            s.last().bytes.len()
        } else {
            0
        })
    }
}

/// Eviction passes over `slot`: its owner holds no more than the floor.
pub open spec fn is_protected(s: Seq<SlotView>, floor: Option<u64>, slot: SlotView) -> bool {
    floor matches Some(f) && slot.owner matches Some(t) && held_by(s, t) <= f
}

/// The number of protected slots among the first `n`.
pub open spec fn protected_count(s: Seq<SlotView>, floor: Option<u64>, n: int) -> nat
    decreases n,
{
    if n <= 0 {
        0
    } else {
        protected_count(s, floor, n - 1) + (if is_protected(s, floor, s[n - 1]) {
            1nat
        } else {
            0nat
        })
    }
}

/// The index of the unprotected slot among the first `n` that was used least
/// recently, or -1.
pub open spec fn victim(s: Seq<SlotView>, floor: Option<u64>, n: int) -> int
    decreases n,
{
    if n <= 0 {
        -1
    } else {
        let b = victim(s, floor, n - 1);
        if is_protected(s, floor, s[n - 1]) {
            b
        } else if b < 0 || s[n - 1].last_access < s[b].last_access {
            n - 1
        } else {
            b
        }
    }
}

/// The slots that are left once eviction has brought the cache within its
/// capacity, or as close to it as protection allows. The last slot always stays.
pub open spec fn evicted(s: Seq<SlotView>, capacity: nat, floor: Option<u64>) -> Seq<SlotView>
    decreases s.len(),
{
    let v = victim(s, floor, s.len() as int);
    if resident(s) > capacity && s.len() > 1 && 0 <= v < s.len() {
        evicted(s.remove(v), capacity, floor)
    } else {
        s
    }
}

/// How often eviction passes over a protected slot.
pub open spec fn skips(s: Seq<SlotView>, capacity: nat, floor: Option<u64>) -> nat
    decreases s.len(),
{
    if resident(s) > capacity && s.len() > 1 {
        let v = victim(s, floor, s.len() as int);
        let here = protected_count(s, floor, s.len() as int);
        if 0 <= v < s.len() {
            here + skips(s.remove(v), capacity, floor)
        } else {
            here
        }
    } else {
        0
    }
}

/// The slots other than that of `key`.
pub open spec fn without_key(s: Seq<SlotView>, key: BlockKey) -> Seq<SlotView>
    decreases s.len(),
{
    if s.len() == 0 {
        Seq::empty()
    } else if s.last().key == key {
        without_key(s.drop_last(), key)
    } else {
        without_key(s.drop_last(), key).push(s.last())
    }
}

/// The slots of tables other than `id`.
pub open spec fn without_table(s: Seq<SlotView>, id: u64) -> Seq<SlotView>
    decreases s.len(),
{
    if s.len() == 0 {
        Seq::empty()
    } else if s.last().key.sstable_id == id {
        without_table(s.drop_last(), id)
    } else {
        without_table(s.drop_last(), id).push(s.last())
    }
}

/// `key` is resident.
pub open spec fn has_key(s: Seq<SlotView>, key: BlockKey) -> bool {
    exists|i: int| 0 <= i < s.len() && (#[trigger] s[i]).key == key
}

/// No two slots hold the same block.
pub open spec fn keys_distinct(s: Seq<SlotView>) -> bool {
    forall|i: int, j: int|
        0 <= i < j < s.len() ==> (#[trigger] s[i]).key != (#[trigger] s[j]).key
}

pub proof fn resident_remove(s: Seq<SlotView>, i: int)
    requires
        0 <= i < s.len(),
    ensures
        resident(s.remove(i)) + s[i].bytes.len() == resident(s),
    decreases s.len(),
{
    if i == s.len() - 1 {
        assert(s.remove(i) =~= s.drop_last());
    } else {
        assert(s.remove(i).drop_last() =~= s.drop_last().remove(i));
        assert(s.remove(i).last() == s.last());
        resident_remove(s.drop_last(), i);
    }
}

pub proof fn held_by_remove(s: Seq<SlotView>, i: int, t: Seq<u8>)
    requires
        0 <= i < s.len(),
    ensures
        held_by(s.remove(i), t) + (if s[i].owner == Some(t) {
            s[i].bytes.len()
        } else {
            0
        }) == held_by(s, t),
    decreases s.len(),
{
    if i == s.len() - 1 {
        assert(s.remove(i) =~= s.drop_last());
    } else {
        assert(s.remove(i).drop_last() =~= s.drop_last().remove(i));
        assert(s.remove(i).last() == s.last());
        held_by_remove(s.drop_last(), i, t);
    }
}

pub(crate) proof fn victim_is_unprotected(s: Seq<SlotView>, floor: Option<u64>, n: int)
    requires
        0 <= n <= s.len(),
    ensures
        -1 <= victim(s, floor, n) < n || n == 0,
        victim(s, floor, n) >= 0 ==> !is_protected(s, floor, s[victim(s, floor, n)]),
        victim(s, floor, n) < 0 ==> forall|j: int|
            0 <= j < n ==> is_protected(s, floor, #[trigger] s[j]),
        forall|j: int|
            0 <= j < n && !is_protected(s, floor, #[trigger] s[j]) ==> victim(s, floor, n) >= 0
                && s[victim(s, floor, n)].last_access <= s[j].last_access,
    decreases n,
{
    if n > 0 {
        victim_is_unprotected(s, floor, n - 1);
    }
}

/// A tenant that holds no more than its floor loses no block to eviction.
pub proof fn protected_blocks_survive(
    s: Seq<SlotView>,
    capacity: nat,
    floor: Option<u64>,
    slot: SlotView,
)
    requires
        s.contains(slot),
        is_protected(s, floor, slot),
    ensures
        evicted(s, capacity, floor).contains(slot),
    decreases s.len(),
{
    let v = victim(s, floor, s.len() as int);
    victim_is_unprotected(s, floor, s.len() as int);
    if resident(s) > capacity && s.len() > 1 && 0 <= v < s.len() {
        let i = choose|i: int| 0 <= i < s.len() && s[i] == slot;
        assert(i != v);
        let t = s.remove(v);
        if i < v {
            assert(t[i] == slot);
        } else {
            assert(t[i - 1] == slot);
        }
        held_by_remove(s, v, slot.owner.unwrap());
        protected_blocks_survive(t, capacity, floor, slot);
    }
}

/// Eviction brings the cache within its capacity, unless a single block is left
/// or all that are left are protected.
pub proof fn eviction_reaches_capacity(s: Seq<SlotView>, capacity: nat, floor: Option<u64>)
    ensures
        ({
            let e = evicted(s, capacity, floor);
            ||| resident(e) <= capacity
            ||| e.len() <= 1
            ||| forall|j: int| 0 <= j < e.len() ==> is_protected(e, floor, #[trigger] e[j])
        }),
    decreases s.len(),
{
    let v = victim(s, floor, s.len() as int);
    victim_is_unprotected(s, floor, s.len() as int);
    if resident(s) > capacity && s.len() > 1 && 0 <= v < s.len() {
        eviction_reaches_capacity(s.remove(v), capacity, floor);
    }
}

/// A block that was used more recently than all others is evicted only where
/// every block that stays is protected.
pub proof fn newest_block_survives(
    s: Seq<SlotView>,
    capacity: nat,
    floor: Option<u64>,
    slot: SlotView,
)
    requires
        s.contains(slot),
        forall|i: int|
            0 <= i < s.len() && #[trigger] s[i] != slot ==> s[i].last_access < slot.last_access,
    ensures
        ({
            let e = evicted(s, capacity, floor);
            ||| e.contains(slot)
            ||| forall|j: int| 0 <= j < e.len() ==> is_protected(e, floor, #[trigger] e[j])
        }),
    decreases s.len(),
{
    let n = s.len() as int;
    let v = victim(s, floor, n);
    victim_is_unprotected(s, floor, n);
    if resident(s) > capacity && s.len() > 1 && 0 <= v < s.len() {
        let t = s.remove(v);
        if s[v] == slot {
            if t.contains(slot) {
                assert forall|i: int| 0 <= i < t.len() && #[trigger] t[i] != slot implies
                    t[i].last_access < slot.last_access by {
                    assert(t[i] == s[if i < v {
                        i
                    } else {
                        i + 1
                    }]);
                }
                newest_block_survives(t, capacity, floor, slot);
            } else {
                assert forall|j: int| 0 <= j < t.len() implies is_protected(
                    t,
                    floor,
                    #[trigger] t[j],
                ) by {
                    let i = if j < v {
                        j
                    } else {
                        j + 1
                    };
                    assert(t[j] == s[i]);
                    assert(t.contains(t[j]));
                    assert(s[i] != slot);
                    assert(is_protected(s, floor, s[i]));
                    held_by_remove(s, v, s[i].owner.unwrap());
                }
                victim_is_unprotected(t, floor, t.len() as int);
                assert(evicted(t, capacity, floor) == t);
            }
        } else {
            let i = choose|i: int| 0 <= i < s.len() && s[i] == slot;
            if i < v {
                assert(t[i] == slot);
            } else {
                assert(t[i - 1] == slot);
            }
            assert forall|i: int| 0 <= i < t.len() && #[trigger] t[i] != slot implies
                t[i].last_access < slot.last_access by {
                assert(t[i] == s[if i < v {
                    i
                } else {
                    i + 1
                }]);
            }
            newest_block_survives(t, capacity, floor, slot);
        }
    }
}

/// Eviction adds nothing, keeps blocks distinct and never leaves an occupied
/// cache empty.
pub proof fn eviction_only_removes(s: Seq<SlotView>, capacity: nat, floor: Option<u64>)
    ensures
        forall|x: SlotView| #[trigger] evicted(s, capacity, floor).contains(x) ==> s.contains(x),
        keys_distinct(s) ==> keys_distinct(evicted(s, capacity, floor)),
        evicted(s, capacity, floor).len() <= s.len(),
        s.len() > 0 ==> evicted(s, capacity, floor).len() > 0,
        resident(evicted(s, capacity, floor)) <= resident(s),
    decreases s.len(),
{
    let v = victim(s, floor, s.len() as int);
    if resident(s) > capacity && s.len() > 1 && 0 <= v < s.len() {
        let t = s.remove(v);
        eviction_only_removes(t, capacity, floor);
        resident_remove(s, v);
        assert forall|x: SlotView| #[trigger] evicted(s, capacity, floor).contains(
            x,
        ) implies s.contains(x) by {
            assert(t.contains(x));
            let i = choose|i: int| 0 <= i < t.len() && t[i] == x;
            assert(s[if i < v {
                i
            } else {
                i + 1
            }] == x);
        }
        if keys_distinct(s) {
            assert forall|i: int, j: int| 0 <= i < j < t.len() implies (#[trigger] t[i]).key != (
            #[trigger] t[j]).key by {
                let a = if i < v {
                    i
                } else {
                    i + 1
                };
                let b = if j < v {
                    j
                } else {
                    j + 1
                };
                assert(s[a].key != s[b].key);
            }
        }
    }
}

pub proof fn without_key_facts(s: Seq<SlotView>, key: BlockKey)
    ensures
        !has_key(without_key(s, key), key),
        forall|x: SlotView|
            #[trigger] without_key(s, key).contains(x) <==> s.contains(x) && x.key != key,
        keys_distinct(s) ==> keys_distinct(without_key(s, key)),
        resident(without_key(s, key)) <= resident(s),
        without_key(s, key).len() <= s.len(),
    decreases s.len(),
{
    if s.len() > 0 {
        let rest = without_key(s.drop_last(), key);
        let out = without_key(s, key);
        without_key_facts(s.drop_last(), key);
        if s.last().key != key {
            assert(out.drop_last() =~= rest);
        }
        assert forall|x: SlotView| #[trigger] out.contains(x) <==> s.contains(x) && x.key
            != key by {
            if out.contains(x) {
                let i = choose|i: int| 0 <= i < out.len() && out[i] == x;
                if i < rest.len() {
                    assert(rest[i] == x);
                    assert(rest.contains(x));
                    let j = choose|j: int| 0 <= j < s.drop_last().len() && s.drop_last()[j] == x;
                    assert(s[j] == x);
                } else {
                    assert(s[s.len() - 1] == x);
                }
            }
            if s.contains(x) && x.key != key {
                let j = choose|j: int| 0 <= j < s.len() && s[j] == x;
                if j < s.len() - 1 {
                    assert(s.drop_last()[j] == x);
                    assert(rest.contains(x));
                    let i = choose|i: int| 0 <= i < rest.len() && rest[i] == x;
                    assert(out[i] == x);
                } else {
                    assert(out[out.len() - 1] == x);
                }
            }
        }
        if has_key(out, key) {
            let i = choose|i: int| 0 <= i < out.len() && (#[trigger] out[i]).key == key;
            assert(out.contains(out[i]));
        }
        if keys_distinct(s) {
            assert(keys_distinct(s.drop_last())) by {
                assert forall|i: int, j: int| 0 <= i < j < s.drop_last().len() implies (
                #[trigger] s.drop_last()[i]).key != (#[trigger] s.drop_last()[j]).key by {
                    assert(s[i].key != s[j].key);
                }
            }
            if s.last().key != key {
                assert forall|i: int, j: int| 0 <= i < j < out.len() implies (
                #[trigger] out[i]).key != (#[trigger] out[j]).key by {
                    if j == out.len() - 1 {
                        assert(rest[i] == out[i]);
                        assert(rest.contains(rest[i]));
                        let k = choose|k: int|
                            0 <= k < s.drop_last().len() && s.drop_last()[k] == rest[i];
                        assert(s[k].key != s[s.len() - 1].key);
                    } else {
                        assert(rest[i].key != rest[j].key);
                    }
                }
            }
        }
    }
}

/// The counters of a cache.
#[derive(Debug, Clone, Copy)]
pub struct CacheStats {
    pub hits: u64,
    pub misses: u64,
    pub compaction_reads: u64,
    pub inserts: u64,
    pub evictions: u64,
    pub floor_skips: u64,
    pub resident_bytes: u64,
    pub resident_entries: u64,
}

/// A bounded cache of blocks.
pub struct BlockCache {
    slots: Vec<Slot>,
    bytes_used: usize,
    capacity: usize,
    ticks: u64,
    hits: u64,
    misses: u64,
    compaction_reads: u64,
    inserts: u64,
    evictions: u64,
    floor_skips: u64,
    fair: Option<FairShareState>,
}

/// What a cache holds.
pub struct CacheView {
    pub slots: Seq<SlotView>,
    pub capacity: nat,
    pub floor: Option<u64>,
    /// The number of lookups and insertions so far.
    pub ticks: u64,
    pub hits: u64,
    pub misses: u64,
    pub compaction_reads: u64,
    pub inserts: u64,
    pub evictions: u64,
    pub floor_skips: u64,
}

impl View for BlockCache {
    type V = CacheView;

    closed spec fn view(&self) -> CacheView {
        CacheView {
            slots: slot_views(self.slots@),
            capacity: self.capacity as nat,
            floor: match self.fair {
                Some(f) => Some(f.cache_floor_bytes),
                None => None,
            },
            ticks: self.ticks,
            hits: self.hits,
            misses: self.misses,
            compaction_reads: self.compaction_reads,
            inserts: self.inserts,
            evictions: self.evictions,
            floor_skips: self.floor_skips,
        }
    }
}

closed spec fn slot_views(s: Seq<Slot>) -> Seq<SlotView> {
    Seq::new(s.len(), |i: int| s[i]@)
}

impl CacheView {
    /// The cache after a lookup of `key`.
    pub open spec fn after_get(self, key: BlockKey) -> CacheView {
        let tick = wrapped(self.ticks + 1);
        if has_key(self.slots, key) {
            CacheView {
                slots: Seq::new(
                    self.slots.len(),
                    |i: int|
                        if self.slots[i].key == key {
                            SlotView { last_access: tick, ..self.slots[i] }
                        } else {
                            self.slots[i]
                        },
                ),
                ticks: tick,
                hits: wrapped(self.hits + 1),
                ..self
            }
        } else {
            CacheView { ticks: tick, misses: wrapped(self.misses + 1), ..self }
        }
    }

    /// The slots after a block was put in its place and before eviction.
    pub open spec fn placed(self, key: BlockKey, bytes: Seq<u8>, owner: Option<Seq<u8>>) -> Seq<
        SlotView,
    > {
        without_key(self.slots, key).push(
            SlotView { key, bytes, last_access: wrapped(self.ticks + 1), owner },
        )
    }

    /// The cache after an insertion.
    pub open spec fn after_insert(
        self,
        key: BlockKey,
        bytes: Seq<u8>,
        owner: Option<Seq<u8>>,
    ) -> CacheView {
        let placed = self.placed(key, bytes, owner);
        let left = evicted(placed, self.capacity, self.floor);
        CacheView {
            slots: left,
            ticks: wrapped(self.ticks + 1),
            inserts: wrapped(self.inserts + 1),
            evictions: wrapped(self.evictions + (placed.len() - left.len())),
            floor_skips: wrapped(self.floor_skips + skips(placed, self.capacity, self.floor)),
            ..self
        }
    }
}

/// No block was used after the last lookup or insertion.
pub open spec fn used_in_order(c: CacheView) -> bool {
    forall|i: int| 0 <= i < c.slots.len() ==> (#[trigger] c.slots[i]).last_access <= c.ticks
}

/// The block is resident with these bytes.
pub open spec fn holds_block(c: CacheView, key: BlockKey, bytes: Seq<u8>) -> bool {
    exists|i: int|
        0 <= i < c.slots.len() && (#[trigger] c.slots[i]).key == key && c.slots[i].bytes == bytes
}

/// What eviction leaves: the cache is within its capacity, or holds a single block, or
/// holds protected blocks alone.
pub open spec fn within_bounds(c: CacheView) -> bool {
    ||| resident(c.slots) <= c.capacity
    ||| c.slots.len() == 1
    ||| all_protected(c)
}

/// Every block is protected.
pub open spec fn all_protected(c: CacheView) -> bool {
    forall|j: int| 0 <= j < c.slots.len() ==> is_protected(c.slots, c.floor, #[trigger] c.slots[j])
}

/// What an insertion keeps: each block is resident once, so that a block put in again
/// counts once; the cache stays within its bounds; no protected block was evicted; nothing
/// else came in; and, until the ticks run out, the block is resident unless only protected
/// blocks are.
pub open spec fn insertion_kept(
    c: CacheView,
    d: CacheView,
    key: BlockKey,
    bytes: Seq<u8>,
    owner: Option<Seq<u8>>,
) -> bool {
    let placed = c.placed(key, bytes, owner);
    &&& keys_distinct(d.slots)
    &&& d.slots.len() > 0
    &&& resident(placed) == resident(without_key(c.slots, key)) + bytes.len()
    &&& within_bounds(d)
    &&& forall|x: SlotView| #[trigger]
        placed.contains(x) && is_protected(placed, c.floor, x) ==> d.slots.contains(x)
    &&& forall|x: SlotView| #[trigger]
        d.slots.contains(x) ==> x.key == key && x.bytes == bytes || c.slots.contains(x)
    &&& used_in_order(c) && c.ticks < u64::MAX ==> used_in_order(d) && (holds_block(d, key, bytes)
        || all_protected(d))
}

/// An insertion keeps the bounds of the cache.
pub proof fn insertion_keeps_bounds(
    c: CacheView,
    key: BlockKey,
    bytes: Seq<u8>,
    owner: Option<Seq<u8>>,
)
    requires
        keys_distinct(c.slots),
    ensures
        insertion_kept(c, c.after_insert(key, bytes, owner), key, bytes, owner),
{
    let rest = without_key(c.slots, key);
    let placed = c.placed(key, bytes, owner);
    let d = c.after_insert(key, bytes, owner);
    without_key_facts(c.slots, key);
    assert(keys_distinct(placed)) by {
        assert forall|i: int, j: int| 0 <= i < j < placed.len() implies (
        #[trigger] placed[i]).key != (#[trigger] placed[j]).key by {
            assert(rest[i] == placed[i]);
            if j < rest.len() {
                assert(rest[j] == placed[j]);
            } else {
                assert(!has_key(rest, key));
            }
        }
    }
    eviction_only_removes(placed, c.capacity, c.floor);
    eviction_reaches_capacity(placed, c.capacity, c.floor);
    assert forall|x: SlotView| #[trigger]
        placed.contains(x) && is_protected(placed, c.floor, x) implies d.slots.contains(x) by {
        protected_blocks_survive(placed, c.capacity, c.floor, x);
    }
    assert forall|x: SlotView| #[trigger] d.slots.contains(x) implies x.key == key && x.bytes
        == bytes || c.slots.contains(x) by {
        let j = choose|j: int| 0 <= j < placed.len() && placed[j] == x;
        if j < rest.len() {
            assert(rest[j] == x);
            assert(rest.contains(x));
        }
    }
    assert(placed.drop_last() =~= rest);
    if used_in_order(c) && c.ticks < u64::MAX {
        let new = placed[placed.len() - 1];
        assert(placed.contains(new));
        assert forall|i: int| 0 <= i < placed.len() && #[trigger] placed[i] != new implies
            placed[i].last_access < new.last_access by {
            assert(placed[i] == rest[i]);
            assert(rest.contains(rest[i]));
            let j = choose|j: int| 0 <= j < c.slots.len() && c.slots[j] == rest[i];
            assert(c.slots[j].last_access <= c.ticks);
        }
        newest_block_survives(placed, c.capacity, c.floor, new);
        if d.slots.contains(new) {
            let i = choose|i: int| 0 <= i < d.slots.len() && d.slots[i] == new;
            assert(d.slots[i].key == key);
        }
        assert forall|i: int| 0 <= i < d.slots.len() implies (#[trigger] d.slots[i]).last_access
            <= d.ticks by {
            assert(d.slots.contains(d.slots[i]));
            let j = choose|j: int| 0 <= j < placed.len() && placed[j] == d.slots[i];
            assert(placed[j] == new || placed[j].last_access < new.last_access);
        }
    }
}

impl BlockCache {
    /// Blocks are distinct and the byte count is exact.
    pub closed spec fn wf(&self) -> bool {
        &&& keys_distinct(self@.slots)
        &&& self.bytes_used == resident(self@.slots)
    }

    /// No block of a well-formed cache is resident twice.
    pub proof fn lemma_distinct(&self)
        requires
            self.wf(),
        ensures
            keys_distinct(self@.slots),
    {
    }

    /// A cache with this capacity in bytes.
    pub fn new(capacity_bytes: usize) -> (c: BlockCache)
        ensures
            c.wf(),
            c@ == (CacheView {
                slots: Seq::empty(),
                capacity: capacity_bytes as nat,
                floor: None,
                ticks: 0,
                hits: 0,
                misses: 0,
                compaction_reads: 0,
                inserts: 0,
                evictions: 0,
                floor_skips: 0,
            }),
    {
        let c = BlockCache {
            slots: Vec::new(),
            bytes_used: 0,
            capacity: capacity_bytes,
            ticks: 0,
            hits: 0,
            misses: 0,
            compaction_reads: 0,
            inserts: 0,
            evictions: 0,
            floor_skips: 0,
            fair: None,
        };
        assert(c@.slots =~= Seq::<SlotView>::empty());
        c
    }

    /// Gives every tenant its guaranteed share.
    pub fn with_fair(&mut self, fair: FairShareState)
        ensures
            old(self).wf() ==> final(self).wf(),
            final(self)@ == (CacheView { floor: Some(fair.cache_floor_bytes), ..old(self)@ }),
    {
        self.fair = Some(fair);
        assert(self@.slots == old(self)@.slots);
    }

    /// Counts a block read by compaction, which goes past the cache.
    pub fn record_compaction_read(&mut self)
        ensures
            old(self).wf() ==> final(self).wf(),
            final(self)@ == (CacheView {
                compaction_reads: wrapped(old(self)@.compaction_reads + 1),
                ..old(self)@
            }),
    {
        self.compaction_reads = count(self.compaction_reads, 1);
        assert(self@.slots == old(self)@.slots);
    }

    /// The index of the slot of `key`.
    fn find(&self, key: BlockKey) -> (r: Option<usize>)
        ensures
            match r {
                Some(i) => i < self.slots@.len() && self.slots@[i as int].key == key,
                None => !has_key(self@.slots, key),
            },
    {
        let mut i: usize = 0;
        while i < self.slots.len()
            invariant
                i <= self.slots@.len(),
                forall|j: int| 0 <= j < i ==> (#[trigger] self@.slots[j]).key != key,
            decreases self.slots.len() - i,
        {
            assert(self@.slots[i as int] == self.slots@[i as int]@);
            if self.slots[i].key == key {
                return Some(i);
            }
            i = i + 1;
        }
        None
    }

    /// Looks a block up and marks it as used.
    pub fn get(&mut self, key: BlockKey) -> (r: Option<CachedBlock>)
        requires
            old(self).wf(),
        ensures
            final(self).wf(),
            final(self)@ == old(self)@.after_get(key),
            match r {
                Some(b) => exists|i: int|
                    0 <= i < old(self)@.slots.len() && (#[trigger] old(self)@.slots[i]).key == key
                        && old(self)@.slots[i].bytes == b@,
                None => !has_key(old(self)@.slots, key),
            },
    {
        let ghost before = self@;
        let tick: u64 = count(self.ticks, 1);
        self.ticks = tick;
        assert(self@.slots == before.slots);
        match self.find(key) {
            Some(i) => {
                let bytes: CachedBlock = self.slots[i].bytes.clone();
                let owner: Option<TenantId> = self.slots[i].owner;
                let slot = Slot { key, bytes: bytes.clone(), last_access: tick, owner };
                let ghost spot = before.slots[i as int];
                self.slots.set(i, slot);
                self.hits = count(self.hits, 1);
                proof {
                    assert(before.slots[i as int].key == key);
                    assert(has_key(before.slots, key));
                    assert(self@.slots =~= before.after_get(key).slots) by {
                        assert forall|j: int| 0 <= j < before.slots.len() implies self@.slots[j]
                            == before.after_get(key).slots[j] by {
                            if j < i {
                                assert(before.slots[j].key != before.slots[i as int].key);
                            } else if j > i {
                                assert(before.slots[i as int].key != before.slots[j].key);
                            }
                        }
                    }
                    same_sizes(before.slots, self@.slots);
                    assert(keys_distinct(self@.slots)) by {
                        assert forall|a: int, b: int| 0 <= a < b < self@.slots.len() implies (
                        #[trigger] self@.slots[a]).key != (#[trigger] self@.slots[b]).key by {
                            assert(before.slots[a].key != before.slots[b].key);
                        }
                    }
                }
                Some(bytes)
            },
            None => {
                self.misses = count(self.misses, 1);
                assert(self@.slots == before.slots);
                None
            },
        }
    }

    /// Puts a block into the cache without an owner.
    pub fn insert(&mut self, key: BlockKey, bytes: CachedBlock)
        requires
            old(self).wf(),
            resident(old(self)@.slots) + bytes@.len() <= usize::MAX,
        ensures
            final(self).wf(),
            final(self)@ == old(self)@.after_insert(key, bytes@, None),
            insertion_kept(old(self)@, final(self)@, key, bytes@, None),
    {
        self.insert_for_tenant(key, bytes, None);
    }

    /// Puts a block into the cache and evicts others to make room for it.
    pub fn insert_for_tenant(&mut self, key: BlockKey, bytes: CachedBlock, owner: Option<TenantId>)
        requires
            old(self).wf(),
            resident(old(self)@.slots) + bytes@.len() <= usize::MAX,
        ensures
            final(self).wf(),
            final(self)@ == old(self)@.after_insert(
                key,
                bytes@,
                owner_view(owner),
            ),
            insertion_kept(old(self)@, final(self)@, key, bytes@, owner_view(owner)),
    {
        let ghost before = self@;
        let ghost who = owner_view(owner);
        let ghost size = bytes@.len();
        let tick: u64 = count(self.ticks, 1);
        self.ticks = tick;
        self.drop_slots_of_key(key);
        proof {
            without_key_facts(before.slots, key);
        }
        let added: usize = bytes.len();
        let ghost rest = self@.slots;
        self.slots.push(Slot { key, bytes, last_access: tick, owner });
        self.bytes_used = self.bytes_used + added;
        self.inserts = count(self.inserts, 1);
        let ghost placed = before.placed(key, bytes@, who);
        proof {
            assert(self@.slots =~= placed);
            assert(placed.drop_last() =~= rest);
            assert(keys_distinct(placed)) by {
                assert forall|i: int, j: int| 0 <= i < j < placed.len() implies (
                #[trigger] placed[i]).key != (#[trigger] placed[j]).key by {
                    assert(rest[i] == placed[i]);
                    if j < rest.len() {
                        assert(rest[j] == placed[j]);
                    }
                }
            }
        }
        self.evict(Ghost(placed), Ghost(self.evictions as int), Ghost(self.floor_skips as int));
        proof {
            insertion_keeps_bounds(before, key, bytes@, who);
        }
    }

    /// Removes the slots of `key`.
    fn drop_slots_of_key(&mut self, key: BlockKey)
        requires
            old(self).wf(),
        ensures
            final(self).wf(),
            final(self)@ == (CacheView {
                slots: without_key(old(self)@.slots, key),
                ..old(self)@
            }),
    {
        let ghost before = self@.slots;
        proof {
            without_key_facts(before, key);
        }
        match self.find(key) {
            Some(i) => {
                let ghost at = before[i as int];
                assert(at.key == key);
                let slot: Slot = self.slots.remove(i);
                proof {
                    resident_remove(before, i as int);
                    without_key_once(before, key, i as int);
                    assert(self@.slots =~= before.remove(i as int));
                }
                self.bytes_used = self.bytes_used - slot.bytes.len();
            },
            None => {
                proof {
                    without_key_absent(before, key);
                }
            },
        }
    }

    /// Evicts until the cache is within its capacity. The ghost arguments are the
    /// slots, evictions and skips at the start.
    fn evict(&mut self, start: Ghost<Seq<SlotView>>, evictions: Ghost<int>, passed: Ghost<int>)
        requires
            old(self).wf(),
            old(self)@.slots == start@,
            old(self)@.evictions == evictions@,
            old(self)@.floor_skips == passed@,
        ensures
            final(self).wf(),
            ({
                let left = evicted(start@, old(self)@.capacity, old(self)@.floor);
                final(self)@ == (CacheView {
                    slots: left,
                    evictions: wrapped(evictions@ + (start@.len() - left.len())),
                    floor_skips: wrapped(
                        passed@ + skips(start@, old(self)@.capacity, old(self)@.floor),
                    ),
                    ..old(self)@
                })
            }),
    {
        let ghost capacity = self@.capacity;
        let ghost floor = self@.floor;
        let ghost mut skipped: nat = 0;
        while self.bytes_used > self.capacity && self.slots.len() > 1
            invariant_except_break
                skipped + skips(self@.slots, capacity, floor) == skips(start@, capacity, floor),
            invariant
                self.wf(),
                capacity == self@.capacity,
                floor == self@.floor,
                self@ == (CacheView {
                    slots: self@.slots,
                    evictions: self@.evictions,
                    floor_skips: self@.floor_skips,
                    ..old(self)@
                }),
                evicted(self@.slots, capacity, floor) == evicted(start@, capacity, floor),
                self@.slots.len() <= start@.len(),
                self@.evictions == wrapped(evictions@ + (start@.len() - self@.slots.len())),
                self@.floor_skips == wrapped(passed@ + skipped),
            ensures
                self@.slots == evicted(start@, capacity, floor),
                skipped == skips(start@, capacity, floor),
            decreases self.slots.len(),
        {
            let ghost before = self@.slots;
            let (chosen, passed_over) = self.pick_eviction_victim();
            proof {
                victim_is_unprotected(before, floor, before.len() as int);
            }
            self.floor_skips = count(self.floor_skips, passed_over);
            proof {
                skipped = skipped + passed_over as nat;
            }
            assert(self@.slots == before);
            match chosen {
                None => {
                    break;
                },
                Some(v) => {
                    let slot: Slot = self.slots.remove(v);
                    proof {
                        resident_remove(before, v as int);
                        assert(self@.slots =~= before.remove(v as int));
                        remove_keeps_distinct(before, v as int);
                    }
                    self.bytes_used = self.bytes_used - slot.bytes.len();
                    self.evictions = count(self.evictions, 1);
                    assert(self@.slots == before.remove(v as int));
                },
            }
        }
    }

    /// The slot to evict next, and the number of protected slots.
    fn pick_eviction_victim(&self) -> (r: (Option<usize>, u64))
        requires
            self.wf(),
        ensures
            match r.0 {
                Some(v) => v == victim(self@.slots, self@.floor, self@.slots.len() as int) && v
                    < self@.slots.len(),
                None => victim(self@.slots, self@.floor, self@.slots.len() as int) < 0,
            },
            r.1 == protected_count(self@.slots, self@.floor, self@.slots.len() as int),
    {
        let mut best: Option<usize> = None;
        let mut passed: u64 = 0;
        let mut i: usize = 0;
        while i < self.slots.len()
            invariant
                self.wf(),
                i <= self.slots@.len(),
                passed <= i,
                passed == protected_count(self@.slots, self@.floor, i as int),
                match best {
                    Some(b) => b < i && b == victim(self@.slots, self@.floor, i as int),
                    None => victim(self@.slots, self@.floor, i as int) < 0,
                },
            decreases self.slots.len() - i,
        {
            assert(self@.slots[i as int] == self.slots@[i as int]@);
            if self.protects(i) {
                passed = passed + 1;
            } else {
                match best {
                    None => {
                        best = Some(i);
                    },
                    Some(b) => {
                        assert(self@.slots[b as int] == self.slots@[b as int]@);
                        if self.slots[i].last_access < self.slots[b].last_access {
                            best = Some(i);
                        }
                    },
                }
            }
            i = i + 1;
        }
        (best, passed)
    }

    /// Whether slot `i` is protected.
    fn protects(&self, i: usize) -> (r: bool)
        requires
            self.wf(),
            i < self@.slots.len(),
        ensures
            r == is_protected(self@.slots, self@.floor, self@.slots[i as int]),
    {
        assert(self@.slots[i as int] == self.slots@[i as int]@);
        match (&self.fair, &self.slots[i].owner) {
            (Some(f), Some(t)) => self.held(t) as u64 <= f.cache_floor_bytes,
            _ => false,
        }
    }

    /// The bytes that a tenant holds.
    fn held(&self, tenant: &TenantId) -> (n: usize)
        requires
            self.wf(),
        ensures
            n == held_by(self@.slots, tenant@),
    {
        let mut n: usize = 0;
        let mut i: usize = 0;
        let ghost s = self@.slots;
        proof {
            assert(s.take(0) =~= Seq::<SlotView>::empty());
        }
        while i < self.slots.len()
            invariant
                self.wf(),
                s == self@.slots,
                i <= self.slots@.len(),
                n == held_by(s.take(i as int), tenant@),
                n <= resident(s.take(i as int)),
            decreases self.slots.len() - i,
        {
            proof {
                assert(s.take(i + 1).drop_last() =~= s.take(i as int));
                assert(s.take(i + 1).last() == self.slots@[i as int]@);
                resident_prefix(s, i + 1);
            }
            if let Some(t) = &self.slots[i].owner {
                if bytes_eq(t.as_slice(), tenant.as_slice()) {
                    n = n + self.slots[i].bytes.len();
                }
            }
            i = i + 1;
        }
        assert(s.take(s.len() as int) =~= s);
        n
    }

    /// Drops every block of a table.
    pub fn invalidate_sstable(&mut self, sstable_id: u64)
        requires
            old(self).wf(),
        ensures
            final(self).wf(),
            final(self)@ == (CacheView {
                slots: without_table(old(self)@.slots, sstable_id),
                ..old(self)@
            }),
    {
        let ghost all = self@.slots;
        let mut kept: Vec<Slot> = Vec::new();
        let mut used: usize = 0;
        let mut i: usize = 0;
        proof {
            assert(all.take(0) =~= Seq::<SlotView>::empty());
            assert(slot_views(kept@) =~= Seq::<SlotView>::empty());
        }
        while i < self.slots.len()
            invariant
                self.wf(),
                self@ == old(self)@,
                all == self@.slots,
                i <= self.slots@.len(),
                slot_views(kept@) == without_table(all.take(i as int), sstable_id),
                used == resident(slot_views(kept@)),
                used <= resident(all.take(i as int)),
            decreases self.slots.len() - i,
        {
            proof {
                assert(all.take(i + 1).drop_last() =~= all.take(i as int));
                assert(all.take(i + 1).last() == self.slots@[i as int]@);
                resident_prefix(all, i + 1);
            }
            let slot: &Slot = &self.slots[i];
            if slot.key.sstable_id != sstable_id {
                let ghost before = slot_views(kept@);
                used = used + slot.bytes.len();
                let copy = Slot {
                    key: slot.key,
                    bytes: slot.bytes.clone(),
                    last_access: slot.last_access,
                    owner: slot.owner,
                };
                kept.push(copy);
                proof {
                    assert(slot_views(kept@) =~= before.push(all[i as int]));
                    assert(slot_views(kept@).drop_last() =~= before);
                }
            }
            i = i + 1;
        }
        proof {
            assert(all.take(all.len() as int) =~= all);
            without_table_facts(all, sstable_id);
        }
        self.slots = kept;
        self.bytes_used = used;
        assert(self@.slots == without_table(all, sstable_id));
    }

    /// The counters now.
    pub fn stats(&self) -> (s: CacheStats)
        requires
            self.wf(),
        ensures
            s.hits == self@.hits,
            s.misses == self@.misses,
            s.compaction_reads == self@.compaction_reads,
            s.inserts == self@.inserts,
            s.evictions == self@.evictions,
            s.floor_skips == self@.floor_skips,
            s.resident_bytes == resident(self@.slots),
            s.resident_entries == self@.slots.len(),
    {
        CacheStats {
            hits: self.hits,
            misses: self.misses,
            compaction_reads: self.compaction_reads,
            inserts: self.inserts,
            evictions: self.evictions,
            floor_skips: self.floor_skips,
            resident_bytes: self.bytes_used as u64,
            resident_entries: self.slots.len() as u64,
        }
    }

    /// The capacity in bytes.
    pub fn capacity(&self) -> (n: usize)
        ensures
            n == self@.capacity,
    {
        self.capacity
    }
}

proof fn same_sizes(a: Seq<SlotView>, b: Seq<SlotView>)
    requires
        a.len() == b.len(),
        forall|i: int| 0 <= i < a.len() ==> (#[trigger] a[i]).bytes == b[i].bytes,
    ensures
        resident(a) == resident(b),
    decreases a.len(),
{
    if a.len() > 0 {
        assert forall|i: int| 0 <= i < a.drop_last().len() implies (
        #[trigger] a.drop_last()[i]).bytes == b.drop_last()[i].bytes by {
            assert(a[i].bytes == b[i].bytes);
        }
        same_sizes(a.drop_last(), b.drop_last());
        assert(a[a.len() - 1].bytes == b[b.len() - 1].bytes);
    }
}

proof fn resident_prefix(s: Seq<SlotView>, n: int)
    requires
        0 <= n <= s.len(),
    ensures
        resident(s.take(n)) <= resident(s),
    decreases s.len(),
{
    if n < s.len() {
        assert(s.drop_last().take(n) =~= s.take(n));
        resident_prefix(s.drop_last(), n);
    } else {
        assert(s.take(n) =~= s);
    }
}

proof fn remove_keeps_distinct(s: Seq<SlotView>, v: int)
    requires
        keys_distinct(s),
        0 <= v < s.len(),
    ensures
        keys_distinct(s.remove(v)),
{
    let t = s.remove(v);
    assert forall|i: int, j: int| 0 <= i < j < t.len() implies (#[trigger] t[i]).key != (
    #[trigger] t[j]).key by {
        let a = if i < v {
            i
        } else {
            i + 1
        };
        let b = if j < v {
            j
        } else {
            j + 1
        };
        assert(s[a].key != s[b].key);
    }
}

proof fn without_key_absent(s: Seq<SlotView>, key: BlockKey)
    requires
        !has_key(s, key),
    ensures
        without_key(s, key) == s,
    decreases s.len(),
{
    if s.len() > 0 {
        assert(s[s.len() - 1].key != key);
        assert(!has_key(s.drop_last(), key)) by {
            if has_key(s.drop_last(), key) {
                let i = choose|i: int|
                    0 <= i < s.drop_last().len() && (#[trigger] s.drop_last()[i]).key == key;
                assert(s[i].key == key);
            }
        }
        without_key_absent(s.drop_last(), key);
        assert(s =~= s.drop_last().push(s.last()));
    } else {
        assert(without_key(s, key) =~= s);
    }
}

proof fn without_key_once(s: Seq<SlotView>, key: BlockKey, i: int)
    requires
        keys_distinct(s),
        0 <= i < s.len(),
        s[i].key == key,
    ensures
        without_key(s, key) == s.remove(i),
    decreases s.len(),
{
    let init = s.drop_last();
    assert(keys_distinct(init)) by {
        assert forall|a: int, b: int| 0 <= a < b < init.len() implies (#[trigger] init[a]).key != (
        #[trigger] init[b]).key by {
            assert(s[a].key != s[b].key);
        }
    }
    if i == s.len() - 1 {
        assert(!has_key(init, key)) by {
            if has_key(init, key) {
                let j = choose|j: int| 0 <= j < init.len() && (#[trigger] init[j]).key == key;
                assert(s[j].key != s[i].key);
            }
        }
        without_key_absent(init, key);
        assert(s.remove(i) =~= init);
    } else {
        assert(s[i].key != s[s.len() - 1].key);
        without_key_once(init, key, i);
        assert(s.remove(i) =~= init.remove(i).push(s.last()));
    }
}

/// Dropping a table leaves exactly the blocks of the others.
pub proof fn without_table_facts(s: Seq<SlotView>, id: u64)
    ensures
        forall|x: SlotView|
            #[trigger] without_table(s, id).contains(x) <==> s.contains(x) && x.key.sstable_id
                != id,
        keys_distinct(s) ==> keys_distinct(without_table(s, id)),
    decreases s.len(),
{
    if s.len() > 0 {
        let init = s.drop_last();
        let rest = without_table(init, id);
        let out = without_table(s, id);
        without_table_facts(init, id);
        assert forall|x: SlotView| #[trigger] out.contains(x) <==> s.contains(x)
            && x.key.sstable_id != id by {
            if out.contains(x) {
                let i = choose|i: int| 0 <= i < out.len() && out[i] == x;
                if i < rest.len() {
                    assert(rest[i] == x);
                    assert(rest.contains(x));
                    let j = choose|j: int| 0 <= j < init.len() && init[j] == x;
                    assert(s[j] == x);
                } else {
                    assert(s[s.len() - 1] == x);
                }
            }
            if s.contains(x) && x.key.sstable_id != id {
                let j = choose|j: int| 0 <= j < s.len() && s[j] == x;
                if j < s.len() - 1 {
                    assert(init[j] == x);
                    assert(rest.contains(x));
                    let i = choose|i: int| 0 <= i < rest.len() && rest[i] == x;
                    assert(out[i] == x);
                } else {
                    assert(out[out.len() - 1] == x);
                }
            }
        }
        if keys_distinct(s) {
            assert(keys_distinct(init)) by {
                assert forall|a: int, b: int| 0 <= a < b < init.len() implies (
                #[trigger] init[a]).key != (#[trigger] init[b]).key by {
                    assert(s[a].key != s[b].key);
                }
            }
            if s.last().key.sstable_id != id {
                assert forall|i: int, j: int| 0 <= i < j < out.len() implies (
                #[trigger] out[i]).key != (#[trigger] out[j]).key by {
                    if j == out.len() - 1 {
                        assert(rest[i] == out[i]);
                        assert(rest.contains(rest[i]));
                        let k = choose|k: int| 0 <= k < init.len() && init[k] == rest[i];
                        assert(s[k].key != s[s.len() - 1].key);
                    } else {
                        assert(rest[i].key != rest[j].key);
                    }
                }
            }
        }
    }
}

} // verus!
