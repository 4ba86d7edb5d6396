//! Caches: what a lookup and an insertion do, and what has to go.

use vstd::prelude::*;
use crate::block_cache::{
    evicted, held_by, held_by_remove, is_protected, resident, resident_remove, victim, without_key,
    without_table, BlockKey, CacheView, SlotView,
};
use crate::engine::Engine;
use crate::engine::history::in_memory;
use crate::engine::read::key_in_memory;
use crate::reader_cache::{closed_down, idle_slot, ReaderCacheView, ReaderSlot};
use crate::records::Version;
use crate::result_cache::{
    has_result, result_bytes, result_bytes_remove, stalest, stalest_in_range, trimmed,
    without_result, ResultCacheView, ResultView,
};
use crate::sorted_map::count_of;
use crate::store::newest;

verus! {

/// The bytes of some blocks, added up.
pub open spec fn block_bytes(s: Seq<SlotView>) -> int {
    s.fold_left(0int, |n: int, x: SlotView| n + x.bytes.len())
}

/// The bytes of a tenant's blocks, added up.
pub open spec fn tenant_block_bytes(s: Seq<SlotView>, tenant: Seq<u8>) -> int {
    s.fold_left(
        0int,
        |n: int, x: SlotView|
            if x.owner == Some(tenant) {
                n + x.bytes.len()
            } else {
                n
            },
    )
}

/// The block belongs to a tenant that holds no more than the floor.
pub open spec fn within_floor(s: Seq<SlotView>, floor: Option<u64>, x: SlotView) -> bool {
    match (floor, x.owner) {
        (Some(f), Some(t)) => tenant_block_bytes(s, t) <= f,
        _ => false,
    }
}

pub(crate) proof fn block_bytes_are_resident(s: Seq<SlotView>)
    ensures
        resident(s) == block_bytes(s),
        forall|t: Seq<u8>| #[trigger] held_by(s, t) == tenant_block_bytes(s, t),
    decreases s.len(),
{
    if s.len() > 0 {
        block_bytes_are_resident(s.drop_last());
        assert forall|t: Seq<u8>| #[trigger] held_by(s, t) == tenant_block_bytes(s, t) by {
            assert(held_by(s.drop_last(), t) == tenant_block_bytes(s.drop_last(), t));
        }
    }
}

/// A lookup in the block cache dates the block to now, leaves all others as they are, and
/// counts as a hit where the block is there and else as a miss.
pub proof fn block_lookups_date_the_block(c: CacheView, key: BlockKey)
    requires
        c.ticks < u64::MAX,
        c.hits < u64::MAX,
        c.misses < u64::MAX,
    ensures
        ({
            let d = c.after_get(key);
            let there = exists|i: int| 0 <= i < c.slots.len() && (#[trigger] c.slots[i]).key == key;
            &&& d.ticks == c.ticks + 1
            &&& d.slots.len() == c.slots.len()
            &&& forall|i: int|
                0 <= i < c.slots.len() ==> (#[trigger] d.slots[i]).key == c.slots[i].key
                    && d.slots[i].bytes == c.slots[i].bytes && d.slots[i].owner == c.slots[i].owner
                    && d.slots[i].last_access == (if c.slots[i].key == key {
                    d.ticks
                } else {
                    c.slots[i].last_access
                })
            &&& there ==> d.hits == c.hits + 1 && d.misses == c.misses
            &&& !there ==> d.hits == c.hits && d.misses == c.misses + 1
            &&& d.capacity == c.capacity && d.floor == c.floor && d.inserts == c.inserts
                && d.evictions == c.evictions && d.floor_skips == c.floor_skips
        }),
{
}

/// What eviction does. Where everything fits nothing goes. Blocks go one by one, and no more
/// than has to: without the last of them nothing would have fitted. None goes of a tenant
/// within its floor. A block that goes was used no later than any that stays, but for those
/// of tenants within their floor.
pub proof fn eviction_takes_the_least_recently_used(
    s: Seq<SlotView>,
    capacity: nat,
    floor: Option<u64>,
)
    ensures
        ({
            let e = evicted(s, capacity, floor);
            &&& block_bytes(s) <= capacity ==> e == s
            &&& e.len() < s.len() ==> exists|x: SlotView|
                s.contains(x) && !within_floor(s, floor, x) && block_bytes(e) + #[trigger] x.bytes.len()
                    > capacity
            &&& forall|x: SlotView| #[trigger] e.contains(x) ==> s.contains(x)
            &&& forall|x: SlotView|
                s.contains(x) && #[trigger] within_floor(s, floor, x) ==> e.contains(x)
            &&& forall|x: SlotView, y: SlotView|
                #![trigger s.contains(x), e.contains(y)]
                s.contains(x) && !e.contains(x) && e.contains(y) && !within_floor(e, floor, y)
                    ==> x.last_access <= y.last_access
            &&& block_bytes(e) <= capacity || e.len() <= 1 || forall|x: SlotView| #[trigger]
                e.contains(x) ==> within_floor(e, floor, x)
            &&& forall|t: Seq<u8>| #[trigger] held_by(e, t) <= held_by(s, t)
        }),
    decreases s.len(),
{
    let n = s.len() as int;
    let v = victim(s, floor, n);
    let e = evicted(s, capacity, floor);
    crate::block_cache::victim_is_unprotected(s, floor, n);
    block_bytes_are_resident(s);
    block_bytes_are_resident(e);
    if resident(s) > capacity && s.len() > 1 && 0 <= v < s.len() {
        let r = s.remove(v);
        let gone = s[v];
        resident_remove(s, v);
        block_bytes_are_resident(r);
        eviction_takes_the_least_recently_used(r, capacity, floor);
        assert(s.contains(gone));
        assert forall|x: SlotView| #[trigger] r.contains(x) implies s.contains(x) by {
            let i = choose|i: int| 0 <= i < r.len() && r[i] == x;
            assert(s[if i < v {
                i
            } else {
                i + 1
            }] == x);
        }
        assert forall|t: Seq<u8>| #[trigger] held_by(r, t) <= held_by(s, t) by {
            held_by_remove(s, v, t);
        }
        assert forall|t: Seq<u8>| #[trigger] held_by(e, t) <= held_by(s, t) by {
            assert(held_by(e, t) <= held_by(r, t));
            assert(held_by(r, t) <= held_by(s, t));
        }
        assert forall|x: SlotView| s.contains(x) && #[trigger] within_floor(
            s,
            floor,
            x,
        ) implies e.contains(x) by {
            let i = choose|i: int| 0 <= i < s.len() && s[i] == x;
            assert(is_protected(s, floor, x));
            assert(i != v);
            assert(r[if i < v {
                i
            } else {
                i - 1
            }] == x);
            assert(r.contains(x));
            let t = x.owner->0;
            assert(held_by(r, t) <= held_by(s, t));
            assert(within_floor(r, floor, x));
        }
        assert forall|x: SlotView, y: SlotView|
            #![trigger s.contains(x), e.contains(y)]
            s.contains(x) && !e.contains(x) && e.contains(y) && !within_floor(
                e,
                floor,
                y,
            ) implies x.last_access <= y.last_access by {
            if r.contains(x) {
            } else {
                let i = choose|i: int| 0 <= i < s.len() && s[i] == x;
                if i < v {
                    assert(r[i] == x);
                } else if i > v {
                    assert(r[i - 1] == x);
                }
                assert(x == gone);
                assert(r.contains(y));
                assert(s.contains(y));
                let j = choose|j: int| 0 <= j < s.len() && s[j] == y;
                if is_protected(s, floor, y) {
                    let t = y.owner->0;
                    assert(held_by(e, t) <= held_by(s, t));
                    assert(within_floor(e, floor, y));
                }
                assert(!is_protected(s, floor, s[j]));
            }
        }
        if e.len() < r.len() {
            let x = choose|x: SlotView|
                r.contains(x) && !within_floor(r, floor, x) && block_bytes(e)
                    + #[trigger] x.bytes.len() > capacity;
            assert(s.contains(x));
            if within_floor(s, floor, x) {
                let t = x.owner->0;
                assert(held_by(r, t) <= held_by(s, t));
            }
            let b = x.bytes.len();
        } else {
            only_removes_len(r, capacity, floor);
            assert(e == r);
            let b = gone.bytes.len();
            assert(block_bytes(e) + gone.bytes.len() > capacity);
        }
    } else {
        if block_bytes(e) > capacity && e.len() > 1 {
            assert forall|x: SlotView| #[trigger] e.contains(x) implies within_floor(
                e,
                floor,
                x,
            ) by {
                let i = choose|i: int| 0 <= i < e.len() && e[i] == x;
                assert(is_protected(s, floor, s[i]));
            }
        }
    }
}

proof fn only_removes_len(s: Seq<SlotView>, capacity: nat, floor: Option<u64>)
    ensures
        evicted(s, capacity, floor).len() == s.len() ==> evicted(s, capacity, floor) == s,
        evicted(s, capacity, floor).len() <= s.len(),
    decreases s.len(),
{
    let v = victim(s, floor, s.len() as int);
    if resident(s) > capacity && s.len() > 1 && 0 <= v < s.len() {
        only_removes_len(s.remove(v), capacity, floor);
    }
}

/// An insertion puts the block in, dated to now and owned as said, in place of one under its
/// key, and then evicts. It counts itself and what it evicts.
pub proof fn block_insertions_put_the_block_in(
    c: CacheView,
    key: BlockKey,
    bytes: Seq<u8>,
    owner: Option<Seq<u8>>,
)
    requires
        c.ticks < u64::MAX,
        c.inserts < u64::MAX,
        c.evictions + c.slots.len() + 1 <= u64::MAX,
    ensures
        ({
            let d = c.after_insert(key, bytes, owner);
            let p = c.placed(key, bytes, owner);
            &&& d.ticks == c.ticks + 1
            &&& d.inserts == c.inserts + 1
            &&& d.hits == c.hits && d.misses == c.misses
            &&& p.len() > 0
            &&& p.last().key == key && p.last().bytes == bytes && p.last().owner == owner
                && p.last().last_access == d.ticks
            &&& forall|x: SlotView| #[trigger]
                p.contains(x) <==> x == p.last() || (c.slots.contains(x) && x.key != key)
            &&& d.slots == evicted(p, c.capacity, c.floor)
            &&& d.evictions == c.evictions + (p.len() - d.slots.len())
        }),
{
    let p = c.placed(key, bytes, owner);
    let rest = without_key(c.slots, key);
    crate::block_cache::without_key_facts(c.slots, key);
    only_removes_len(p, c.capacity, c.floor);
    assert forall|x: SlotView| #[trigger] p.contains(x) <==> x == p.last() || (c.slots.contains(x)
        && x.key != key) by {
        if p.contains(x) {
            let i = choose|i: int| 0 <= i < p.len() && p[i] == x;
            if i < rest.len() {
                assert(rest[i] == x);
                assert(rest.contains(x));
            }
        }
        if c.slots.contains(x) && x.key != key {
            assert(rest.contains(x));
            let i = choose|i: int| 0 <= i < rest.len() && rest[i] == x;
            assert(p[i] == x);
        }
        assert(p[p.len() - 1] == p.last());
    }
}

/// With a table its blocks go, and no others.
pub proof fn blocks_go_with_their_table(s: Seq<SlotView>, id: u64, x: SlotView)
    ensures
        without_table(s, id).contains(x) <==> s.contains(x) && x.key.sstable_id != id,
    decreases s.len(),
{
    if s.len() > 0 {
        let init = s.drop_last();
        blocks_go_with_their_table(init, id, x);
        let a = without_table(init, id);
        let b = without_table(s, id);
        assert(s[s.len() - 1] == s.last());
        if init.contains(x) {
            let i = choose|i: int| 0 <= i < init.len() && init[i] == x;
            assert(s[i] == x);
        }
        if s.contains(x) && x != s.last() {
            let i = choose|i: int| 0 <= i < s.len() && s[i] == x;
            assert(init[i] == x);
        }
        if a.contains(x) {
            let i = choose|i: int| 0 <= i < a.len() && a[i] == x;
            assert(b[i] == x);
        }
        if b.contains(x) {
            let i = choose|i: int| 0 <= i < b.len() && b[i] == x;
            if i < a.len() {
                assert(a[i] == x);
            }
        }
        if b.len() > a.len() {
            assert(b[b.len() - 1] == s.last());
        }
    }
}

/// The bytes of some results, added up: those of keys and values.
pub open spec fn result_total(s: Seq<ResultView>) -> int {
    s.fold_left(0int, |n: int, x: ResultView| n + x.key.len() + x.value.len())
}

proof fn results_add_up(s: Seq<ResultView>)
    ensures
        result_bytes(s) == result_total(s),
    decreases s.len(),
{
    if s.len() > 0 {
        results_add_up(s.drop_last());
    }
}

/// What trimming the results does. Where everything fits nothing goes. No more goes than has
/// to, and what goes was used no later than anything that stays.
pub proof fn trimming_takes_the_least_recently_used(s: Seq<ResultView>, capacity: nat)
    ensures
        ({
            let e = trimmed(s, capacity);
            &&& result_total(s) <= capacity ==> e == s
            &&& result_total(e) <= capacity || e.len() <= 1
            &&& e.len() < s.len() ==> exists|x: ResultView|
                s.contains(x) && result_total(e) + #[trigger] x.key.len()
                    + x.value.len() > capacity
            &&& forall|x: ResultView| #[trigger] e.contains(x) ==> s.contains(x)
            &&& forall|x: ResultView, y: ResultView|
                #![trigger s.contains(x), e.contains(y)]
                s.contains(x) && !e.contains(x) && e.contains(y) ==> x.last_access <= y.last_access
            &&& e.len() <= s.len()
            &&& e.len() == s.len() ==> e == s
        }),
    decreases s.len(),
{
    let n = s.len() as int;
    let v = stalest(s, n);
    let e = trimmed(s, capacity);
    results_add_up(s);
    results_add_up(e);
    if result_bytes(s) > capacity && s.len() > 1 {
        stalest_in_range(s, n);
        let r = s.remove(v);
        let gone = s[v];
        result_bytes_remove(s, v);
        results_add_up(r);
        trimming_takes_the_least_recently_used(r, capacity);
        assert(s.contains(gone));
        assert forall|x: ResultView| #[trigger] r.contains(x) implies s.contains(x) by {
            let i = choose|i: int| 0 <= i < r.len() && r[i] == x;
            assert(s[if i < v {
                i
            } else {
                i + 1
            }] == x);
        }
        assert forall|x: ResultView, y: ResultView|
            #![trigger s.contains(x), e.contains(y)]
            s.contains(x) && !e.contains(x) && e.contains(y) implies x.last_access
            <= y.last_access by {
            if !r.contains(x) {
                let i = choose|i: int| 0 <= i < s.len() && s[i] == x;
                if i < v {
                    assert(r[i] == x);
                } else if i > v {
                    assert(r[i - 1] == x);
                }
                assert(r.contains(y));
                let j = choose|j: int| 0 <= j < s.len() && s[j] == y;
                assert(s[v].last_access <= s[j].last_access);
            }
        }
        if e.len() < r.len() {
            let x = choose|x: ResultView|
                r.contains(x) && result_total(e)
                    + #[trigger] x.key.len() + x.value.len() > capacity;
            assert(s.contains(x));
            let b = x.key.len();
        } else {
            let b = gone.key.len();
            assert(result_total(e) + gone.key.len() + gone.value.len() > capacity);
        }
    }
}

/// A lookup of a result dates it to now and leaves the rest. An insertion puts the result
/// in, dated to now, in place of one of its key, and then trims. Dropping a key drops its
/// result alone.
pub proof fn result_lookups_and_insertions(c: ResultCacheView, key: Seq<u8>, value: Seq<u8>)
    requires
        c.ticks < u64::MAX,
        c.evictions + c.slots.len() + 1 <= u64::MAX,
    ensures
        ({
            let d = c.after_get(key);
            &&& d.ticks == c.ticks + 1
            &&& d.slots.len() == c.slots.len()
            &&& d.capacity == c.capacity && d.evictions == c.evictions
            &&& forall|i: int|
                0 <= i < c.slots.len() ==> (#[trigger] d.slots[i]).key == c.slots[i].key
                    && d.slots[i].value == c.slots[i].value && d.slots[i].last_access == (
                if c.slots[i].key == key {
                    d.ticks
                } else {
                    c.slots[i].last_access
                })
        }),
        ({
            let d = c.after_insert(key, value);
            let p = c.placed(key, value);
            &&& d.ticks == c.ticks + 1
            &&& p.len() > 0
            &&& p.last().key == key && p.last().value == value && p.last().last_access == d.ticks
            &&& forall|x: ResultView| #[trigger]
                p.contains(x) <==> x == p.last() || (c.slots.contains(x) && x.key != key)
            &&& d.slots == trimmed(p, c.capacity)
            &&& d.evictions == c.evictions + (p.len() - d.slots.len())
            &&& d.capacity == c.capacity
        }),
        forall|x: ResultView| #[trigger]
            without_result(c.slots, key).contains(x) <==> c.slots.contains(x) && x.key != key,
{
    let p = c.placed(key, value);
    let rest = without_result(c.slots, key);
    crate::result_cache::without_result_facts(c.slots, key);
    trimming_takes_the_least_recently_used(p, c.capacity);
    shorter_without(c.slots, key);
    assert forall|x: ResultView| #[trigger] p.contains(x) <==> x == p.last() || (c.slots.contains(x)
        && x.key != key) by {
        if p.contains(x) {
            let i = choose|i: int| 0 <= i < p.len() && p[i] == x;
            if i < rest.len() {
                assert(rest[i] == x);
                assert(rest.contains(x));
            }
        }
        if c.slots.contains(x) && x.key != key {
            assert(rest.contains(x));
            let i = choose|i: int| 0 <= i < rest.len() && rest[i] == x;
            assert(p[i] == x);
        }
        assert(p[p.len() - 1] == p.last());
    }
}

proof fn shorter_without(s: Seq<ResultView>, key: Seq<u8>)
    ensures
        without_result(s, key).len() <= s.len(),
    decreases s.len(),
{
    if s.len() > 0 {
        shorter_without(s.drop_last(), key);
    }
}

/// What closing readers does. As long as there are no more than the limit, or there is no
/// limit, none is closed. No more are closed than have to be, none that is pinned, and of the
/// others those that were used least recently.
pub proof fn idle_readers_are_closed_first<R>(s: Seq<ReaderSlot<R>>, pins: Map<u64, u64>, max: nat)
    ensures
        ({
            let e = closed_down(s, pins, max);
            &&& max == 0 || s.len() <= max ==> e == s
            &&& max > 0 && s.len() > max ==> e.len() >= max
            &&& max > 0 && e.len() > max ==> forall|x: ReaderSlot<R>| #[trigger]
                e.contains(x) ==> pins.dom().contains(x.id) && pins[x.id] > 0
            &&& forall|x: ReaderSlot<R>| #[trigger] e.contains(x) ==> s.contains(x)
            &&& forall|x: ReaderSlot<R>| #[trigger]
                s.contains(x) && pins.dom().contains(x.id) && pins[x.id] > 0 ==> e.contains(x)
            &&& forall|x: ReaderSlot<R>, y: ReaderSlot<R>|
                #![trigger s.contains(x), e.contains(y)]
                s.contains(x) && !e.contains(x) && e.contains(y) && !(pins.dom().contains(y.id)
                    && pins[y.id] > 0) ==> x.last_access <= y.last_access
        }),
    decreases s.len(),
{
    let n = s.len() as int;
    let v = idle_slot(s, pins, n);
    let e = closed_down(s, pins, max);
    idle_slot_facts(s, pins, n);
    if max > 0 && s.len() > max && 0 <= v < s.len() {
        let r = s.remove(v);
        idle_readers_are_closed_first(r, pins, max);
        assert forall|x: ReaderSlot<R>| #[trigger] r.contains(x) implies s.contains(x) by {
            let i = choose|i: int| 0 <= i < r.len() && r[i] == x;
            assert(s[if i < v {
                i
            } else {
                i + 1
            }] == x);
        }
        assert forall|x: ReaderSlot<R>| #[trigger]
            s.contains(x) && pins.dom().contains(x.id) && pins[x.id] > 0 implies e.contains(x) by {
            let i = choose|i: int| 0 <= i < s.len() && s[i] == x;
            assert(i != v);
            assert(r[if i < v {
                i
            } else {
                i - 1
            }] == x);
            assert(r.contains(x));
        }
        assert forall|x: ReaderSlot<R>, y: ReaderSlot<R>|
            #![trigger s.contains(x), e.contains(y)]
            s.contains(x) && !e.contains(x) && e.contains(y) && !(pins.dom().contains(y.id)
                && pins[y.id] > 0) implies x.last_access <= y.last_access by {
            if !r.contains(x) {
                let i = choose|i: int| 0 <= i < s.len() && s[i] == x;
                if i < v {
                    assert(r[i] == x);
                } else if i > v {
                    assert(r[i - 1] == x);
                }
                assert(r.contains(y));
                assert(s.contains(y));
                let j = choose|j: int| 0 <= j < s.len() && s[j] == y;
                assert(s[v].last_access <= s[j].last_access);
            }
        }
    } else if max > 0 && e.len() > max {
        assert forall|x: ReaderSlot<R>| #[trigger] e.contains(x) implies pins.dom().contains(x.id)
            && pins[x.id] > 0 by {
            let i = choose|i: int| 0 <= i < e.len() && e[i] == x;
            assert(count_of(pins, s[i].id) > 0);
        }
    }
}

proof fn idle_slot_facts<R>(s: Seq<ReaderSlot<R>>, pins: Map<u64, u64>, n: int)
    requires
        0 <= n <= s.len(),
    ensures
        -1 <= idle_slot(s, pins, n) < n || n == 0,
        n == 0 ==> idle_slot(s, pins, n) == -1,
        idle_slot(s, pins, n) >= 0 ==> count_of(pins, s[idle_slot(s, pins, n)].id) == 0,
        idle_slot(s, pins, n) < 0 ==> forall|j: int|
            0 <= j < n ==> count_of(pins, (#[trigger] s[j]).id) > 0,
        forall|j: int|
            0 <= j < n && count_of(pins, (#[trigger] s[j]).id) == 0 ==> idle_slot(s, pins, n) >= 0
                && s[idle_slot(s, pins, n)].last_access <= s[j].last_access,
    decreases n,
{
    if n > 0 {
        idle_slot_facts(s, pins, n - 1);
    }
}

/// A reader that is used is dated to now; one that is opened joins the others, dated to now,
/// and then idle ones are closed.
pub proof fn readers_are_dated_when_used<R>(c: ReaderCacheView<R>, id: u64, reader: std::sync::Arc<R>)
    requires
        c.ticks < u64::MAX,
    ensures
        ({
            let d = c.touched(id);
            &&& d.ticks == c.ticks + 1
            &&& d.pins == c.pins && d.max == c.max
            &&& d.entries.len() == c.entries.len()
            &&& forall|i: int|
                0 <= i < c.entries.len() ==> (#[trigger] d.entries[i]).id == c.entries[i].id
                    && d.entries[i].reader == c.entries[i].reader && d.entries[i].last_access == (
                if c.entries[i].id == id {
                    d.ticks
                } else {
                    c.entries[i].last_access
                })
        }),
        ({
            let d = c.opened(id, reader);
            &&& d.ticks == c.ticks + 1
            &&& d.pins == c.pins && d.max == c.max
            &&& d.entries == closed_down(
                c.entries.push(ReaderSlot { id, reader, last_access: d.ticks }),
                c.pins,
                c.max,
            )
        }),
{
}

/// A read that finds nothing of its key in memory looks the result cache up. Where the
/// cache has no result, and the tables' newest version of the key is a value without an
/// expiry, the value is put into the cache.
pub proof fn reads_fill_the_result_cache(e: Engine, c: ResultCacheView, key: Seq<u8>, v: Version)
    requires
        !exists|x: Version| #[trigger] in_memory(e.layers, x) && x.0.user_key == key,
        result_bytes(c.slots) + key.len() + v.1.value_size() <= usize::MAX,
    ensures
        (exists|i: int| 0 <= i < c.slots.len() && (#[trigger] c.slots[i]).key == key)
            ==> e.cache_after_read(c, key) == c.after_get(key),
        !(exists|i: int| 0 <= i < c.slots.len() && (#[trigger] c.slots[i]).key == key) ==> {
            &&& newest(e.store(), key, u64::MAX) == Some(v) && v.1.value is Some
                && v.1.expires_at is None ==> e.cache_after_read(c, key) == c.after_get(
                key,
            ).after_insert(key, v.1.value->0)
            &&& newest(e.store(), key, u64::MAX) == Some(v) && (v.1.value is None
                || v.1.expires_at is Some) ==> e.cache_after_read(c, key) == c.after_get(key)
            &&& newest(e.store(), key, u64::MAX) is None ==> e.cache_after_read(c, key)
                == c.after_get(key)
        },
{
    assert(!key_in_memory(e.layers, key));
    if exists|i: int| 0 <= i < c.slots.len() && (#[trigger] c.slots[i]).key == key {
        assert(has_result(c.slots, key));
    }
}

/// A read that finds its key in memory leaves the result cache alone.
pub proof fn reads_from_memory_pass_the_result_cache_by(
    e: Engine,
    c: ResultCacheView,
    key: Seq<u8>,
    x: Version,
)
    requires
        in_memory(e.layers, x),
        x.0.user_key == key,
    ensures
        e.cache_after_read(c, key) == c,
{
    assert(key_in_memory(e.layers, key));
}

} // verus!
