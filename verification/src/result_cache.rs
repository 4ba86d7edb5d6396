//! The cache of point-lookup results by user key. Its entries survive
//! compaction, because they are not tied to a place in a table.

use vstd::prelude::*;
use crate::block_cache::wrapped;
use crate::bytes::{bytes_eq, copy_bytes};

verus! {

#[derive(Debug)]
struct Slot {
    key: Vec<u8>,
    value: Vec<u8>,
    last_access: u64,
}

/// What a cached result holds.
pub struct ResultView {
    pub key: Seq<u8>,
    pub value: Seq<u8>,
    /// The tick of the last use; larger is more recent.
    pub last_access: u64,
}

impl ResultView {
    pub open spec fn size(self) -> nat {
        self.key.len() + self.value.len()
    }
}

impl View for Slot {
    type V = ResultView;

    closed spec fn view(&self) -> ResultView {
        ResultView { key: self.key@, value: self.value@, last_access: self.last_access }
    }
}

closed spec fn slot_views(s: Seq<Slot>) -> Seq<ResultView> {
    Seq::new(s.len(), |i: int| s[i]@)
}

/// The bytes of all results.
pub open spec fn result_bytes(s: Seq<ResultView>) -> nat
    decreases s.len(),
{
    if s.len() == 0 {
        0
    } else {
        result_bytes(s.drop_last()) + s.last().size()
    }
}

/// The index among the first `n` results of the one used least recently.
pub open spec fn stalest(s: Seq<ResultView>, n: int) -> int
    decreases n,
{
    if n <= 1 {
        0
    } else {
        let b = stalest(s, n - 1);
        if s[n - 1].last_access < s[b].last_access {
            n - 1
        } else {
            b
        }
    }
}

/// The results that are left once the cache is within its capacity. The last
/// result always stays.
pub open spec fn trimmed(s: Seq<ResultView>, capacity: nat) -> Seq<ResultView>
    decreases s.len(),
{
    let v = stalest(s, s.len() as int);
    if result_bytes(s) > capacity && s.len() > 1 && 0 <= v < s.len() {
        trimmed(s.remove(v), capacity)
    } else {
        s
    }
}

/// `key` has a cached result.
pub open spec fn has_result(s: Seq<ResultView>, key: Seq<u8>) -> bool {
    exists|i: int| 0 <= i < s.len() && (#[trigger] s[i]).key == key
}

/// The results of other keys.
pub open spec fn without_result(s: Seq<ResultView>, key: Seq<u8>) -> Seq<ResultView>
    decreases s.len(),
{
    if s.len() == 0 {
        Seq::empty()
    } else if s.last().key == key {
        without_result(s.drop_last(), key)
    } else {
        without_result(s.drop_last(), key).push(s.last())
    }
}

/// No two results are of the same key.
pub open spec fn results_distinct(s: Seq<ResultView>) -> bool {
    forall|i: int, j: int|
        0 <= i < j < s.len() ==> (#[trigger] s[i]).key != (#[trigger] s[j]).key
}

pub(crate) proof fn stalest_in_range(s: Seq<ResultView>, n: int)
    requires
        0 < n <= s.len(),
    ensures
        0 <= stalest(s, n) < n,
        forall|j: int| 0 <= j < n ==> s[stalest(s, n)].last_access <= (#[trigger] s[j]).last_access,
    decreases n,
{
    if n > 1 {
        stalest_in_range(s, n - 1);
    }
}

pub(crate) proof fn result_bytes_remove(s: Seq<ResultView>, i: int)
    requires
        0 <= i < s.len(),
    ensures
        result_bytes(s.remove(i)) + s[i].size() == result_bytes(s),
    decreases s.len(),
{
    if i == s.len() - 1 {
        assert(s.remove(i) =~= s.drop_last());
    } else {
        assert(s.remove(i).drop_last() =~= s.drop_last().remove(i));
        assert(s.remove(i).last() == s.last());
        result_bytes_remove(s.drop_last(), i);
    }
}

/// Trimming only removes results, and brings the cache within its capacity
/// unless a single result is left.
pub proof fn trimming_reaches_capacity(s: Seq<ResultView>, capacity: nat)
    ensures
        result_bytes(trimmed(s, capacity)) <= capacity || trimmed(s, capacity).len() <= 1,
        forall|x: ResultView| #[trigger] trimmed(s, capacity).contains(x) ==> s.contains(x),
        results_distinct(s) ==> results_distinct(trimmed(s, capacity)),
        trimmed(s, capacity).len() <= s.len(),
    decreases s.len(),
{
    let v = stalest(s, s.len() as int);
    if result_bytes(s) > capacity && s.len() > 1 {
        stalest_in_range(s, s.len() as int);
        let t = s.remove(v);
        trimming_reaches_capacity(t, capacity);
        assert forall|x: ResultView| #[trigger] trimmed(s, capacity).contains(
            x,
        ) implies s.contains(x) by {
            assert(t.contains(x));
            let i = choose|i: int| 0 <= i < t.len() && t[i] == x;
            assert(s[if i < v {
                i
            } else {
                i + 1
            }] == x);
        }
        if results_distinct(s) {
            remove_keeps_distinct(s, v);
        }
    }
}

proof fn remove_keeps_distinct(s: Seq<ResultView>, v: int)
    requires
        results_distinct(s),
        0 <= v < s.len(),
    ensures
        results_distinct(s.remove(v)),
{
    let t = s.remove(v);
    assert forall|i: int, j: int| 0 <= i < j < t.len() implies (#[trigger] t[i]).key != (
    #[trigger] t[j]).key by {
        let a = if i < v {
            i
        } else {
            i + 1
        };
        let b = if j < v {
            j
        } else {
            j + 1
        };
        assert(s[a].key != s[b].key);
    }
}

/// Dropping a key leaves exactly the results of the others.
pub proof fn without_result_facts(s: Seq<ResultView>, key: Seq<u8>)
    ensures
        !has_result(without_result(s, key), key),
        forall|x: ResultView|
            #[trigger] without_result(s, key).contains(x) <==> s.contains(x) && x.key != key,
        results_distinct(s) ==> results_distinct(without_result(s, key)),
        result_bytes(without_result(s, key)) <= result_bytes(s),
    decreases s.len(),
{
    if s.len() > 0 {
        let init = s.drop_last();
        let rest = without_result(init, key);
        let out = without_result(s, key);
        without_result_facts(init, key);
        if s.last().key != key {
            assert(out.drop_last() =~= rest);
        }
        assert forall|x: ResultView| #[trigger] out.contains(x) <==> s.contains(x) && x.key
            != key by {
            if out.contains(x) {
                let i = choose|i: int| 0 <= i < out.len() && out[i] == x;
                if i < rest.len() {
                    assert(rest[i] == x);
                    assert(rest.contains(x));
                    let j = choose|j: int| 0 <= j < init.len() && init[j] == x;
                    assert(s[j] == x);
                } else {
                    assert(s[s.len() - 1] == x);
                }
            }
            if s.contains(x) && x.key != key {
                let j = choose|j: int| 0 <= j < s.len() && s[j] == x;
                if j < s.len() - 1 {
                    assert(init[j] == x);
                    assert(rest.contains(x));
                    let i = choose|i: int| 0 <= i < rest.len() && rest[i] == x;
                    assert(out[i] == x);
                } else {
                    assert(out[out.len() - 1] == x);
                }
            }
        }
        if has_result(out, key) {
            let i = choose|i: int| 0 <= i < out.len() && (#[trigger] out[i]).key == key;
            assert(out.contains(out[i]));
        }
        if results_distinct(s) {
            assert(results_distinct(init)) by {
                assert forall|a: int, b: int| 0 <= a < b < init.len() implies (
                #[trigger] init[a]).key != (#[trigger] init[b]).key by {
                    assert(s[a].key != s[b].key);
                }
            }
            if s.last().key != key {
                assert forall|i: int, j: int| 0 <= i < j < out.len() implies (
                #[trigger] out[i]).key != (#[trigger] out[j]).key by {
                    if j == out.len() - 1 {
                        assert(rest[i] == out[i]);
                        assert(rest.contains(rest[i]));
                        let k = choose|k: int| 0 <= k < init.len() && init[k] == rest[i];
                        assert(s[k].key != s[s.len() - 1].key);
                    } else {
                        assert(rest[i].key != rest[j].key);
                    }
                }
            }
        }
    }
}

proof fn without_result_absent(s: Seq<ResultView>, key: Seq<u8>)
    requires
        !has_result(s, key),
    ensures
        without_result(s, key) == s,
    decreases s.len(),
{
    if s.len() > 0 {
        let init = s.drop_last();
        assert(s[s.len() - 1].key != key);
        assert(!has_result(init, key)) by {
            if has_result(init, key) {
                let i = choose|i: int| 0 <= i < init.len() && (#[trigger] init[i]).key == key;
                assert(s[i].key == key);
            }
        }
        without_result_absent(init, key);
        assert(s =~= init.push(s.last()));
    } else {
        assert(without_result(s, key) =~= s);
    }
}

proof fn without_result_once(s: Seq<ResultView>, key: Seq<u8>, i: int)
    requires
        results_distinct(s),
        0 <= i < s.len(),
        s[i].key == key,
    ensures
        without_result(s, key) == s.remove(i),
    decreases s.len(),
{
    let init = s.drop_last();
    assert(results_distinct(init)) by {
        assert forall|a: int, b: int| 0 <= a < b < init.len() implies (#[trigger] init[a]).key != (
        #[trigger] init[b]).key by {
            assert(s[a].key != s[b].key);
        }
    }
    if i == s.len() - 1 {
        assert(!has_result(init, key)) by {
            if has_result(init, key) {
                let j = choose|j: int| 0 <= j < init.len() && (#[trigger] init[j]).key == key;
                assert(s[j].key != s[i].key);
            }
        }
        without_result_absent(init, key);
        assert(s.remove(i) =~= init);
    } else {
        assert(s[i].key != s[s.len() - 1].key);
        without_result_once(init, key, i);
        assert(s.remove(i) =~= init.remove(i).push(s.last()));
    }
}

/// A bounded cache of point-lookup results.
#[derive(Debug)]
pub struct ResultCache {
    slots: Vec<Slot>,
    bytes_used: usize,
    capacity: usize,
    ticks: u64,
    evictions: u64,
}

/// What a result cache holds.
pub struct ResultCacheView {
    pub slots: Seq<ResultView>,
    pub capacity: nat,
    pub ticks: u64,
    pub evictions: u64,
}

impl View for ResultCache {
    type V = ResultCacheView;

    closed spec fn view(&self) -> ResultCacheView {
        ResultCacheView {
            slots: slot_views(self.slots@),
            capacity: self.capacity as nat,
            ticks: self.ticks,
            evictions: self.evictions,
        }
    }
}

impl ResultCacheView {
    /// The cache after a lookup of `key`.
    pub open spec fn after_get(self, key: Seq<u8>) -> ResultCacheView {
        let tick = wrapped(self.ticks + 1);
        ResultCacheView {
            slots: Seq::new(
                self.slots.len(),
                |i: int|
                    if self.slots[i].key == key {
                        ResultView { last_access: tick, ..self.slots[i] }
                    } else {
                        self.slots[i]
                    },
            ),
            ticks: tick,
            ..self
        }
    }

    /// The results after one was put in its place and before trimming.
    pub open spec fn placed(self, key: Seq<u8>, value: Seq<u8>) -> Seq<ResultView> {
        without_result(self.slots, key).push(
            ResultView { key, value, last_access: wrapped(self.ticks + 1) },
        )
    }

    /// The cache after an insertion.
    pub open spec fn after_insert(self, key: Seq<u8>, value: Seq<u8>) -> ResultCacheView {
        let placed = self.placed(key, value);
        let left = trimmed(placed, self.capacity);
        ResultCacheView {
            slots: left,
            ticks: wrapped(self.ticks + 1),
            evictions: wrapped(self.evictions + (placed.len() - left.len())),
            ..self
        }
    }
}

/// What holds of a cache after an insertion, as long as no use was dated ahead: the result
/// is served, even one larger than the cache, and no other for its key; what was dropped
/// was used no later than what is left; and every drop is counted.
pub open spec fn insertion_served(
    c: ResultCacheView,
    d: ResultCacheView,
    key: Seq<u8>,
    value: Seq<u8>,
) -> bool {
    let placed = c.placed(key, value);
    &&& d.in_time()
    &&& d.result_of(key, value)
    &&& forall|other: Seq<u8>| #[trigger] d.result_of(key, other) ==> other == value
    &&& forall|x: ResultView, y: ResultView|
        #![trigger placed.contains(x), d.slots.contains(y)]
        placed.contains(x) && !d.slots.contains(x) && d.slots.contains(y) ==> x.last_access
            <= y.last_access
    &&& d.evictions == wrapped(c.evictions + (placed.len() - d.slots.len()))
}

/// What an insertion keeps: a key has one result, so that a key put in again counts once,
/// and the cache is within its capacity or holds a single result.
pub open spec fn insertion_kept(
    c: ResultCacheView,
    d: ResultCacheView,
    key: Seq<u8>,
    value: Seq<u8>,
) -> bool {
    &&& results_distinct(d.slots)
    &&& result_bytes(c.placed(key, value)) == result_bytes(without_result(c.slots, key)) + key.len()
        + value.len()
    &&& result_bytes(d.slots) <= d.capacity || d.slots.len() <= 1
    &&& c.in_time() && c.ticks < u64::MAX ==> insertion_served(c, d, key, value)
}

/// An insertion keeps the bounds of the cache.
proof fn insertion_keeps_bounds(c: ResultCacheView, key: Seq<u8>, value: Seq<u8>)
    requires
        results_distinct(c.slots),
    ensures
        insertion_kept(c, c.after_insert(key, value), key, value),
{
    let rest = without_result(c.slots, key);
    let placed = c.placed(key, value);
    without_result_facts(c.slots, key);
    assert(placed.drop_last() =~= rest);
    assert(results_distinct(placed)) by {
        assert forall|i: int, j: int| 0 <= i < j < placed.len() implies (#[trigger] placed[i]).key
            != (#[trigger] placed[j]).key by {
            assert(rest[i] == placed[i]);
            if j < rest.len() {
                assert(rest[j] == placed[j]);
            } else {
                assert(!has_result(rest, key));
            }
        }
    }
    trimming_reaches_capacity(placed, c.capacity);
    if c.in_time() && c.ticks < u64::MAX {
        inserted_result_is_served(c, key, value);
    }
}

impl ResultCache {
    /// Keys are distinct and the byte count is exact.
    pub closed spec fn wf(&self) -> bool {
        &&& results_distinct(self@.slots)
        &&& self.bytes_used == result_bytes(self@.slots)
    }

    /// No key of a well-formed cache has two results.
    pub proof fn lemma_distinct(&self)
        requires
            self.wf(),
        ensures
            results_distinct(self@.slots),
    {
    }

    pub fn new(capacity_bytes: usize) -> (c: ResultCache)
        ensures
            c.wf(),
            c@ == (ResultCacheView {
                slots: Seq::empty(),
                capacity: capacity_bytes as nat,
                ticks: 0,
                evictions: 0,
            }),
    {
        let c = ResultCache {
            slots: Vec::new(),
            bytes_used: 0,
            capacity: capacity_bytes,
            ticks: 0,
            evictions: 0,
        };
        assert(c@.slots =~= Seq::<ResultView>::empty());
        c
    }

    fn find(&self, key: &[u8]) -> (r: Option<usize>)
        ensures
            match r {
                Some(i) => i < self.slots@.len() && self.slots@[i as int].key@ == key@,
                None => !has_result(self@.slots, key@),
            },
    {
        let mut i: usize = 0;
        while i < self.slots.len()
            invariant
                i <= self.slots@.len(),
                forall|j: int| 0 <= j < i ==> (#[trigger] self@.slots[j]).key != key@,
            decreases self.slots.len() - i,
        {
            assert(self@.slots[i as int] == self.slots@[i as int]@);
            if bytes_eq(self.slots[i].key.as_slice(), key) {
                return Some(i);
            }
            i = i + 1;
        }
        None
    }

    /// Looks a result up and marks it as used.
    pub fn get(&mut self, key: &[u8]) -> (r: Option<Vec<u8>>)
        requires
            old(self).wf(),
        ensures
            final(self).wf(),
            final(self)@ == old(self)@.after_get(key@),
            match r {
                Some(v) => exists|i: int|
                    0 <= i < old(self)@.slots.len() && (#[trigger] old(self)@.slots[i]).key == key@
                        && old(self)@.slots[i].value == v@,
                None => !has_result(old(self)@.slots, key@),
            },
    {
        let ghost before = self@;
        let tick: u64 = self.ticks.wrapping_add(1);
        self.ticks = tick;
        assert(self@.slots == before.slots);
        match self.find(key) {
            Some(i) => {
                let value: Vec<u8> = copy_bytes(self.slots[i].value.as_slice());
                let slot = Slot {
                    key: copy_bytes(key),
                    value: copy_bytes(value.as_slice()),
                    last_access: tick,
                };
                self.slots.set(i, slot);
                proof {
                    assert(before.slots[i as int].key == key@);
                    assert(self@.slots =~= before.after_get(key@).slots) by {
                        assert forall|j: int| 0 <= j < before.slots.len() implies self@.slots[j]
                            == before.after_get(key@).slots[j] by {
                            if j < i {
                                assert(before.slots[j].key != before.slots[i as int].key);
                            } else if j > i {
                                assert(before.slots[i as int].key != before.slots[j].key);
                            }
                        }
                    }
                    same_sizes(before.slots, self@.slots);
                    assert(results_distinct(self@.slots)) by {
                        assert forall|a: int, b: int| 0 <= a < b < self@.slots.len() implies (
                        #[trigger] self@.slots[a]).key != (#[trigger] self@.slots[b]).key by {
                            assert(before.slots[a].key != before.slots[b].key);
                        }
                    }
                }
                Some(value)
            },
            None => {
                proof {
                    assert forall|j: int| 0 <= j < before.slots.len() implies (
                    #[trigger] before.slots[j]).key != key@ by {}
                    assert(self@.slots =~= before.after_get(key@).slots);
                }
                None
            },
        }
    }

    /// Stores a result and drops stale ones to make room for it.
    pub fn insert(&mut self, key: Vec<u8>, value: Vec<u8>)
        requires
            old(self).wf(),
            result_bytes(old(self)@.slots) + key@.len() + value@.len() <= usize::MAX,
        ensures
            final(self).wf(),
            final(self)@ == old(self)@.after_insert(key@, value@),
            insertion_kept(old(self)@, final(self)@, key@, value@),
    {
        let ghost before = self@;
        let tick: u64 = self.ticks.wrapping_add(1);
        self.ticks = tick;
        self.invalidate(key.as_slice());
        proof {
            without_result_facts(before.slots, key@);
        }
        let added: usize = key.len() + value.len();
        let ghost rest = self@.slots;
        let ghost placed = before.placed(key@, value@);
        self.slots.push(Slot { key, value, last_access: tick });
        self.bytes_used = self.bytes_used + added;
        proof {
            assert(self@.slots =~= placed);
            assert(placed.drop_last() =~= rest);
            assert(results_distinct(placed)) by {
                assert forall|i: int, j: int| 0 <= i < j < placed.len() implies (
                #[trigger] placed[i]).key != (#[trigger] placed[j]).key by {
                    assert(rest[i] == placed[i]);
                    if j < rest.len() {
                        assert(rest[j] == placed[j]);
                    }
                }
            }
        }
        while self.bytes_used > self.capacity && self.slots.len() > 1
            invariant
                self.wf(),
                self@.capacity == before.capacity,
                self@.ticks == wrapped(before.ticks + 1),
                trimmed(self@.slots, before.capacity) == trimmed(placed, before.capacity),
                self@.slots.len() <= placed.len(),
                self@.evictions == wrapped(before.evictions + (placed.len() - self@.slots.len())),
            decreases self.slots.len(),
        {
            let ghost now = self@.slots;
            let v: usize = self.stalest_slot();
            let slot: Slot = self.slots.remove(v);
            proof {
                stalest_in_range(now, now.len() as int);
                result_bytes_remove(now, v as int);
                remove_keeps_distinct(now, v as int);
                assert(self@.slots =~= now.remove(v as int));
            }
            self.bytes_used = self.bytes_used - (slot.key.len() + slot.value.len());
            self.evictions = self.evictions.wrapping_add(1);
            assert(self@.slots == now.remove(v as int));
        }
        proof {
            insertion_keeps_bounds(before, key@, value@);
        }
    }

    /// The index of the result used least recently.
    fn stalest_slot(&self) -> (v: usize)
        requires
            self.slots@.len() > 0,
        ensures
            v < self.slots@.len(),
            v == stalest(self@.slots, self@.slots.len() as int),
    {
        let mut v: usize = 0;
        let mut i: usize = 1;
        while i < self.slots.len()
            invariant
                1 <= i <= self.slots@.len(),
                v < i,
                v == stalest(self@.slots, i as int),
            decreases self.slots.len() - i,
        {
            assert(self@.slots[i as int] == self.slots@[i as int]@);
            assert(self@.slots[v as int] == self.slots@[v as int]@);
            if self.slots[i].last_access < self.slots[v].last_access {
                v = i;
            }
            i = i + 1;
        }
        v
    }

    /// Drops the result of `key`.
    pub fn invalidate(&mut self, key: &[u8])
        requires
            old(self).wf(),
        ensures
            final(self).wf(),
            final(self)@ == (ResultCacheView {
                slots: without_result(old(self)@.slots, key@),
                ..old(self)@
            }),
    {
        let ghost before = self@.slots;
        match self.find(key) {
            Some(i) => {
                assert(before[i as int].key == key@);
                let slot: Slot = self.slots.remove(i);
                proof {
                    result_bytes_remove(before, i as int);
                    without_result_once(before, key@, i as int);
                    remove_keeps_distinct(before, i as int);
                    assert(self@.slots =~= before.remove(i as int));
                }
                self.bytes_used = self.bytes_used - (slot.key.len() + slot.value.len());
            },
            None => {
                proof {
                    without_result_absent(before, key@);
                }
            },
        }
    }

    pub fn resident_bytes(&self) -> (n: u64)
        requires
            self.wf(),
        ensures
            n == result_bytes(self@.slots),
    {
        self.bytes_used as u64
    }

    pub fn evictions(&self) -> (n: u64)
        ensures
            n == self@.evictions,
    {
        self.evictions
    }
}

impl ResultCacheView {
    /// No use is dated ahead of the counter. This holds from the start, and until the
    /// counter has gone through all of its values.
    pub open spec fn in_time(self) -> bool {
        forall|i: int|
            0 <= i < self.slots.len() ==> (#[trigger] self.slots[i]).last_access <= self.ticks
    }

    /// The cached result of a key.
    pub open spec fn result_of(self, key: Seq<u8>, value: Seq<u8>) -> bool {
        exists|i: int|
            0 <= i < self.slots.len() && (#[trigger] self.slots[i]).key == key
                && self.slots[i].value == value
    }
}

/// A lookup keeps the cache in time.
pub proof fn lookup_stays_in_time(c: ResultCacheView, key: Seq<u8>)
    requires
        c.in_time(),
        c.ticks < u64::MAX,
    ensures
        c.after_get(key).in_time(),
{
    let d = c.after_get(key);
    assert forall|i: int| 0 <= i < d.slots.len() implies (#[trigger] d.slots[i]).last_access
        <= d.ticks by {
        assert(c.slots[i].last_access <= c.ticks);
    }
}

/// An insertion keeps the cache in time.
pub proof fn insertion_stays_in_time(c: ResultCacheView, key: Seq<u8>, value: Seq<u8>)
    requires
        c.in_time(),
        c.ticks < u64::MAX,
    ensures
        c.after_insert(key, value).in_time(),
{
    let placed = c.placed(key, value);
    let d = c.after_insert(key, value);
    placed_in_time(c, key, value);
    trimming_reaches_capacity(placed, c.capacity);
    assert forall|i: int| 0 <= i < d.slots.len() implies (#[trigger] d.slots[i]).last_access
        <= d.ticks by {
        assert(d.slots.contains(d.slots[i]));
        let j = choose|j: int| 0 <= j < placed.len() && placed[j] == d.slots[i];
        if j < placed.len() - 1 {
            assert(placed[j].last_access < placed.last().last_access);
        }
    }
}

proof fn placed_in_time(c: ResultCacheView, key: Seq<u8>, value: Seq<u8>)
    requires
        c.in_time(),
        c.ticks < u64::MAX,
    ensures
        ({
            let p = c.placed(key, value);
            &&& p.len() > 0
            &&& p.last() == (ResultView { key, value, last_access: (c.ticks + 1) as u64 })
            &&& forall|i: int|
                0 <= i < p.len() - 1 ==> (#[trigger] p[i]).last_access < p.last().last_access
        }),
{
    let rest = without_result(c.slots, key);
    let p = c.placed(key, value);
    without_result_facts(c.slots, key);
    assert forall|i: int| 0 <= i < p.len() - 1 implies (#[trigger] p[i]).last_access
        < p.last().last_access by {
        assert(p[i] == rest[i]);
        assert(rest.contains(rest[i]));
        let j = choose|j: int| 0 <= j < c.slots.len() && c.slots[j] == rest[i];
        assert(c.slots[j].last_access <= c.ticks);
    }
}

/// Trimming drops results by the time of their last use, the oldest first, and so never
/// the one that was used after all others.
proof fn trimming_spares_the_latest(s: Seq<ResultView>, capacity: nat)
    requires
        s.len() > 0,
        forall|i: int| 0 <= i < s.len() - 1 ==> (#[trigger] s[i]).last_access
            < s.last().last_access,
    ensures
        trimmed(s, capacity).len() > 0,
        trimmed(s, capacity).last() == s.last(),
        forall|x: ResultView, y: ResultView|
            #![trigger s.contains(x), trimmed(s, capacity).contains(y)]
            s.contains(x) && !trimmed(s, capacity).contains(x) && trimmed(s, capacity).contains(y)
                ==> x.last_access <= y.last_access,
    decreases s.len(),
{
    let n = s.len() as int;
    let v = stalest(s, n);
    let kept = trimmed(s, capacity);
    if result_bytes(s) > capacity && s.len() > 1 {
        stalest_in_range(s, n);
        assert(s[v].last_access <= s[0].last_access);
        assert(s[0].last_access < s.last().last_access);
        let t = s.remove(v);
        assert(t.last() == s.last());
        assert forall|i: int| 0 <= i < t.len() - 1 implies (#[trigger] t[i]).last_access
            < t.last().last_access by {
            let k = if i < v {
                i
            } else {
                i + 1
            };
            assert(t[i] == s[k]);
        }
        trimming_spares_the_latest(t, capacity);
        trimming_reaches_capacity(s, capacity);
        assert forall|x: ResultView, y: ResultView|
            #![trigger s.contains(x), kept.contains(y)]
            s.contains(x) && !kept.contains(x) && kept.contains(y) implies x.last_access
            <= y.last_access by {
            let j = choose|j: int| 0 <= j < s.len() && s[j] == x;
            if j == v {
                assert(s.contains(y));
                let q = choose|q: int| 0 <= q < s.len() && s[q] == y;
                assert(s[v].last_access <= s[q].last_access);
            } else {
                assert(t[if j < v {
                    j
                } else {
                    j - 1
                }] == x);
                assert(t.contains(x));
            }
        }
    }
}

/// A result that was just inserted is served.
pub proof fn inserted_result_is_served(c: ResultCacheView, key: Seq<u8>, value: Seq<u8>)
    requires
        results_distinct(c.slots),
        c.in_time(),
        c.ticks < u64::MAX,
    ensures
        insertion_served(c, c.after_insert(key, value), key, value),
{
    let placed = c.placed(key, value);
    let d = c.after_insert(key, value);
    placed_in_time(c, key, value);
    insertion_stays_in_time(c, key, value);
    trimming_spares_the_latest(placed, c.capacity);
    trimming_reaches_capacity(placed, c.capacity);
    let last = d.slots.len() - 1;
    assert(d.slots[last].key == key && d.slots[last].value == value);
    assert forall|other: Seq<u8>| #[trigger] d.result_of(key, other) implies other == value by {
        let i = choose|i: int|
            0 <= i < d.slots.len() && (#[trigger] d.slots[i]).key == key && d.slots[i].value
                == other;
        if i < last {
            let rest = without_result(c.slots, key);
            without_result_facts(c.slots, key);
            assert(d.slots.contains(d.slots[i]));
            let j = choose|j: int| 0 <= j < placed.len() && placed[j] == d.slots[i];
            if j < rest.len() {
                assert(rest[j].key == key);
                assert(has_result(rest, key));
            }
        }
    }
}

pub(crate) proof fn same_sizes(a: Seq<ResultView>, b: Seq<ResultView>)
    requires
        a.len() == b.len(),
        forall|i: int| 0 <= i < a.len() ==> (#[trigger] a[i]).size() == b[i].size(),
    ensures
        result_bytes(a) == result_bytes(b),
    decreases a.len(),
{
    if a.len() > 0 {
        assert forall|i: int| 0 <= i < a.drop_last().len() implies (
        #[trigger] a.drop_last()[i]).size() == b.drop_last()[i].size() by {
            assert(a[i].size() == b[i].size());
        }
        same_sizes(a.drop_last(), b.drop_last());
        assert(a[a.len() - 1].size() == b[b.len() - 1].size());
    }
}

} // verus!
