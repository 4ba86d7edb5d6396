//! The read path: point lookups, snapshots and scans.

use vstd::prelude::*;
use crate::bytes::{copy_bytes, lex_le, lex_lt, lex_lt_irreflexive};
use crate::compaction::level_count;
use crate::engine::durability::{memtables_lie_above, top_attained};
use crate::engine::history::in_memory;
use crate::engine::scans::{
    engine_scan_lists_what_get_finds, keys_valid, lists_user_keys, user_bounds, user_hi, user_lo,
};
use crate::engine::{cache_agrees, cached_result_holds, in_frozen, store_cases, Engine};
use crate::errors::{EngineError, EngineResult};
use crate::iter::ScanDirection;
use crate::keys::{
    system_key_fault, system_key_ok, user_key_fault, user_key_ok, validate_system_key,
    validate_user_key,
};
use crate::manifest::MetaView;
use crate::owned_snapshot::{times, SnapshotHandle};
use crate::records::{visible, Version};
use crate::result_cache::{
    has_result, result_bytes, same_sizes, trimmed, trimming_reaches_capacity, without_result,
    without_result_facts, ResultCache, ResultCacheView, ResultView,
};
use crate::snapshot::{after_prefix, memory_runs, next_after_prefix, Layers, RangeIter, SnapshotView};
use crate::sorted_map::count_of;
use crate::store::{listing, newest, newest_in, newest_is, newest_or_none, union_of, value_at};

verus! {

/// The answer to a lookup of a user or system key at a ceiling.
pub open spec fn snapshot_answer(
    s: Set<Version>,
    key: Seq<u8>,
    upper: u64,
    now_ms: u64,
    r: EngineResult<Option<Vec<u8>>>,
) -> bool {
    match r {
        Ok(Some(x)) => (user_key_ok(key) || system_key_ok(key)) && value_at(s, key, upper, now_ms)
            == Some(x@),
        Ok(None) => (user_key_ok(key) || system_key_ok(key)) && value_at(
            s,
            key,
            upper,
            now_ms,
        ) is None,
        Err(e) => !user_key_ok(key) && !system_key_ok(key) && (e matches EngineError::InvalidKey(m)
            && m@ == system_key_fault(key)),
    }
}

/// The levels below `n` that hold tables, with their numbers.
pub open spec fn level_counts(s: Seq<MetaView>, n: int) -> Seq<(u8, usize)>
    decreases n,
{
    if n <= 0 {
        Seq::empty()
    } else if level_count(s, n - 1) > 0 {
        level_counts(s, n - 1).push(((n - 1) as u8, level_count(s, n - 1) as usize))
    } else {
        level_counts(s, n - 1)
    }
}

/// The sequence number before the next.
pub open spec fn last_seq(next: u64) -> u64 {
    if next == 0 {
        0
    } else {
        (next - 1) as u64
    }
}

/// The smallest byte string greater than `key`.
pub open spec fn successor(key: Seq<u8>) -> Seq<u8> {
    key.push(0)
}

/// Nothing lies between a key and its successor.
pub proof fn successor_is_next(key: Seq<u8>, s: Seq<u8>)
    ensures
        lex_lt(key, s) <==> lex_le(successor(key), s),
    decreases key.len(),
{
    let n = successor(key);
    if key.len() == 0 {
        assert(n.skip(1) =~= Seq::<u8>::empty());
        if s.len() == 0 {
            assert(!lex_lt(n, s));
            assert(n.len() == 1);
        } else {
            if s[0] == 0 {
                let t = s.skip(1);
                if t.len() == 0 {
                    assert(s =~= n);
                } else {
                    assert(lex_lt(n.skip(1), t));
                }
            }
        }
    } else if s.len() > 0 {
        let t = s.skip(1);
        successor_is_next(key.skip(1), t);
        assert(n.skip(1) =~= successor(key.skip(1)));
        if n == s {
            lex_lt_irreflexive(t);
            assert(lex_le(successor(key.skip(1)), t));
        }
        if key[0] == s[0] && n.skip(1) == t {
            assert(n =~= s) by {
                assert(n =~= seq![n[0]] + n.skip(1));
                assert(s =~= seq![s[0]] + t);
            }
        }
    } else {
        assert(n.len() > 0);
    }
}

/// A memtable holds a version of the key.
pub open spec fn key_in_memory(l: Layers, key: Seq<u8>) -> bool {
    exists|v: Version| #[trigger] in_memory(l, v) && v.0.user_key == key
}

/// The newest version of a key in the memtables is the newest.
proof fn memory_has_newest(e: Engine, key: Seq<u8>, v: Version)
    requires
        e.wf(),
        newest_in(union_of(memory_runs(e.layers)), key, u64::MAX, v),
    ensures
        newest(e.store(), key, u64::MAX) == Some(v),
        key_in_memory(e.layers, key),
{
    let m = union_of(memory_runs(e.layers));
    memory_cases(e.layers, v);
    store_cases(e.layers, v);
    assert(in_memory(e.layers, v));
    memtables_lie_above(e, v);
    let s = e.layers.tables@;
    assert forall|w: Version| #[trigger] e.store().contains(w) && visible(
        w,
        key,
        u64::MAX,
    ) implies w.0.seq <= v.0.seq by {
        memory_cases(e.layers, w);
        store_cases(e.layers, w);
        if in_memory(e.layers, w) {
            assert(m.contains(w));
        } else {
            let i = choose|i: int| 0 <= i < s.len() && (#[trigger] s[i]).reader@.contains(w);
            assert(s[i].wf());
            top_attained(s, s.len() as int, e.seq@);
            assert(s[i].meta.max_seq <= top_of(e.catalog(), s.len() as int));
        }
    }
    newest_is(e.store(), key, u64::MAX, v);
}

/// A version lies in the union of the memtables if and only if a memtable holds it.
proof fn memory_cases(l: Layers, v: Version)
    ensures
        union_of(memory_runs(l)).contains(v) <==> in_memory(l, v),
{
    let runs = memory_runs(l);
    if union_of(runs).contains(v) {
        let i = choose|i: int| 0 <= i < runs.len() && (#[trigger] runs[i]).contains(v);
        if i > 0 {
            assert(runs[i] == l.immutables@[i - 1]@);
        }
    }
    if l.active@.contains(v) {
        assert(runs[0].contains(v));
    }
    if in_frozen(l, v) {
        let i = choose|i: int| 0 <= i < l.immutables@.len() && (#[trigger] l.immutables@[i])@.contains(v);
        assert(runs[i + 1].contains(v));
    }
}

proof fn not_in_memory(l: Layers, key: Seq<u8>)
    requires
        newest_or_none(union_of(memory_runs(l)), key, u64::MAX, None),
    ensures
        !key_in_memory(l, key),
{
    assert forall|v: Version| #[trigger] in_memory(l, v) implies v.0.user_key != key by {
        memory_cases(l, v);
        assert(union_of(memory_runs(l)).contains(v));
        assert(!visible(v, key, u64::MAX));
    }
}

impl Engine {
    /// The number of tables at each level that has any, by ascending level.
    pub fn live_sstable_levels(&self) -> (v: Vec<(u8, usize)>)
        ensures
            v@ == level_counts(self.catalog(), 256),
    {
        let mut v: Vec<(u8, usize)> = Vec::new();
        let mut level: usize = 0;
        while level < 256
            invariant
                level <= 256,
                v@ == level_counts(self.catalog(), level as int),
            decreases 256 - level,
        {
            let n: usize = self.tables_at(level as u8);
            if n > 0 {
                v.push((level as u8, n));
            }
            level = level + 1;
        }
        v
    }

    /// The largest sequence number assigned so far, zero for none.
    pub fn current_seq(&self) -> (n: u64)
        ensures
            n == last_seq(self.seq@),
    {
        let next: u64 = self.seq.peek();
        if next == 0 {
            0
        } else {
            next - 1
        }
    }

    /// The newest value of a key.
    pub fn get(&mut self, key: &[u8], now_ms: u64) -> (r: EngineResult<Option<Vec<u8>>>)
        requires
            old(self).wf(),
        ensures
            final(self).wf(),
            *final(self) == (Engine { result_cache: final(self).result_cache, ..*old(self) }),
            match r {
                Ok(Some(x)) => user_key_ok(key@) && value_at(
                    old(self).store(),
                    key@,
                    u64::MAX,
                    now_ms,
                ) == Some(x@),
                Ok(None) => user_key_ok(key@) && value_at(
                    old(self).store(),
                    key@,
                    u64::MAX,
                    now_ms,
                ) is None,
                Err(e) => !user_key_ok(key@) && (e matches EngineError::InvalidKey(m) && m@
                    == user_key_fault(key@)),
            },
            if user_key_ok(key@) {
                final(self).cached_after(old(self), key@)
            } else {
                *final(self) == *old(self)
            },
    {
        match validate_user_key(key) {
            Err(e) => Err(e),
            Ok(_) => Ok(self.cached_read(key, now_ms)),
        }
    }

    /// The cache of lookups after the newest value of a key was read. A key that the
    /// memtables hold leaves it alone. A value that was found in a table and never expires
    /// is cached, as long as the cache can be counted.
    pub open spec fn cache_after_read(&self, c: ResultCacheView, key: Seq<u8>) -> ResultCacheView {
        let looked = c.after_get(key);
        if key_in_memory(self.layers, key) {
            c
        } else if has_result(c.slots, key) {
            looked
        } else {
            match newest(self.store(), key, u64::MAX) {
                Some(v) => if v.1.value is Some && v.1.expires_at is None && result_bytes(c.slots)
                    + key.len() + (v.1.value->0).len() <= usize::MAX {
                    looked.after_insert(key, v.1.value->0)
                } else {
                    looked
                },
                None => looked,
            }
        }
    }

    /// The cache of lookups is that of an engine that read the newest value of a key.
    pub open spec fn cached_after(&self, before: &Engine, key: Seq<u8>) -> bool {
        match (before.result_cache, self.result_cache) {
            (Some(a), Some(b)) => b@ == before.cache_after_read(a@, key),
            (None, None) => true,
            _ => false,
        }
    }

    /// The newest value of a key: from a memtable, from the cache of lookups where it is
    /// there, or from a table.
    pub(crate) fn cached_read(&mut self, key: &[u8], now_ms: u64) -> (r: Option<Vec<u8>>)
        requires
            old(self).wf(),
        ensures
            final(self).wf(),
            *final(self) == (Engine { result_cache: final(self).result_cache, ..*old(self) }),
            match r {
                Some(x) => value_at(old(self).store(), key@, u64::MAX, now_ms) == Some(x@),
                None => value_at(old(self).store(), key@, u64::MAX, now_ms) is None,
            },
            final(self).cached_after(old(self), key@),
    {
        let ghost store = self.store();
        if self.result_cache.is_none() {
            return self.layers.read(key, u64::MAX, now_ms);
        }
        match self.layers.memory_lookup(key, u64::MAX) {
            Some((ik, entry)) => {
                proof {
                    memory_has_newest(*self, key@, (ik@, entry@));
                }
                return entry.read(now_ms);
            },
            None => {
                proof {
                    not_in_memory(self.layers, key@);
                }
            },
        }
        let mut cache: ResultCache = match self.result_cache.take() {
            Some(c) => c,
            None => {
                return None;
            },
        };
        let ghost before = cache@;
        let hit: Option<Vec<u8>> = cache.get(key);
        proof {
            assert(cache_agrees(cache@.slots, store)) by {
                assert forall|i: int| 0 <= i < cache@.slots.len() implies cached_result_holds(
                    #[trigger] cache@.slots[i],
                    store,
                ) by {
                    assert(cached_result_holds(before.slots[i], store));
                }
            }
            same_sizes(before.slots, cache@.slots);
        }
        if hit.is_some() {
            self.result_cache = Some(cache);
            return hit;
        }
        let mut answer: Option<Vec<u8>> = None;
        let mut keep: bool = false;
        match self.layers.lookup(key, u64::MAX) {
            Some((_, entry)) => {
                answer = entry.read(now_ms);
                keep = entry.expires_at.is_none();
            },
            None => {},
        }
        if keep {
            if let Some(x) = &answer {
                let used: u64 = cache.resident_bytes();
                if fits_in_memory(used, key.len(), x.len()) {
                    let ghost view = cache@;
                    cache.insert(copy_bytes(key), copy_bytes(x.as_slice()));
                    proof {
                        insert_agrees(view.slots, store, key@, x@, view.capacity);
                    }
                }
            }
        }
        self.result_cache = Some(cache);
        answer
    }

    /// The largest sequence number that the tables hold, zero for none.
    pub(crate) fn flushed_seq(&self) -> (n: u64)
        ensures
            n == top_of(self.catalog(), self.catalog().len() as int),
    {
        let mut n: u64 = 0;
        let mut i: usize = 0;
        while i < self.layers.tables.len()
            invariant
                i <= self.layers.tables@.len(),
                n == top_of(self.catalog(), i as int),
            decreases self.layers.tables.len() - i,
        {
            let m: u64 = self.layers.tables[i].meta.max_seq;
            if m > n {
                n = m;
            }
            i = i + 1;
        }
        n
    }

    /// What the engine holds for a user or system key at a ceiling.
    pub fn snapshot_get(&self, seq_upper: u64, key: &[u8], now_ms: u64) -> (r: EngineResult<
        Option<Vec<u8>>,
    >)
        requires
            self.wf(),
        ensures
            snapshot_answer(self.store(), key@, seq_upper, now_ms, r),
    {
        match validate_user_key(key) {
            Err(_) => {
                match validate_system_key(key) {
                    Err(e) => {
                        return Err(e);
                    },
                    Ok(_) => {},
                }
            },
            Ok(_) => {},
        }
        Ok(self.layers.read(key, seq_upper, now_ms))
    }

    /// A view of the engine as it stands.
    pub fn snapshot(&self) -> (v: SnapshotView<'_>)
        ensures
            *v.engine == *self,
            v.seq_upper == last_seq(self.seq@),
    {
        SnapshotView { engine: self, seq_upper: self.current_seq() }
    }

    /// The numbers of the tables.
    pub fn table_ids(&self) -> (v: Vec<u64>)
        ensures
            v@ == ids_of(self.catalog()),
    {
        let mut v: Vec<u64> = Vec::new();
        let mut i: usize = 0;
        while i < self.layers.tables.len()
            invariant
                i <= self.layers.tables@.len(),
                v@.len() == i,
                forall|j: int| 0 <= j < i ==> #[trigger] v@[j] == self.layers.tables@[j].meta.id,
            decreases self.layers.tables.len() - i,
        {
            v.push(self.layers.tables[i].meta.id);
            i = i + 1;
        }
        assert(v@ =~= ids_of(self.catalog()));
        v
    }

    /// Whether one more snapshot of this moment can be counted.
    pub fn can_snapshot(&self) -> (r: bool)
        requires
            self.wf(),
        ensures
            r == self.pins.room_for(ids_of(self.catalog()), last_seq(self.seq@)),
    {
        let ids: Vec<u64> = self.table_ids();
        self.pins.has_room(ids.as_slice(), self.current_seq())
    }

    /// A long-lived snapshot of the engine as it stands. Its tables are pinned until it
    /// is released.
    pub fn snapshot_owned(&mut self) -> (h: SnapshotHandle)
        requires
            old(self).wf(),
            old(self).pins.room_for(ids_of(old(self).catalog()), last_seq(old(self).seq@)),
        ensures
            h.wf(),
            h.ceiling() == last_seq(old(self).seq@),
            h.content().store() == old(self).store(),
            h.pinned() == ids_of(old(self).catalog()),
            final(self).wf(),
            final(self).pinned_more(old(self), h.ceiling()),
    {
        let ceiling: u64 = self.current_seq();
        self.snapshot_with_ceiling(ceiling)
    }

    /// A long-lived snapshot at a ceiling that a caller carries along, such as in the
    /// cursor of a paged read. The ceiling never exceeds the engine's last sequence
    /// number. Versions below the mark that compaction observes may be gone.
    pub fn snapshot_at(&mut self, seq_upper: u64) -> (h: SnapshotHandle)
        requires
            old(self).wf(),
            old(self).pins.room_for(
                ids_of(old(self).catalog()),
                smaller(seq_upper, last_seq(old(self).seq@)),
            ),
        ensures
            h.wf(),
            h.ceiling() == smaller(seq_upper, last_seq(old(self).seq@)),
            h.content().store() == old(self).store(),
            h.pinned() == ids_of(old(self).catalog()),
            final(self).wf(),
            final(self).pinned_more(old(self), h.ceiling()),
    {
        let last: u64 = self.current_seq();
        let ceiling: u64 = if seq_upper < last {
            seq_upper
        } else {
            last
        };
        self.snapshot_with_ceiling(ceiling)
    }

    /// The engine with one more snapshot counted.
    pub open spec fn pinned_more(&self, before: &Engine, ceiling: u64) -> bool {
        &&& *self == (Engine { pins: self.pins, ..*before })
        &&& forall|id: u64| #[trigger]
            count_of(self.pins.pin_counts@, id) == count_of(before.pins.pin_counts@, id) + times(
                ids_of(before.catalog()),
                id,
            )
        &&& self.pins.live_snapshot_seqs@ == before.pins.live_snapshot_seqs@.insert(
            ceiling,
            (count_of(before.pins.live_snapshot_seqs@, ceiling) + 1) as u64,
        )
        &&& self.pins.deferred_unlinks@ == before.pins.deferred_unlinks@
    }

    fn snapshot_with_ceiling(&mut self, seq_upper: u64) -> (h: SnapshotHandle)
        requires
            old(self).wf(),
            old(self).pins.room_for(ids_of(old(self).catalog()), seq_upper),
        ensures
            h.wf(),
            h.ceiling() == seq_upper,
            h.content().store() == old(self).store(),
            h.pinned() == ids_of(old(self).catalog()),
            final(self).wf(),
            final(self).pinned_more(old(self), seq_upper),
    {
        let layers: Layers = self.layers.clone();
        let ids: Vec<u64> = self.table_ids();
        SnapshotHandle::new(seq_upper, layers, ids, &mut self.pins)
    }

    /// The pairs of the user keys from `lo` up to but not including `hi`, keys
    /// ascending. An empty `hi` stands for no upper bound. Nothing outside the user
    /// keyspace is listed.
    pub fn scan(&self, lo: &[u8], hi: &[u8], now_ms: u64) -> (r: EngineResult<RangeIter<'_>>)
        requires
            self.wf(),
        ensures
            r matches Ok(it) && it.wf() && listing(
                self.store(),
                user_lo(lo@),
                user_hi(lo@, hi@),
                last_seq(self.seq@),
                now_ms,
                ScanDirection::Forward,
                it.pending(),
            ),
            keys_valid(self.store()) ==> lists_user_keys(
                self.store(),
                lo@,
                hi@,
                last_seq(self.seq@),
                now_ms,
                r->Ok_0.pending(),
            ),
    {
        let (from, to): (Vec<u8>, Vec<u8>) = user_bounds(lo, hi);
        let r: EngineResult<RangeIter<'_>> = self.snapshot().scan(
            from.as_slice(),
            to.as_slice(),
            now_ms,
        );
        proof {
            if keys_valid(self.store()) {
                engine_scan_lists_what_get_finds(
                    self.store(),
                    lo@,
                    hi@,
                    last_seq(self.seq@),
                    now_ms,
                    r->Ok_0.pending(),
                );
            }
        }
        r
    }

    /// The pairs of the user keys with a prefix, keys ascending. Nothing outside the user
    /// keyspace is listed.
    pub fn prefix_scan(&self, prefix: &[u8], now_ms: u64) -> (r: EngineResult<RangeIter<'_>>)
        requires
            self.wf(),
        ensures
            r matches Ok(it) && it.wf() && listing(
                self.store(),
                user_lo(prefix@),
                user_hi(prefix@, after_prefix(prefix@)),
                last_seq(self.seq@),
                now_ms,
                ScanDirection::Forward,
                it.pending(),
            ),
            keys_valid(self.store()) ==> lists_user_keys(
                self.store(),
                prefix@,
                after_prefix(prefix@),
                last_seq(self.seq@),
                now_ms,
                r->Ok_0.pending(),
            ),
    {
        let hi: Vec<u8> = next_after_prefix(prefix);
        self.scan(prefix, hi.as_slice(), now_ms)
    }

    /// The smallest byte string greater than `key`.
    pub fn next_user_key(key: &[u8]) -> (r: Vec<u8>)
        ensures
            r@ == successor(key@),
    {
        let mut r: Vec<u8> = copy_bytes(key);
        r.push(0);
        r
    }
}

/// The smaller of two numbers.
pub open spec fn smaller(a: u64, b: u64) -> u64 {
    if a < b {
        a
    } else {
        b
    }
}

/// The numbers of the tables of a catalog.
pub open spec fn ids_of(s: Seq<MetaView>) -> Seq<u64> {
    Seq::new(s.len(), |i: int| s[i].id)
}

/// The largest sequence number that the first `n` tables name, zero for none.
pub open spec fn top_of(s: Seq<MetaView>, n: int) -> u64
    decreases n,
{
    if n <= 0 {
        0
    } else {
        crate::manifest::larger(top_of(s, n - 1), s[n - 1].max_seq)
    }
}

/// Whether a cache of `used` bytes and one more result can be counted.
fn fits_in_memory(used: u64, key_len: usize, value_len: usize) -> (r: bool)
    ensures
        r == (used + key_len + value_len <= usize::MAX),
{
    used <= usize::MAX as u64 && usize::MAX - used as usize >= key_len && usize::MAX
        - used as usize - key_len >= value_len
}

proof fn insert_agrees(
    slots: Seq<ResultView>,
    store: Set<Version>,
    key: Seq<u8>,
    value: Seq<u8>,
    capacity: nat,
)
    requires
        cache_agrees(slots, store),
        newest(store, key, u64::MAX) matches Some(v) && v.1.value == Some(value)
            && v.1.expires_at is None,
    ensures
        forall|tick: u64|
            cache_agrees(
                #[trigger] trimmed(
                    without_result(slots, key).push(ResultView { key, value, last_access: tick }),
                    capacity,
                ),
                store,
            ),
{
    assert forall|tick: u64|
        cache_agrees(
            #[trigger] trimmed(
                without_result(slots, key).push(ResultView { key, value, last_access: tick }),
                capacity,
            ),
            store,
        ) by {
        let rest = without_result(slots, key);
        let new = ResultView { key, value, last_access: tick };
        let placed = rest.push(new);
        let left = trimmed(placed, capacity);
        trimming_reaches_capacity(placed, capacity);
        without_result_facts(slots, key);
        assert forall|i: int| 0 <= i < left.len() implies cached_result_holds(
            #[trigger] left[i],
            store,
        ) by {
            let x = left[i];
            assert(left.contains(x));
            let j = choose|j: int| 0 <= j < placed.len() && placed[j] == x;
            if j < rest.len() {
                assert(rest[j] == x);
                assert(rest.contains(x));
                let k = choose|k: int| 0 <= k < slots.len() && slots[k] == x;
                assert(cached_result_holds(slots[k], store));
            }
        }
    }
}

} // verus!
