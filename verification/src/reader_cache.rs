//! The cache of open table readers. Its size bounds the memory that open tables
//! take; pinned readers stay.

use std::sync::Arc;
use vstd::prelude::*;
use crate::block_cache::wrapped;
use crate::errors::EngineResult;
use crate::sorted_map::{count_of, decremented, SortedMap};

verus! {

/// An open reader.
pub struct ReaderSlot<R> {
    pub id: u64,
    pub reader: Arc<R>,
    /// The tick of the last use; larger is more recent.
    pub last_access: u64,
}

/// `id` is open.
pub open spec fn is_open<R>(s: Seq<ReaderSlot<R>>, id: u64) -> bool {
    exists|i: int| 0 <= i < s.len() && (#[trigger] s[i]).id == id
}

/// No two slots hold the same table.
pub open spec fn ids_distinct<R>(s: Seq<ReaderSlot<R>>) -> bool {
    forall|i: int, j: int| 0 <= i < j < s.len() ==> (#[trigger] s[i]).id != (#[trigger] s[j]).id
}

/// The index among the first `n` slots of the unpinned one that was used least
/// recently, or -1.
pub open spec fn idle_slot<R>(s: Seq<ReaderSlot<R>>, pins: Map<u64, u64>, n: int) -> int
    decreases n,
{
    if n <= 0 {
        -1
    } else {
        let b = idle_slot(s, pins, n - 1);
        if count_of(pins, s[n - 1].id) > 0 {
            b
        } else if b < 0 || s[n - 1].last_access < s[b].last_access {
            n - 1
        } else {
            b
        }
    }
}

/// The slots that are left once at most `max` are open, or only pinned ones. A
/// `max` of zero stands for no limit.
pub open spec fn closed_down<R>(s: Seq<ReaderSlot<R>>, pins: Map<u64, u64>, max: nat) -> Seq<
    ReaderSlot<R>,
>
    decreases s.len(),
{
    let v = idle_slot(s, pins, s.len() as int);
    if max > 0 && s.len() > max && 0 <= v < s.len() {
        closed_down(s.remove(v), pins, max)
    } else {
        s
    }
}

proof fn idle_slot_facts<R>(s: Seq<ReaderSlot<R>>, pins: Map<u64, u64>, n: int)
    requires
        0 <= n <= s.len(),
    ensures
        -1 <= idle_slot(s, pins, n) < n || n == 0,
        idle_slot(s, pins, n) >= 0 ==> count_of(pins, s[idle_slot(s, pins, n)].id) == 0,
        idle_slot(s, pins, n) < 0 ==> forall|j: int|
            0 <= j < n ==> count_of(pins, (#[trigger] s[j]).id) > 0,
    decreases n,
{
    if n > 0 {
        idle_slot_facts(s, pins, n - 1);
    }
}

proof fn remove_keeps_distinct<R>(s: Seq<ReaderSlot<R>>, v: int)
    requires
        ids_distinct(s),
        0 <= v < s.len(),
    ensures
        ids_distinct(s.remove(v)),
{
    let t = s.remove(v);
    assert forall|i: int, j: int| 0 <= i < j < t.len() implies (#[trigger] t[i]).id != (
    #[trigger] t[j]).id by {
        let a = if i < v {
            i
        } else {
            i + 1
        };
        let b = if j < v {
            j
        } else {
            j + 1
        };
        assert(s[a].id != s[b].id);
    }
}

/// A pinned reader stays open, and the limit holds unless only pinned readers
/// are left.
pub proof fn pinned_readers_stay_open<R>(s: Seq<ReaderSlot<R>>, pins: Map<u64, u64>, max: nat, id: u64)
    ensures
        is_open(s, id) && count_of(pins, id) > 0 ==> is_open(closed_down(s, pins, max), id),
        ids_distinct(s) ==> ids_distinct(closed_down(s, pins, max)),
        ({
            let c = closed_down(s, pins, max);
            ||| max == 0
            ||| c.len() <= max
            ||| forall|j: int| 0 <= j < c.len() ==> count_of(pins, (#[trigger] c[j]).id) > 0
        }),
        max == 0 ==> closed_down(s, pins, max) == s,
    decreases s.len(),
{
    let v = idle_slot(s, pins, s.len() as int);
    idle_slot_facts(s, pins, s.len() as int);
    if max > 0 && s.len() > max && 0 <= v < s.len() {
        let t = s.remove(v);
        if ids_distinct(s) {
            remove_keeps_distinct(s, v);
        }
        if is_open(s, id) && count_of(pins, id) > 0 {
            let i = choose|i: int| 0 <= i < s.len() && (#[trigger] s[i]).id == id;
            assert(t[if i < v {
                i
            } else {
                i - 1
            }].id == id);
        }
        pinned_readers_stay_open(t, pins, max, id);
    }
}

/// The open readers by table.
pub struct ReaderCache<R> {
    max_readers: usize,
    entries: Vec<ReaderSlot<R>>,
    pins: SortedMap,
    ticks: u64,
}

/// What a reader cache holds.
pub struct ReaderCacheView<R> {
    pub entries: Seq<ReaderSlot<R>>,
    pub pins: Map<u64, u64>,
    pub ticks: u64,
    pub max: nat,
}

impl<R> ReaderCacheView<R> {
    /// The cache after the reader of `id` was used.
    pub open spec fn touched(self, id: u64) -> ReaderCacheView<R> {
        let tick = wrapped(self.ticks + 1);
        ReaderCacheView {
            entries: Seq::new(
                self.entries.len(),
                |i: int|
                    if self.entries[i].id == id {
                        ReaderSlot { last_access: tick, ..self.entries[i] }
                    } else {
                        self.entries[i]
                    },
            ),
            ticks: tick,
            ..self
        }
    }

    /// The cache after a reader was added.
    pub open spec fn opened(self, id: u64, reader: Arc<R>) -> ReaderCacheView<R> {
        let tick = wrapped(self.ticks + 1);
        ReaderCacheView {
            entries: closed_down(
                self.entries.push(ReaderSlot { id, reader, last_access: tick }),
                self.pins,
                self.max,
            ),
            ticks: tick,
            ..self
        }
    }
}

impl<R> View for ReaderCache<R> {
    type V = ReaderCacheView<R>;

    closed spec fn view(&self) -> ReaderCacheView<R> {
        ReaderCacheView {
            entries: self.entries@,
            pins: self.pins@,
            ticks: self.ticks,
            max: self.max_readers as nat,
        }
    }
}

impl<R> ReaderCache<R> {
    pub closed spec fn wf(&self) -> bool {
        self.pins.wf() && ids_distinct(self.entries@)
    }

    /// A limit of zero means no limit.
    pub fn new(max_open_readers: usize) -> (c: Self)
        ensures
            c.wf(),
            c@ == (ReaderCacheView {
                entries: Seq::<ReaderSlot<R>>::empty(),
                pins: Map::empty(),
                ticks: 0,
                max: max_open_readers as nat,
            }),
    {
        ReaderCache {
            max_readers: max_open_readers,
            entries: Vec::new(),
            pins: SortedMap::new(),
            ticks: 0,
        }
    }

    fn find(&self, id: u64) -> (r: Option<usize>)
        ensures
            match r {
                Some(i) => i < self.entries@.len() && self.entries@[i as int].id == id,
                None => !is_open(self.entries@, id),
            },
    {
        let mut i: usize = 0;
        while i < self.entries.len()
            invariant
                i <= self.entries@.len(),
                forall|j: int| 0 <= j < i ==> (#[trigger] self.entries@[j]).id != id,
            decreases self.entries.len() - i,
        {
            if self.entries[i].id == id {
                return Some(i);
            }
            i = i + 1;
        }
        None
    }

    /// Whether the reader of a table is open.
    pub fn contains(&self, id: u64) -> (r: bool)
        ensures
            r == is_open(self@.entries, id),
    {
        self.find(id).is_some()
    }

    /// The reader of a table: the open one, or the outcome of opening it, which
    /// then joins the cache.
    pub fn get_or_open(&mut self, id: u64, fresh: EngineResult<Arc<R>>) -> (r: EngineResult<Arc<R>>)
        requires
            old(self).wf(),
        ensures
            final(self).wf(),
            is_open(old(self)@.entries, id) ==> {
                &&& final(self)@ == old(self)@.touched(id)
                &&& r matches Ok(found) && exists|i: int|
                    0 <= i < old(self)@.entries.len() && (#[trigger] old(self)@.entries[i]).id == id
                        && old(self)@.entries[i].reader == found
            },
            !is_open(old(self)@.entries, id) ==> {
                &&& r == fresh
                &&& final(self)@ == match fresh {
                    Ok(reader) => old(self)@.opened(id, reader),
                    Err(_) => old(self)@,
                }
            },
    {
        let ghost before = self@;
        match self.find(id) {
            Some(i) => {
                let tick: u64 = self.ticks.wrapping_add(1);
                self.ticks = tick;
                let found: Arc<R> = self.entries[i].reader.clone();
                let slot = ReaderSlot { id, reader: found.clone(), last_access: tick };
                self.entries.set(i, slot);
                proof {
                    assert(before.entries[i as int].id == id);
                    assert(is_open(before.entries, id));
                    assert(self@.entries =~= before.touched(id).entries) by {
                        assert forall|j: int| 0 <= j < before.entries.len() implies self@.entries[j]
                            == before.touched(id).entries[j] by {
                            if j < i {
                                assert(before.entries[j].id != before.entries[i as int].id);
                            } else if j > i {
                                assert(before.entries[i as int].id != before.entries[j].id);
                            }
                        }
                    }
                    assert(ids_distinct(self.entries@)) by {
                        assert forall|a: int, b: int| 0 <= a < b < self.entries@.len() implies (
                        #[trigger] self.entries@[a]).id != (#[trigger] self.entries@[b]).id by {
                            assert(before.entries[a].id != before.entries[b].id);
                        }
                    }
                }
                Ok(found)
            },
            None => {
                match fresh {
                    Ok(reader) => {
                        let tick: u64 = self.ticks.wrapping_add(1);
                        self.ticks = tick;
                        let slot = ReaderSlot { id, reader: reader.clone(), last_access: tick };
                        self.entries.push(slot);
                        proof {
                            assert(ids_distinct(self.entries@)) by {
                                assert forall|a: int, b: int|
                                    0 <= a < b < self.entries@.len() implies (
                                #[trigger] self.entries@[a]).id != (
                                #[trigger] self.entries@[b]).id by {
                                    assert(before.entries[a].id == self.entries@[a].id);
                                    if b < before.entries.len() {
                                        assert(before.entries[a].id != before.entries[b].id);
                                    }
                                }
                            }
                        }
                        self.evict_if_needed();
                        Ok(reader)
                    },
                    Err(e) => Err(e),
                }
            },
        }
    }

    /// Closes the reader of a table and forgets its pins.
    pub fn remove(&mut self, id: u64)
        requires
            old(self).wf(),
        ensures
            final(self).wf(),
            final(self)@.pins == old(self)@.pins.remove(id),
            final(self)@.ticks == old(self)@.ticks,
            final(self)@.max == old(self)@.max,
            !is_open(final(self)@.entries, id),
            forall|x: ReaderSlot<R>|
                #[trigger] final(self)@.entries.contains(x) <==> old(self)@.entries.contains(x)
                    && x.id != id,
    {
        let ghost before = self.entries@;
        self.pins.remove(id);
        match self.find(id) {
            Some(i) => {
                self.entries.remove(i);
                proof {
                    let after = self.entries@;
                    assert(after =~= before.remove(i as int));
                    remove_keeps_distinct(before, i as int);
                    assert forall|x: ReaderSlot<R>| #[trigger] after.contains(x) <==> before.contains(
                        x,
                    ) && x.id != id by {
                        if after.contains(x) {
                            let j = choose|j: int| 0 <= j < after.len() && after[j] == x;
                            let k = if j < i {
                                j
                            } else {
                                j + 1
                            };
                            assert(before[k] == x);
                            if k < i {
                                assert(before[k].id != before[i as int].id);
                            } else {
                                assert(before[i as int].id != before[k].id);
                            }
                        }
                        if before.contains(x) && x.id != id {
                            let k = choose|k: int| 0 <= k < before.len() && before[k] == x;
                            let j = if k < i {
                                k
                            } else {
                                k - 1
                            };
                            assert(after[j] == x);
                        }
                    }
                    if is_open(after, id) {
                        let j = choose|j: int| 0 <= j < after.len() && (#[trigger] after[j]).id == id;
                        assert(after.contains(after[j]));
                    }
                }
            },
            None => {
                assert forall|x: ReaderSlot<R>| #[trigger] before.contains(x) implies x.id != id by {
                    let k = choose|k: int| 0 <= k < before.len() && before[k] == x;
                    assert(before[k].id == x.id);
                }
            },
        }
    }

    /// Keeps the reader of a table open until a matching `unpin`.
    pub fn pin(&mut self, id: u64)
        requires
            old(self).wf(),
            count_of(old(self)@.pins, id) < u64::MAX,
        ensures
            final(self).wf(),
            final(self)@ == (ReaderCacheView {
                pins: old(self)@.pins.insert(id, (count_of(old(self)@.pins, id) + 1) as u64),
                ..old(self)@
            }),
    {
        self.pins.increment(id);
    }

    /// Takes one pin away, and closes readers where that makes it possible.
    pub fn unpin(&mut self, id: u64)
        requires
            old(self).wf(),
        ensures
            final(self).wf(),
            ({
                let pins = decremented(old(self)@.pins, id);
                final(self)@ == (ReaderCacheView {
                    pins,
                    entries: closed_down(old(self)@.entries, pins, old(self)@.max),
                    ..old(self)@
                })
            }),
    {
        self.pins.decrement(id);
        self.evict_if_needed();
    }

    /// The number of open readers.
    pub fn open_count(&self) -> (n: usize)
        ensures
            n == self@.entries.len(),
    {
        self.entries.len()
    }

    fn evict_if_needed(&mut self)
        requires
            old(self).wf(),
        ensures
            final(self).wf(),
            final(self)@ == (ReaderCacheView {
                entries: closed_down(old(self)@.entries, old(self)@.pins, old(self)@.max),
                ..old(self)@
            }),
    {
        if self.max_readers == 0 {
            return;
        }
        let ghost start = self@.entries;
        while self.entries.len() > self.max_readers
            invariant
                self.wf(),
                self@ == (ReaderCacheView { entries: self@.entries, ..old(self)@ }),
                self.max_readers > 0,
                closed_down(self@.entries, self@.pins, self@.max) == closed_down(
                    start,
                    self@.pins,
                    self@.max,
                ),
            ensures
                self@.entries == closed_down(start, self@.pins, self@.max),
            decreases self.entries.len(),
        {
            let ghost now = self@.entries;
            proof {
                idle_slot_facts(now, self@.pins, now.len() as int);
            }
            match self.pick_idle() {
                Some(v) => {
                    self.entries.remove(v);
                    proof {
                        assert(self.entries@ =~= now.remove(v as int));
                        remove_keeps_distinct(now, v as int);
                    }
                },
                None => {
                    break;
                },
            }
        }
    }

    /// The unpinned slot used least recently.
    fn pick_idle(&self) -> (r: Option<usize>)
        requires
            self.wf(),
        ensures
            match r {
                Some(v) => v < self@.entries.len() && v == idle_slot(
                    self@.entries,
                    self@.pins,
                    self@.entries.len() as int,
                ),
                None => idle_slot(self@.entries, self@.pins, self@.entries.len() as int) < 0,
            },
    {
        let mut best: Option<usize> = None;
        let mut i: usize = 0;
        while i < self.entries.len()
            invariant
                self.wf(),
                i <= self.entries@.len(),
                match best {
                    Some(b) => b < i && b == idle_slot(self@.entries, self@.pins, i as int),
                    None => idle_slot(self@.entries, self@.pins, i as int) < 0,
                },
            decreases self.entries.len() - i,
        {
            if self.pins.count(self.entries[i].id) == 0 {
                match best {
                    None => {
                        best = Some(i);
                    },
                    Some(b) => {
                        if self.entries[i].last_access < self.entries[b].last_access {
                            best = Some(i);
                        }
                    },
                }
            }
            i = i + 1;
        }
        best
    }
}

} // verus!
