//! Long-lived snapshots and the pins that keep their tables alive.

use vstd::prelude::*;
use crate::bytes::lex_le;
use crate::errors::EngineResult;
use crate::iter::ScanDirection;
use crate::snapshot::{pair_views, Layers, RangeIter};
use crate::sorted_map::{count_of, decremented, SortedMap};
use crate::store::{listing, value_and_seq_at, value_at};

verus! {

/// How often `id` occurs in `ids`.
pub open spec fn times(ids: Seq<u64>, id: u64) -> nat
    decreases ids.len(),
{
    if ids.len() == 0 {
        0
    } else {
        times(ids.drop_last(), id) + (if ids.last() == id {
            1nat
        } else {
            0nat
        })
    }
}

/// What is left of a count after taking away `n`.
pub open spec fn less(count: u64, n: nat) -> nat {
    if count >= n {
        (count - n) as nat
    } else {
        0
    }
}

/// No key has a count of zero.
pub open spec fn counts_positive(m: Map<u64, u64>) -> bool {
    forall|k: u64| #[trigger] m.dom().contains(k) ==> m[k] > 0
}

/// Pins and snapshot marks that the engine and its snapshots share.
#[derive(Debug)]
pub struct PinState {
    pub pin_counts: SortedMap,
    /// How many live snapshots read at each sequence number.
    pub live_snapshot_seqs: SortedMap,
    /// Tables to remove once nothing pins them.
    pub deferred_unlinks: Vec<u64>,
}

/// How often a number occurs in a list.
fn occurrences(ids: &[u64], id: u64) -> (n: usize)
    ensures
        n == times(ids@, id),
{
    let mut n: usize = 0;
    let mut i: usize = 0;
    assert(ids@.take(0) =~= Seq::<u64>::empty());
    while i < ids.len()
        invariant
            i <= ids@.len(),
            n <= i,
            n == times(ids@.take(i as int), id),
        decreases ids.len() - i,
    {
        proof {
            assert(ids@.take(i + 1).drop_last() =~= ids@.take(i as int));
        }
        if ids[i] == id {
            n = n + 1;
        }
        i = i + 1;
    }
    assert(ids@.take(ids@.len() as int) =~= ids@);
    n
}

proof fn occurs_somewhere(ids: Seq<u64>, id: u64)
    requires
        times(ids, id) > 0,
    ensures
        exists|j: int| 0 <= j < ids.len() && #[trigger] ids[j] == id,
    decreases ids.len(),
{
    if ids.last() == id {
        assert(ids[ids.len() - 1] == id);
    } else {
        occurs_somewhere(ids.drop_last(), id);
        let j = choose|j: int| 0 <= j < ids.drop_last().len() && ids.drop_last()[j] == id;
        assert(ids[j] == id);
    }
}

impl PinState {
    /// Counts are positive, and every deferred table is pinned and listed once.
    pub open spec fn wf(&self) -> bool {
        &&& self.pin_counts.wf()
        &&& self.live_snapshot_seqs.wf()
        &&& counts_positive(self.pin_counts@)
        &&& counts_positive(self.live_snapshot_seqs@)
        &&& forall|i: int|
            0 <= i < self.deferred_unlinks@.len() ==> count_of(
                self.pin_counts@,
                #[trigger] self.deferred_unlinks@[i],
            ) > 0
        &&& self.deferred_unlinks@.no_duplicates()
    }

    /// The sequence number below which no live snapshot reads, or `synced` where
    /// there is none.
    pub open spec fn watermark(&self, synced: u64) -> u64 {
        if self.live_snapshot_seqs@ == Map::<u64, u64>::empty() {
            synced
        } else {
            choose|k: u64|
                self.live_snapshot_seqs@.dom().contains(k) && forall|j: u64| #[trigger]
                    self.live_snapshot_seqs@.dom().contains(j) ==> k <= j
        }
    }

    /// The same tables are pinned and deferred, and the same snapshots live.
    pub open spec fn same_pins(&self, other: &PinState) -> bool {
        &&& self.pin_counts@ == other.pin_counts@
        &&& self.live_snapshot_seqs@ == other.live_snapshot_seqs@
        &&& self.deferred_unlinks@ == other.deferred_unlinks@
    }

    /// One more snapshot of the tables `ids` at `seq_upper` can be counted.
    pub open spec fn room_for(&self, ids: Seq<u64>, seq_upper: u64) -> bool {
        &&& forall|id: u64| #[trigger] count_of(self.pin_counts@, id) + times(ids, id) <= u64::MAX
        &&& count_of(self.live_snapshot_seqs@, seq_upper) < u64::MAX
    }

    pub fn new() -> (p: Self)
        ensures
            p.wf(),
            p.pin_counts@ == Map::<u64, u64>::empty(),
            p.live_snapshot_seqs@ == Map::<u64, u64>::empty(),
            p.deferred_unlinks@ == Seq::<u64>::empty(),
    {
        PinState {
            pin_counts: SortedMap::new(),
            live_snapshot_seqs: SortedMap::new(),
            deferred_unlinks: Vec::new(),
        }
    }

    /// Whether one more snapshot of the tables `ids` at `seq_upper` can be counted.
    pub fn has_room(&self, ids: &[u64], seq_upper: u64) -> (r: bool)
        requires
            self.wf(),
        ensures
            r == self.room_for(ids@, seq_upper),
    {
        let mut i: usize = 0;
        while i < ids.len()
            invariant
                i <= ids@.len(),
                self.wf(),
                forall|j: int|
                    0 <= j < i ==> count_of(self.pin_counts@, #[trigger] ids@[j]) + times(
                        ids@,
                        ids@[j],
                    ) <= u64::MAX,
            decreases ids.len() - i,
        {
            let n: usize = occurrences(ids, ids[i]);
            if self.pin_counts.count(ids[i]) > u64::MAX - n as u64 {
                assert(count_of(self.pin_counts@, ids@[i as int]) + times(ids@, ids@[i as int])
                    > u64::MAX);
                return false;
            }
            i = i + 1;
        }
        proof {
            assert forall|id: u64| #[trigger]
                count_of(self.pin_counts@, id) + times(ids@, id) <= u64::MAX by {
                if times(ids@, id) > 0 {
                    occurs_somewhere(ids@, id);
                    let j = choose|j: int| 0 <= j < ids@.len() && ids@[j] == id;
                    assert(ids@[j] == id);
                }
            }
        }
        self.live_snapshot_seqs.count(seq_upper) < u64::MAX
    }

    /// Pins tables for a snapshot that reads at `seq_upper`.
    pub fn acquire_pins(&mut self, ids: &[u64], seq_upper: u64)
        requires
            old(self).wf(),
            old(self).room_for(ids@, seq_upper),
        ensures
            final(self).wf(),
            forall|id: u64| #[trigger]
                count_of(final(self).pin_counts@, id) == count_of(old(self).pin_counts@, id)
                    + times(ids@, id),
            final(self).live_snapshot_seqs@ == old(self).live_snapshot_seqs@.insert(
                seq_upper,
                (count_of(old(self).live_snapshot_seqs@, seq_upper) + 1) as u64,
            ),
            final(self).deferred_unlinks@ == old(self).deferred_unlinks@,
    {
        let ghost start = self.pin_counts@;
        let mut i: usize = 0;
        assert(ids@.take(0) =~= Seq::<u64>::empty());
        while i < ids.len()
            invariant
                i <= ids@.len(),
                self.wf(),
                forall|id: u64| #[trigger]
                    count_of(start, id) + times(ids@, id) <= u64::MAX,
                forall|id: u64| #[trigger]
                    count_of(self.pin_counts@, id) == count_of(start, id) + times(
                        ids@.take(i as int),
                        id,
                    ),
                self.live_snapshot_seqs@ == old(self).live_snapshot_seqs@,
                self.deferred_unlinks@ == old(self).deferred_unlinks@,
            decreases ids.len() - i,
        {
            let id: u64 = ids[i];
            proof {
                let longer = ids@.take(i + 1);
                assert(longer.drop_last() =~= ids@.take(i as int));
                assert(longer.last() == id);
                times_prefix(ids@, i + 1, id);
                assert(count_of(start, id) + times(ids@, id) <= u64::MAX);
                assert(count_of(self.pin_counts@, id) == count_of(start, id) + times(
                    ids@.take(i as int),
                    id,
                ));
            }
            let ghost before = self.pin_counts@;
            self.pin_counts.increment(id);
            proof {
                assert forall|x: u64| #[trigger] count_of(self.pin_counts@, x) == count_of(start, x)
                    + times(ids@.take(i + 1), x) by {
                    assert(count_of(before, x) == count_of(start, x) + times(
                        ids@.take(i as int),
                        x,
                    ));
                    assert(ids@.take(i + 1).drop_last() =~= ids@.take(i as int));
                }
                assert forall|j: int| 0 <= j < self.deferred_unlinks@.len() implies count_of(
                    self.pin_counts@,
                    #[trigger] self.deferred_unlinks@[j],
                ) > 0 by {
                    assert(count_of(before, self.deferred_unlinks@[j]) > 0);
                }
            }
            i = i + 1;
        }
        assert(ids@.take(ids@.len() as int) =~= ids@);
        self.live_snapshot_seqs.increment(seq_upper);
    }

    /// Undoes `acquire_pins`, and hands out the deferred tables that nothing
    /// pins any more, in the order in which they were deferred.
    pub fn release_pins(&mut self, ids: &[u64], seq_upper: u64) -> (ready: Vec<u64>)
        requires
            old(self).wf(),
        ensures
            final(self).wf(),
            forall|id: u64| #[trigger]
                count_of(final(self).pin_counts@, id) == less(
                    count_of(old(self).pin_counts@, id),
                    times(ids@, id),
                ),
            final(self).live_snapshot_seqs@ == decremented(
                old(self).live_snapshot_seqs@,
                seq_upper,
            ),
            ready@ == old(self).deferred_unlinks@.filter(
                |id: u64| count_of(final(self).pin_counts@, id) == 0,
            ),
            final(self).deferred_unlinks@ == old(self).deferred_unlinks@.filter(
                |id: u64| count_of(final(self).pin_counts@, id) > 0,
            ),
    {
        let ghost start = self.pin_counts@;
        let mut i: usize = 0;
        assert(ids@.take(0) =~= Seq::<u64>::empty());
        while i < ids.len()
            invariant
                i <= ids@.len(),
                self.pin_counts.wf(),
                counts_positive(self.pin_counts@),
                forall|id: u64| #[trigger]
                    count_of(self.pin_counts@, id) == less(
                        count_of(start, id),
                        times(ids@.take(i as int), id),
                    ),
                self.live_snapshot_seqs == old(self).live_snapshot_seqs,
                self.deferred_unlinks == old(self).deferred_unlinks,
            decreases ids.len() - i,
        {
            let id: u64 = ids[i];
            let ghost before = self.pin_counts@;
            self.pin_counts.decrement(id);
            proof {
                assert forall|x: u64| #[trigger] count_of(self.pin_counts@, x) == less(
                    count_of(start, x),
                    times(ids@.take(i + 1), x),
                ) by {
                    assert(count_of(before, x) == less(
                        count_of(start, x),
                        times(ids@.take(i as int), x),
                    ));
                    assert(ids@.take(i + 1).drop_last() =~= ids@.take(i as int));
                    assert(ids@.take(i + 1).last() == id);
                }
            }
            i = i + 1;
        }
        assert(ids@.take(ids@.len() as int) =~= ids@);
        self.live_snapshot_seqs.decrement(seq_upper);
        let ghost all = self.deferred_unlinks@;
        let ghost gone = |id: u64| count_of(self.pin_counts@, id) == 0;
        let ghost held = |id: u64| count_of(self.pin_counts@, id) > 0;
        let mut ready: Vec<u64> = Vec::new();
        let mut kept: Vec<u64> = Vec::new();
        let mut j: usize = 0;
        proof {
            reveal(Seq::filter);
            assert(all.take(0) =~= Seq::<u64>::empty());
        }
        while j < self.deferred_unlinks.len()
            invariant
                j <= self.deferred_unlinks@.len(),
                self.pin_counts.wf(),
                all == self.deferred_unlinks@,
                gone == (|id: u64| count_of(self.pin_counts@, id) == 0),
                held == (|id: u64| count_of(self.pin_counts@, id) > 0),
                ready@ == all.take(j as int).filter(gone),
                kept@ == all.take(j as int).filter(held),
            decreases self.deferred_unlinks.len() - j,
        {
            let id: u64 = self.deferred_unlinks[j];
            proof {
                reveal(Seq::filter);
                assert(all.take(j + 1).drop_last() =~= all.take(j as int));
                assert(all.take(j + 1).last() == id);
            }
            if self.pin_counts.count(id) == 0 {
                ready.push(id);
            } else {
                kept.push(id);
            }
            j = j + 1;
        }
        proof {
            assert(all.take(all.len() as int) =~= all);
            filter_facts(all, held);
        }
        self.deferred_unlinks = kept;
        ready
    }

    /// Whether a table may be removed now; a pinned one is deferred.
    pub fn try_unlink(&mut self, id: u64) -> (now: bool)
        requires
            old(self).wf(),
        ensures
            final(self).wf(),
            now == (count_of(old(self).pin_counts@, id) == 0),
            final(self).pin_counts@ == old(self).pin_counts@,
            final(self).live_snapshot_seqs@ == old(self).live_snapshot_seqs@,
            final(self).deferred_unlinks@ == (if now || old(self).deferred_unlinks@.contains(id) {
                old(self).deferred_unlinks@
            } else {
                old(self).deferred_unlinks@.push(id)
            }),
    {
        if self.pin_counts.count(id) == 0 {
            return true;
        }
        if !crate::compaction::contains_id(&self.deferred_unlinks, id) {
            self.deferred_unlinks.push(id);
        }
        false
    }

    /// The smallest sequence number that a live snapshot reads at, or `synced`
    /// where there is no live snapshot.
    pub fn gc_watermark(&self, synced: u64) -> (w: u64)
        requires
            self.wf(),
        ensures
            self.live_snapshot_seqs@ == Map::<u64, u64>::empty() ==> w == synced,
            self.live_snapshot_seqs@ != Map::<u64, u64>::empty()
                ==> self.live_snapshot_seqs@.dom().contains(w) && forall|j: u64| #[trigger]
                self.live_snapshot_seqs@.dom().contains(j) ==> w <= j,
            w == self.watermark(synced),
    {
        match self.live_snapshot_seqs.first_key() {
            Some(k) => k,
            None => synced,
        }
    }

    /// Whether no snapshot is live.
    pub fn no_snapshots(&self) -> (r: bool)
        requires
            self.wf(),
        ensures
            r == (self.live_snapshot_seqs@ == Map::<u64, u64>::empty()),
    {
        self.live_snapshot_seqs.is_empty()
    }
}

proof fn times_prefix(ids: Seq<u64>, n: int, id: u64)
    requires
        0 <= n <= ids.len(),
    ensures
        times(ids.take(n), id) <= times(ids, id),
    decreases ids.len(),
{
    if n < ids.len() {
        assert(ids.drop_last().take(n) =~= ids.take(n));
        times_prefix(ids.drop_last(), n, id);
    } else {
        assert(ids.take(n) =~= ids);
    }
}

proof fn filter_facts(s: Seq<u64>, p: spec_fn(u64) -> bool)
    ensures
        forall|i: int| 0 <= i < s.filter(p).len() ==> p(#[trigger] s.filter(p)[i]),
        s.no_duplicates() ==> s.filter(p).no_duplicates(),
        forall|x: u64| #[trigger] s.filter(p).contains(x) ==> s.contains(x),
    decreases s.len(),
{
    reveal(Seq::filter);
    if s.len() > 0 {
        let init = s.drop_last();
        filter_facts(init, p);
        let f = init.filter(p);
        assert forall|x: u64| #[trigger] s.filter(p).contains(x) implies s.contains(x) by {
            let i = choose|i: int| 0 <= i < s.filter(p).len() && s.filter(p)[i] == x;
            if i < f.len() {
                assert(f[i] == x);
                assert(f.contains(x));
                let j = choose|j: int| 0 <= j < init.len() && init[j] == x;
                assert(s[j] == x);
            } else {
                assert(s[s.len() - 1] == x);
            }
        }
        if s.no_duplicates() {
            assert(init.no_duplicates()) by {
                assert forall|i: int, j: int| 0 <= i < init.len() && 0 <= j < init.len() && i
                    != j implies init[i] != init[j] by {
                    assert(s[i] != s[j]);
                }
            }
            if p(s.last()) {
                assert forall|i: int, j: int|
                    0 <= i < s.filter(p).len() && 0 <= j < s.filter(p).len() && i != j implies s.filter(
                    p,
                )[i] != s.filter(p)[j] by {
                    let a = if i < j {
                        i
                    } else {
                        j
                    };
                    let b = if i < j {
                        j
                    } else {
                        i
                    };
                    if b == f.len() {
                        assert(f.contains(f[a]));
                        let k = choose|k: int| 0 <= k < init.len() && init[k] == f[a];
                        assert(s[k] != s[s.len() - 1]);
                    }
                }
            }
        }
    }
}

/// Releasing the pins that were acquired leaves every count as it was before.
pub proof fn pins_balance(
    before: Map<u64, u64>,
    held: Map<u64, u64>,
    after: Map<u64, u64>,
    ids: Seq<u64>,
)
    requires
        forall|id: u64| #[trigger]
            count_of(held, id) == count_of(before, id) + times(ids, id),
        forall|id: u64| #[trigger]
            count_of(after, id) == less(count_of(held, id), times(ids, id)),
    ensures
        forall|id: u64| #[trigger] count_of(after, id) == count_of(before, id),
{
    assert forall|id: u64| #[trigger] count_of(after, id) == count_of(before, id) by {
        assert(count_of(held, id) == count_of(before, id) + times(ids, id));
    }
}

/// A filter that every entry passes leaves a list as it is.
proof fn all_kept(s: Seq<u64>, p: spec_fn(u64) -> bool)
    requires
        forall|i: int| 0 <= i < s.len() ==> p(#[trigger] s[i]),
    ensures
        s.filter(p) == s,
    decreases s.len(),
{
    reveal(Seq::filter);
    if s.len() > 0 {
        all_kept(s.drop_last(), p);
        assert(s =~= s.drop_last().push(s.last()));
    }
}

/// Acquiring pins and then releasing them leaves the pins, the live snapshots and the
/// deferred tables exactly as they were.
pub proof fn release_undoes_acquire(
    before: PinState,
    held: PinState,
    after: PinState,
    tables: Seq<u64>,
    ceiling: u64,
)
    requires
        before.wf(),
        after.wf(),
        before.room_for(tables, ceiling),
        forall|id: u64| #[trigger]
            count_of(held.pin_counts@, id) == count_of(before.pin_counts@, id) + times(tables, id),
        held.live_snapshot_seqs@ == before.live_snapshot_seqs@.insert(
            ceiling,
            (count_of(before.live_snapshot_seqs@, ceiling) + 1) as u64,
        ),
        held.deferred_unlinks@ == before.deferred_unlinks@,
        forall|id: u64| #[trigger]
            count_of(after.pin_counts@, id) == less(
                count_of(held.pin_counts@, id),
                times(tables, id),
            ),
        after.live_snapshot_seqs@ == decremented(held.live_snapshot_seqs@, ceiling),
        after.deferred_unlinks@ == held.deferred_unlinks@.filter(
            |id: u64| count_of(after.pin_counts@, id) > 0,
        ),
    ensures
        after.same_pins(&before),
{
    pins_balance(before.pin_counts@, held.pin_counts@, after.pin_counts@, tables);
    let a = after.pin_counts@;
    let b = before.pin_counts@;
    assert forall|id: u64| #[trigger] a.dom().contains(id) == b.dom().contains(id) by {
        assert(count_of(a, id) == count_of(b, id));
    }
    assert forall|id: u64| #[trigger] a.dom().contains(id) implies a[id] == b[id] by {
        assert(count_of(a, id) == count_of(b, id));
    }
    assert(a =~= b);
    assert(after.live_snapshot_seqs@ =~= before.live_snapshot_seqs@);
    all_kept(before.deferred_unlinks@, |id: u64| count_of(after.pin_counts@, id) > 0);
}

/// A snapshot that stays readable while the store changes. It holds its layers, and
/// its tables are pinned until it is released.
#[derive(Debug)]
pub struct SnapshotHandle {
    seq_upper: u64,
    layers: Layers,
    sstable_ids: Vec<u64>,
}

impl SnapshotHandle {
    pub closed spec fn wf(&self) -> bool {
        self.layers.wf()
    }

    /// The ceiling that reads observe.
    pub closed spec fn ceiling(&self) -> u64 {
        self.seq_upper
    }

    /// The layers that the snapshot reads.
    pub closed spec fn content(&self) -> Layers {
        self.layers
    }

    /// The tables that the snapshot pins.
    pub closed spec fn pinned(&self) -> Seq<u64> {
        self.sstable_ids@
    }

    /// Takes a snapshot of some layers and pins their tables.
    pub(crate) fn new(
        seq_upper: u64,
        layers: Layers,
        sstable_ids: Vec<u64>,
        pins: &mut PinState,
    ) -> (h: SnapshotHandle)
        requires
            layers.wf(),
            old(pins).wf(),
            old(pins).room_for(sstable_ids@, seq_upper),
        ensures
            h.wf(),
            h.ceiling() == seq_upper,
            h.content() == layers,
            h.pinned() == sstable_ids@,
            final(pins).wf(),
            forall|id: u64| #[trigger]
                count_of(final(pins).pin_counts@, id) == count_of(old(pins).pin_counts@, id)
                    + times(sstable_ids@, id),
            final(pins).live_snapshot_seqs@ == old(pins).live_snapshot_seqs@.insert(
                seq_upper,
                (count_of(old(pins).live_snapshot_seqs@, seq_upper) + 1) as u64,
            ),
            final(pins).deferred_unlinks@ == old(pins).deferred_unlinks@,
    {
        pins.acquire_pins(sstable_ids.as_slice(), seq_upper);
        SnapshotHandle { seq_upper, layers, sstable_ids }
    }

    pub fn seq_upper(&self) -> (n: u64)
        ensures
            n == self.ceiling(),
    {
        self.seq_upper
    }

    /// What the snapshot holds for a key.
    pub fn get(&self, key: &[u8], now_ms: u64) -> (r: Option<Vec<u8>>)
        requires
            self.wf(),
        ensures
            match r {
                Some(x) => value_at(self.content().store(), key@, self.ceiling(), now_ms) == Some(
                    x@,
                ),
                None => value_at(self.content().store(), key@, self.ceiling(), now_ms) is None,
            },
    {
        self.layers.read(key, self.seq_upper, now_ms)
    }

    /// What the snapshot holds for a key, with the sequence number of the version:
    /// the document's revision for optimistic concurrency.
    pub fn get_with_seq(&self, key: &[u8], now_ms: u64) -> (r: Option<(Vec<u8>, u64)>)
        requires
            self.wf(),
        ensures
            match r {
                Some((x, q)) => value_and_seq_at(
                    self.content().store(),
                    key@,
                    self.ceiling(),
                    now_ms,
                ) == Some((x@, q)),
                None => value_and_seq_at(
                    self.content().store(),
                    key@,
                    self.ceiling(),
                    now_ms,
                ) is None,
            },
    {
        self.layers.read_with_seq(key, self.seq_upper, now_ms)
    }

    /// The pairs of the user keys from `lo` up to but not including `hi`, keys
    /// ascending. An empty `hi` stands for no upper bound.
    pub fn scan(&self, lo: &[u8], hi: &[u8], now_ms: u64) -> (r: EngineResult<OwnedRangeIter<'_>>)
        requires
            self.wf(),
            hi@.len() == 0 || lex_le(lo@, hi@),
        ensures
            r matches Ok(it) && it.wf() && listing(
                self.content().store(),
                lo@,
                hi@,
                self.ceiling(),
                now_ms,
                ScanDirection::Forward,
                it.pending(),
            ),
    {
        match self.layers.scan(lo, hi, self.seq_upper, now_ms, ScanDirection::Forward) {
            Ok(inner) => Ok(OwnedRangeIter { inner }),
            Err(e) => Err(e),
        }
    }

    /// The pairs of the user keys from `lo` up to but not including `hi`, keys
    /// descending.
    pub fn scan_rev(&self, lo: &[u8], hi: &[u8], now_ms: u64) -> (r: EngineResult<
        OwnedRangeIter<'_>,
    >)
        requires
            self.wf(),
            hi@.len() == 0 || lex_le(lo@, hi@),
        ensures
            r matches Ok(it) && it.wf() && listing(
                self.content().store(),
                lo@,
                hi@,
                self.ceiling(),
                now_ms,
                ScanDirection::Reverse,
                it.pending(),
            ),
    {
        match self.layers.scan(lo, hi, self.seq_upper, now_ms, ScanDirection::Reverse) {
            Ok(inner) => Ok(OwnedRangeIter { inner }),
            Err(e) => Err(e),
        }
    }

    /// Releases the snapshot's pins, and hands out the tables that may be removed now.
    pub fn release(self, pins: &mut PinState) -> (ready: Vec<u64>)
        requires
            old(pins).wf(),
        ensures
            final(pins).wf(),
            forall|id: u64| #[trigger]
                count_of(final(pins).pin_counts@, id) == less(
                    count_of(old(pins).pin_counts@, id),
                    times(self.pinned(), id),
                ),
            final(pins).live_snapshot_seqs@ == decremented(
                old(pins).live_snapshot_seqs@,
                self.ceiling(),
            ),
            ready@ == old(pins).deferred_unlinks@.filter(
                |id: u64| count_of(final(pins).pin_counts@, id) == 0,
            ),
            final(pins).deferred_unlinks@ == old(pins).deferred_unlinks@.filter(
                |id: u64| count_of(final(pins).pin_counts@, id) > 0,
            ),
    {
        pins.release_pins(self.sstable_ids.as_slice(), self.seq_upper)
    }
}

/// A range scan over a snapshot in progress.
pub struct OwnedRangeIter<'a> {
    inner: RangeIter<'a>,
}

impl<'a> OwnedRangeIter<'a> {
    pub closed spec fn wf(&self) -> bool {
        self.inner.wf()
    }

    /// The pairs still to come.
    pub closed spec fn pending(&self) -> Seq<(Seq<u8>, Seq<u8>)> {
        self.inner.pending()
    }

    /// The next pair.
    pub fn next(&mut self) -> (r: Option<EngineResult<(Vec<u8>, Vec<u8>)>>)
        requires
            old(self).wf(),
        ensures
            final(self).wf(),
            match r {
                Some(Ok(p)) => old(self).pending().len() > 0 && (p.0@, p.1@) == old(
                    self,
                ).pending()[0] && final(self).pending() == old(self).pending().skip(1),
                Some(Err(_)) => false,
                None => old(self).pending().len() == 0 && final(self).pending() == old(
                    self,
                ).pending(),
            },
    {
        self.inner.next()
    }

    /// All pairs still to come.
    pub fn collect(self) -> (v: Vec<(Vec<u8>, Vec<u8>)>)
        requires
            self.wf(),
        ensures
            pair_views(v@) == self.pending(),
    {
        self.inner.collect()
    }
}

} // verus!
