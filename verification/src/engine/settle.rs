//! Forced flushes: the memtables are written out, and compactions run until none is due.

use vstd::prelude::*;
use crate::engine::admin::flushable;
use crate::engine::compact::same_reads;
use crate::engine::jobs::{all_empty, compaction_chain, raised, to_flush};
use crate::engine::maintain::top_seq_attained;
use crate::engine::Engine;
use crate::errors::{EngineError, EngineResult};
use crate::memtable::Memtable;
use crate::records::Version;
use crate::snapshot::memtable_runs;
use crate::sstable::{seq_bounds, top_seq};
use crate::text::text_of;

verus! {

/// A memtable holds a version or waits to be written out.
pub open spec fn in_memtables(e: &Engine) -> bool {
    e.layers.active@.len() > 0 || e.layers.immutables@.len() > 0
}

impl Engine {
    /// What writing the memtables out and running the compactions that are due makes of an
    /// engine.
    pub open spec fn rests_after(&self, before: &Engine) -> bool {
        exists|mid: Engine, n: nat|
            #![trigger compaction_chain(mid, *self, n)]
            mid.wf() && mid.flushed_all(before) && compaction_chain(mid, *self, n)
                && self.at_rest()
    }

    /// What a forced flush makes of an engine: one without memtables stays as it is.
    pub open spec fn flushed_from(&self, before: &Engine) -> bool {
        if in_memtables(before) {
            self.rests_after(before)
        } else {
            *self == *before
        }
    }

    /// The number up to which a forced flush makes log segments needless, where it does.
    pub open spec fn segments_freed(&self) -> Option<u64> {
        let runs = to_flush(self.layers);
        let c = self.covered_up_to(raised(0, runs));
        if !all_empty(runs) && c > 0 {
            Some(c)
        } else {
            None
        }
    }

    /// The ceiling from which on readers see no difference after a forced flush.
    pub open spec fn settled_watermark(&self) -> u64 {
        self.pins.watermark(raised(self.synced_seq, to_flush(self.layers)))
    }

    /// The catalog takes no updates, and there are some to make.
    pub open spec fn refuses_to_settle(&self) -> bool {
        self.apply_scheduler.shut_down && (in_memtables(self) || !self.at_rest())
    }

    /// Whether a memtable holds a version or waits to be written out.
    pub(crate) fn holds_memtables(&self) -> (r: bool)
        ensures
            r == in_memtables(self),
    {
        !self.layers.active.is_empty() || self.layers.immutables.len() > 0
    }

    /// Whether a memtable holds anything, and the largest sequence number in the memtables,
    /// zero for none.
    fn top_in_memory(&self) -> (r: (bool, u64))
        requires
            self.wf(),
        ensures
            r.0 == !all_empty(to_flush(self.layers)),
            r.1 == raised(0, to_flush(self.layers)),
    {
        let ghost runs = to_flush(self.layers);
        let ghost frozen = memtable_runs(self.layers.immutables@);
        let mut some: bool = false;
        let mut top: u64 = 0;
        let mut i: usize = 0;
        assert(runs.skip(0) =~= runs);
        while i < self.layers.immutables.len()
            invariant
                i <= self.layers.immutables@.len(),
                self.wf(),
                runs == to_flush(self.layers),
                frozen == memtable_runs(self.layers.immutables@),
                raised(top, runs.skip(i as int)) == raised(0, runs),
                some <==> exists|j: int| 0 <= j < i && (#[trigger] runs[j]).len() > 0,
            decreases self.layers.immutables.len() - i,
        {
            let m: &Memtable = &self.layers.immutables[i];
            proof {
                assert(runs[i as int] == frozen[i as int]);
                assert(frozen[i as int] == m@);
                assert(runs.skip(i as int)[0] == m@);
                assert(runs.skip(i as int).skip(1) =~= runs.skip(i + 1));
            }
            if !m.is_empty() {
                let n: u64 = m.max_seq();
                proof {
                    largest_is_top(m@, n);
                }
                some = true;
                if n > top {
                    top = n;
                }
            }
            i = i + 1;
        }
        if !self.layers.active.is_empty() {
            let n: u64 = self.layers.active.max_seq();
            proof {
                largest_is_top(self.layers.active@, n);
                assert(runs.skip(i as int)[0] == self.layers.active@);
                assert(runs.skip(i as int).skip(1) =~= Seq::<Seq<Version>>::empty());
                assert(runs[i as int].len() > 0);
                reveal_with_fuel(raised, 2);
            }
            some = true;
            if n > top {
                top = n;
            }
        } else {
            assert(runs.skip(i as int) =~= Seq::<Seq<Version>>::empty());
        }
        (some, top)
    }

    /// Writes the memtables out, and runs compactions until none is due. Returns the
    /// number up to which log segments are then needless.
    pub(crate) fn settle(&mut self) -> (r: EngineResult<Option<u64>>)
        requires
            old(self).wf(),
            flushable(old(self)),
        ensures
            final(self).wf(),
            r is Err <==> old(self).refuses_to_settle(),
            match r {
                Ok(freed) => final(self).rests_after(old(self)) && freed == old(self).segments_freed(),
                Err(e) => (e matches EngineError::Io(m) && m@ == "apply worker shut down"@)
                    && final(self).layers == old(self).layers,
            },
            r is Ok ==> final(self).layers.active@.len() == 0 && final(self).layers.immutables@.len() == 0,
            r is Err ==> *final(self) == (Engine {
                apply_scheduler: final(self).apply_scheduler,
                ..*old(self)
            }),
            same_reads(old(self).store(), final(self).store(), old(self).settled_watermark()),
            r is Ok ==> final(self).kept_by_settling(old(self)),
    {
        if self.apply_scheduler.shut_down && self.holds_memtables() {
            return Err(EngineError::Io(text_of("apply worker shut down")));
        }
        let (some, top): (bool, u64) = self.top_in_memory();
        let freed: Option<u64> = if some {
            let c: u64 = self.wal_segments_covered(top);
            if c > 0 {
                Some(c)
            } else {
                None
            }
        } else {
            None
        };
        self.write_out();
        let ghost mid = *self;
        let drained: EngineResult<bool> = self.drain_compaction();
        match drained {
            Ok(_) => {
                assert(mid.flushed_all(old(self)));
                Ok(freed)
            },
            Err(e) => Err(e),
        }
    }

    /// What neither writing memtables out nor compactions change.
    pub open spec fn kept_by_settling(&self, before: &Engine) -> bool {
        let runs = to_flush(before.layers);
        &&& self.buffered_seq == raised(before.buffered_seq, runs)
        &&& self.synced_seq == raised(before.synced_seq, runs)
        &&& self.pins.pin_counts@ == before.pins.pin_counts@
        &&& self.pins.live_snapshot_seqs@ == before.pins.live_snapshot_seqs@
        &&& *self == (Engine {
            layers: self.layers,
            next_sstable_id: self.next_sstable_id,
            in_flight_wal_bytes: self.in_flight_wal_bytes,
            buffered_seq: self.buffered_seq,
            synced_seq: self.synced_seq,
            pins: self.pins,
            dir_fsync_pending: self.dir_fsync_pending,
            ..*before
        })
    }

    /// Writes all memtables out as tables, and runs compactions until none is due. Returns
    /// the number up to which log segments can then be unlinked.
    pub fn force_flush(&mut self) -> (r: EngineResult<Option<u64>>)
        requires
            old(self).wf(),
            flushable(old(self)),
        ensures
            final(self).wf(),
            r is Err <==> old(self).apply_scheduler.shut_down && in_memtables(old(self)),
            match r {
                Ok(freed) => final(self).flushed_from(old(self)) && freed == old(
                    self,
                ).segments_freed(),
                Err(e) => (e matches EngineError::Io(m) && m@ == "apply worker shut down"@)
                    && *final(self) == (Engine {
                    apply_scheduler: final(self).apply_scheduler,
                    ..*old(self)
                }),
            },
            r is Ok ==> final(self).layers.active@.len() == 0 && final(self).layers.immutables@.len() == 0,
            same_reads(old(self).store(), final(self).store(), old(self).settled_watermark()),
            r is Ok ==> final(self).kept_by_settling(old(self)),
    {
        if !self.holds_memtables() {
            assert(all_empty(to_flush(self.layers)));
            return Ok(None);
        }
        self.settle()
    }

    /// Writes all memtables out as tables, and runs compactions until none is due. Returns
    /// the number up to which log segments can then be unlinked.
    pub fn flush(&mut self) -> (r: EngineResult<Option<u64>>)
        requires
            old(self).wf(),
            flushable(old(self)),
        ensures
            final(self).wf(),
            r is Err <==> old(self).apply_scheduler.shut_down && in_memtables(old(self)),
            match r {
                Ok(freed) => final(self).flushed_from(old(self)) && freed == old(
                    self,
                ).segments_freed(),
                Err(e) => (e matches EngineError::Io(m) && m@ == "apply worker shut down"@)
                    && *final(self) == (Engine {
                    apply_scheduler: final(self).apply_scheduler,
                    ..*old(self)
                }),
            },
            same_reads(old(self).store(), final(self).store(), old(self).settled_watermark()),
    {
        self.force_flush()
    }
}

proof fn largest_is_top(s: Seq<Version>, n: u64)
    requires
        s.len() > 0,
        crate::memtable::has_seq(s, n),
        forall|i: int| 0 <= i < s.len() ==> (#[trigger] s[i]).0.seq <= n,
    ensures
        top_seq(s) == n,
{
    top_seq_attained(s);
    let i = choose|i: int| 0 <= i < s.len() && (#[trigger] s[i]).0.seq == n;
    seq_bounds(s, i);
}

} // verus!
