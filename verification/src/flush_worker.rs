//! The flush of frozen memtables into level-0 tables, and the state of the
//! background worker that does it.

use vstd::prelude::*;
use crate::entry::Entry;
use crate::keys::InternalKey;
use crate::manifest::SstableMeta;
use crate::records::{sorted, versions};
use crate::sstable::{describe_pairs, meta_of, top_seq, SstableReader};

verus! {

/// The time, in nanoseconds, that is reported of a worker that nobody timed.
pub fn worker_elapsed_placeholder() -> (ns: u64)
    ensures
        ns == 0,
{
    0
}

/// What a flush made.
#[derive(Debug)]
pub struct FlushExecuteResult {
    pub meta: SstableMeta,
    pub reader: SstableReader,
    pub max_seq: u64,
}

/// Makes a level-0 table of the pairs of a memtable.
pub fn execute_flush(pairs: Vec<(InternalKey, Entry)>, id: u64) -> (r: FlushExecuteResult)
    requires
        sorted(versions(pairs@)),
        0 < pairs@.len(),
        pairs@.len() * 10 <= usize::MAX,
    ensures
        r.reader.wf(),
        r.reader@ == versions(pairs@),
        r.meta@ == meta_of(versions(pairs@), id, 0),
        r.max_seq == top_seq(versions(pairs@)),
        r.reader.filter_view() is Some,
{
    let meta: SstableMeta = describe_pairs(pairs.as_slice(), id, 0);
    let max_seq: u64 = meta.max_seq;
    let reader: SstableReader = SstableReader::build(pairs, true);
    FlushExecuteResult { meta, reader, max_seq }
}

/// The state of the background worker.
#[derive(Debug)]
pub struct FlushScheduler {
    pub worker_busy: bool,
    /// The worker failed and nobody has asked yet.
    pub worker_failed: bool,
    pub last_error: Option<String>,
}

impl Default for FlushScheduler {
    fn default() -> (s: Self)
        ensures
            !s.worker_busy,
            !s.worker_failed,
            s.last_error is None,
    {
        FlushScheduler::new()
    }
}

impl FlushScheduler {
    pub fn new() -> (s: Self)
        ensures
            !s.worker_busy,
            !s.worker_failed,
            s.last_error is None,
    {
        FlushScheduler { worker_busy: false, worker_failed: false, last_error: None }
    }

    pub fn note_worker_failed(&mut self, err: String)
        ensures
            *final(self) == (FlushScheduler {
                last_error: Some(err),
                worker_failed: true,
                ..*old(self)
            }),
    {
        self.last_error = Some(err);
        self.worker_failed = true;
    }

    /// Hands out the worker's last failure once.
    pub fn take_worker_failure(&mut self) -> (r: Option<String>)
        ensures
            old(self).worker_failed ==> r == old(self).last_error && *final(self) == (
            FlushScheduler { worker_failed: false, last_error: None, ..*old(self) }),
            !old(self).worker_failed ==> r is None && *final(self) == *old(self),
    {
        if !self.worker_failed {
            return None;
        }
        self.worker_failed = false;
        self.last_error.take()
    }

    pub fn is_worker_busy(&self) -> (r: bool)
        ensures
            r == self.worker_busy,
    {
        self.worker_busy
    }

    /// Takes the worker for a flush of this many pairs, where there are any and
    /// it is idle.
    pub fn try_submit(&mut self, pairs: usize) -> (r: bool)
        ensures
            r == (pairs > 0 && !old(self).worker_busy),
            *final(self) == if r {
                FlushScheduler { worker_failed: false, worker_busy: true, ..*old(self) }
            } else {
                *old(self)
            },
    {
        if pairs == 0 || self.worker_busy {
            return false;
        }
        self.worker_failed = false;
        self.worker_busy = true;
        true
    }

    /// Notes that the worker has finished its flush.
    pub fn worker_finished(&mut self)
        ensures
            *final(self) == (FlushScheduler { worker_busy: false, ..*old(self) }),
    {
        self.worker_busy = false;
    }

    /// The number of flushes that run.
    pub fn queue_depth(&self) -> (n: usize)
        ensures
            n == (if self.worker_busy {
                1int
            } else {
                0
            }),
    {
        if self.worker_busy {
            1
        } else {
            0
        }
    }
}

} // verus!
