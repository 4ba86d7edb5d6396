//! Catalog updates: what a flush or a compaction changes, the manifest bytes
//! that make it durable, and the queue between the worker and the owner.

use vstd::prelude::*;
use crate::block_cache::wrapped;
use crate::bytes::append_bytes;
use crate::compaction::CompactionJob;
use crate::errors::{EngineError, EngineResult};
use crate::compaction_worker::{DropRule, NewTable};
use crate::manifest::{encoded_all, ManifestRecord, RecordView};
use crate::text::text_of;

verus! {

/// Timings since they were last taken, in nanoseconds.
#[derive(Debug)]
pub struct ManifestSyncWindow {
    pub count: u64,
    pub sum_ns: u64,
    pub max_ns: u64,
}

impl Default for ManifestSyncWindow {
    fn default() -> (w: Self)
        ensures
            w == (ManifestSyncWindow { count: 0, sum_ns: 0, max_ns: 0 }),
    {
        ManifestSyncWindow { count: 0, sum_ns: 0, max_ns: 0 }
    }
}

impl ManifestSyncWindow {
    /// Adds one timing.
    pub fn record(&mut self, elapsed_ns: u64)
        ensures
            final(self).count == wrapped(old(self).count + 1),
            final(self).sum_ns == wrapped(old(self).sum_ns + elapsed_ns),
            final(self).max_ns == crate::manifest::larger(old(self).max_ns, elapsed_ns),
    {
        self.count = self.count.wrapping_add(1);
        self.sum_ns = self.sum_ns.wrapping_add(elapsed_ns);
        if elapsed_ns > self.max_ns {
            self.max_ns = elapsed_ns;
        }
    }

    /// Takes the count, the sum and the maximum, and starts over.
    pub fn drain(&mut self) -> (r: (u64, u64, u64))
        ensures
            r == (old(self).count, old(self).sum_ns, old(self).max_ns),
            *final(self) == (ManifestSyncWindow { count: 0, sum_ns: 0, max_ns: 0 }),
    {
        let r: (u64, u64, u64) = (self.count, self.sum_ns, self.max_ns);
        self.count = 0;
        self.sum_ns = 0;
        self.max_ns = 0;
        r
    }
}

/// What a compaction reports with its catalog update.
#[derive(Debug)]
pub struct CompactionApplyMetrics {
    pub job: CompactionJob,
    /// The number of the first new table.
    pub first_id: u64,
    pub rule: DropRule,
    pub bytes_read: u64,
    pub bytes_written: u64,
    pub versions_dropped: u64,
    pub tombstones_dropped: u64,
}

/// A catalog update.
#[derive(Debug)]
pub struct ReadyCatalogApply {
    pub manifest_records: Vec<ManifestRecord>,
    pub add_tables: Vec<NewTable>,
    pub remove_sstable_ids: Vec<u64>,
    /// The sealed log segments up to this one are no longer needed.
    pub unlink_wal_up_to: Option<u64>,
    /// The largest sequence number that a flush made durable.
    pub flush_max_seq: Option<u64>,
    pub compaction: Option<CompactionApplyMetrics>,
}

/// What a list of records holds.
pub open spec fn record_views(s: Seq<ManifestRecord>) -> Seq<RecordView> {
    Seq::new(s.len(), |i: int| s[i]@)
}

/// The bytes to append to the manifest for a list of records.
pub fn manifest_bytes(recs: &Vec<ManifestRecord>) -> (buf: Vec<u8>)
    ensures
        buf@ == encoded_all(record_views(recs@)),
{
    let ghost all = record_views(recs@);
    let mut buf: Vec<u8> = Vec::new();
    let mut i: usize = 0;
    assert(all.skip(0) =~= all);
    while i < recs.len()
        invariant
            i <= recs@.len(),
            all == record_views(recs@),
            buf@ + encoded_all(all.skip(i as int)) == encoded_all(all),
        decreases recs.len() - i,
    {
        let one: Vec<u8> = recs[i].encode();
        proof {
            let rest = all.skip(i as int);
            assert(rest[0] == recs@[i as int]@);
            assert(rest.skip(1) =~= all.skip(i + 1));
            assert(buf@ + (one@ + encoded_all(all.skip(i + 1))) =~= buf@ + one@ + encoded_all(
                all.skip(i + 1),
            ));
        }
        append_bytes(&mut buf, one.as_slice());
        i = i + 1;
    }
    assert(buf@ + encoded_all(all.skip(i as int)) =~= buf@);
    buf
}

/// The queue of catalog updates: those whose manifest records are being made
/// durable, and those that are durable and wait for the owner.
#[derive(Debug)]
pub struct ApplyScheduler {
    pub ready: Vec<ReadyCatalogApply>,
    pub pending_count: u64,
    pub failed: bool,
    pub shut_down: bool,
    pub window: ManifestSyncWindow,
}

impl ApplyScheduler {
    pub fn new() -> (s: Self)
        ensures
            s.ready@ == Seq::<ReadyCatalogApply>::empty(),
            s.pending_count == 0,
            !s.failed,
            !s.shut_down,
            s.window == (ManifestSyncWindow { count: 0, sum_ns: 0, max_ns: 0 }),
    {
        ApplyScheduler {
            ready: Vec::new(),
            pending_count: 0,
            failed: false,
            shut_down: false,
            window: ManifestSyncWindow::default(),
        }
    }

    /// Whether an update has failed since the last call.
    pub fn take_failed(&mut self) -> (r: bool)
        ensures
            r == old(self).failed,
            *final(self) == (ApplyScheduler { failed: false, ..*old(self) }),
    {
        let r: bool = self.failed;
        self.failed = false;
        r
    }

    /// Takes an update in, to be made durable. After a shutdown it is refused.
    pub fn submit(&mut self) -> (r: EngineResult<()>)
        requires
            old(self).pending_count < u64::MAX,
        ensures
            *final(self) == (ApplyScheduler {
                pending_count: (old(self).pending_count + 1) as u64,
                ..*old(self)
            }),
            r is Ok <==> !old(self).shut_down,
            r matches Err(e) ==> (e matches EngineError::Io(m) && m@
                == "apply worker shut down"@),
    {
        self.pending_count = self.pending_count + 1;
        if self.shut_down {
            return Err(EngineError::Io(text_of("apply worker shut down")));
        }
        Ok(())
    }

    /// The manifest records of an update are durable: the owner may publish it.
    pub fn complete(&mut self, apply: ReadyCatalogApply)
        requires
            old(self).pending_count > 0,
        ensures
            final(self).ready@ == old(self).ready@.push(apply),
            final(self).pending_count == old(self).pending_count - 1,
            final(self).failed == old(self).failed,
            final(self).shut_down == old(self).shut_down,
            final(self).window == old(self).window,
    {
        self.ready.push(apply);
        self.pending_count = self.pending_count - 1;
    }

    /// Making an update durable failed: it is dropped and the failure noted.
    pub fn fail(&mut self)
        requires
            old(self).pending_count > 0,
        ensures
            *final(self) == (ApplyScheduler {
                failed: true,
                pending_count: (old(self).pending_count - 1) as u64,
                ..*old(self)
            }),
    {
        self.failed = true;
        self.pending_count = self.pending_count - 1;
    }

    /// Hands out the updates that wait for the owner, in the order in which they
    /// became durable.
    pub fn drain_ready(&mut self) -> (r: Vec<ReadyCatalogApply>)
        ensures
            r@ == old(self).ready@,
            final(self).ready@ == Seq::<ReadyCatalogApply>::empty(),
            final(self).pending_count == old(self).pending_count,
            final(self).failed == old(self).failed,
            final(self).shut_down == old(self).shut_down,
            final(self).window == old(self).window,
    {
        let mut r: Vec<ReadyCatalogApply> = Vec::new();
        r.append(&mut self.ready);
        assert(r@ =~= old(self).ready@);
        r
    }

    pub fn pending_applies(&self) -> (n: u64)
        ensures
            n == self.pending_count,
    {
        self.pending_count
    }

    pub fn ready_count(&self) -> (n: usize)
        ensures
            n == self.ready@.len(),
    {
        self.ready.len()
    }

    pub fn manifest_sync_window(&mut self) -> (w: &mut ManifestSyncWindow)
        ensures
            *w == old(self).window,
            *final(self) == (ApplyScheduler { window: *final(w), ..*old(self) }),
    {
        &mut self.window
    }

    /// Refuses further updates.
    pub fn shutdown(&mut self)
        ensures
            *final(self) == (ApplyScheduler { shut_down: true, ..*old(self) }),
    {
        self.shut_down = true;
    }
}

} // verus!
