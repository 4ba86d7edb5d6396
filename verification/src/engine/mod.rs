//! The engine: it ties the memtables, the log, the tables and the catalog together.
//!
//! The engine is a state machine with a single owner. What needs a disk, a clock or
//! a thread happens outside: a method hands out what is to be done and takes back
//! what came of it.

use vstd::prelude::*;
use crate::apply_worker::{ApplyScheduler, ManifestSyncWindow};
use crate::compaction::CompactionConfig;
use crate::compaction_worker::CompactionScheduler;
use crate::flush_worker::FlushScheduler;
use crate::keys::{MAX_IMMUTABLE_MEMTABLES, MEMTABLE_FLUSH_THRESHOLD};
use crate::manifest::MetaView;
use crate::owned_snapshot::PinState;
use crate::records::Version;
use crate::result_cache::{ResultCache, ResultView};
use crate::seq::SeqAllocator;
use crate::shipping::ShipMode;
use crate::snapshot::{memtable_runs, Layers, LiveTable};
use crate::sorted_map::SortedMap;
use crate::store::newest;
use crate::text::text_of;

pub mod admin;
pub mod catalog;
pub mod compact;
pub mod durability;
pub mod gauges;
pub mod history;
pub mod jobs;
pub mod laws;
pub mod maintain;
pub mod open;
pub mod ops;
pub mod policed;
pub mod publish;
pub mod read;
pub mod reopen;
pub mod scans;
pub mod settle;
pub mod stats;
pub mod torn;
pub mod write;

verus! {

/// An engine's configuration.
#[derive(Debug)]
pub struct EngineConfig {
    /// Where the tables and the manifest lie.
    pub data_dir: String,
    /// Where the log segments lie.
    pub wal_dir: String,
    /// The capacity of the block cache of an owner that reads tables block by block. The
    /// engine itself holds its tables whole.
    pub block_cache_bytes: usize,
    pub compaction: CompactionConfig,
    /// The capacity of the cache of point lookups, zero for none.
    pub result_cache_bytes: usize,
    /// The size above which the memtable is frozen.
    pub memtable_flush_threshold: usize,
    /// The number of frozen memtables at which writes stall.
    pub max_immutable_memtables: usize,
    /// The least time between two syncs of the manifest in the background.
    pub manifest_sync_debounce_ms: u64,
    /// How many tables an owner that opens their files on demand keeps open, zero for no
    /// limit.
    pub max_open_readers: usize,
    /// Recovery leaves out log records above this sequence number.
    pub wal_replay_max_seq: Option<u64>,
    /// The number of level-0 tables at which writes stall, where it is not five
    /// times the compaction trigger and at least twenty.
    pub l0_write_stall_threshold: Option<usize>,
}

impl Default for EngineConfig {
    fn default() -> (c: Self)
        ensures
            c.data_dir@ == "data"@,
            c.wal_dir@ == "data/wal"@,
            c.block_cache_bytes == 0x1000_0000,
            c.compaction == (CompactionConfig {
                l0_trigger: 4,
                level_size_multiplier: 10,
                l1_target_bytes: 0x1000_0000,
                target_file_bytes: 0x400_0000,
                max_level: 2,
                soft_pending_compaction_bytes: 0x1000_0000,
                hard_pending_compaction_bytes: 0x2000_0000,
                l2_gc_min_reclaim_bytes: 0x40_0000,
                optimize_filters_for_hits: true,
            }),
            c.result_cache_bytes == 0,
            c.memtable_flush_threshold == MEMTABLE_FLUSH_THRESHOLD,
            c.max_immutable_memtables == MAX_IMMUTABLE_MEMTABLES,
            c.memtable_flush_threshold == 67_108_864,
            c.max_immutable_memtables == 4,
            c.manifest_sync_debounce_ms == 50,
            c.max_open_readers == 128,
            c.wal_replay_max_seq is None,
            c.l0_write_stall_threshold is None,
    {
        EngineConfig {
            data_dir: text_of("data"),
            wal_dir: text_of("data/wal"),
            block_cache_bytes: 256 * 1024 * 1024,
            compaction: CompactionConfig::default(),
            result_cache_bytes: 0,
            memtable_flush_threshold: MEMTABLE_FLUSH_THRESHOLD,
            max_immutable_memtables: MAX_IMMUTABLE_MEMTABLES,
            manifest_sync_debounce_ms: 50,
            max_open_readers: 128,
            wal_replay_max_seq: None,
            l0_write_stall_threshold: None,
        }
    }
}

/// One operation of an atomic batch. Keys are full keys of the user keyspace; an
/// `expires_at` of zero means no expiry.
#[derive(Debug, PartialEq, Eq)]
pub enum BatchOp {
    Put { key: Vec<u8>, value: Vec<u8>, expires_at: u64 },
    Del { key: Vec<u8> },
}

impl BatchOp {
    /// The operation as the log holds it.
    pub open spec fn op(&self) -> crate::wal::OpView {
        match self {
            BatchOp::Put { key, value, expires_at } => crate::wal::OpView {
                command: crate::wal::WalCommand::Put,
                expires_at: *expires_at,
                key: key@,
                value: value@,
            },
            BatchOp::Del { key } => crate::wal::OpView {
                command: crate::wal::WalCommand::Del,
                expires_at: 0,
                key: key@,
                value: Seq::empty(),
            },
        }
    }

    /// The key that the operation writes.
    pub fn key(&self) -> (k: &[u8])
        ensures
            k@ == self.op().key,
    {
        match self {
            BatchOp::Put { key, .. } => key.as_slice(),
            BatchOp::Del { key } => key.as_slice(),
        }
    }

    pub(crate) fn value_len(&self) -> (n: usize)
        ensures
            n == self.op().value.len(),
    {
        match self {
            BatchOp::Put { value, .. } => value.len(),
            BatchOp::Del { .. } => 0,
        }
    }

    pub(crate) fn is_delete(&self) -> (r: bool)
        ensures
            r == (self.op().command is Del),
    {
        matches!(self, BatchOp::Del { .. })
    }
}

/// What the operations of a batch hold.
pub open spec fn batch_ops(s: Seq<BatchOp>) -> Seq<crate::wal::OpView> {
    Seq::new(s.len(), |i: int| s[i].op())
}

/// The engine. Its state changes through its methods, which keep it well-formed.
#[derive(Debug)]
pub struct Engine {
    pub cfg: EngineConfig,
    pub seq: SeqAllocator,
    /// The memtables and the tables. Frozen memtables stand oldest first, tables by
    /// ascending number.
    pub layers: Layers,
    pub next_sstable_id: u64,
    pub active_wal_id: u64,
    pub active_wal_size: usize,
    /// The bytes appended to the log since the last flush.
    pub in_flight_wal_bytes: usize,
    /// The largest sequence number of each sealed log segment.
    pub sealed_segment_max_seq: SortedMap,
    /// The largest sequence number in the log.
    pub buffered_seq: u64,
    /// The largest sequence number that is known to be durable.
    pub synced_seq: u64,
    /// Writers append and a coordinator syncs for many of them. Otherwise every
    /// append is synced.
    pub group_commit: bool,
    /// Where sealed segments are shipped.
    pub ship_dir: Option<String>,
    pub ship_mode: ShipMode,
    /// The key with which the owner authenticates what it notes of shipped segments.
    pub ship_hmac_key: Option<Vec<u8>>,
    pub result_cache: Option<ResultCache>,
    /// The last stop was graceful.
    pub clean_boot: bool,
    pub compaction_scheduler: CompactionScheduler,
    pub flush_scheduler: FlushScheduler,
    pub apply_scheduler: ApplyScheduler,
    /// The pins of long-lived snapshots.
    pub pins: PinState,
    /// Writes are refused.
    pub freeze_writes: bool,
    /// The data directory is to be synced.
    pub dir_fsync_pending: bool,
    /// How long catalog updates took.
    pub apply_window: ManifestSyncWindow,
    /// How long the next write is to wait, in microseconds.
    pub pending_write_slowdown_us: u64,
    /// The last refusal is to be charged to the writing tenant.
    pub stall_charge: bool,
}

/// The name of the file that marks a graceful stop.
pub const CLEAN_SHUTDOWN_MARKER: &'static str = "CLEAN_SHUTDOWN";

/// Every version of `a` is older than every version of `b`.
pub open spec fn older(a: Seq<Version>, b: Seq<Version>) -> bool {
    forall|v: Version, w: Version|
        #![trigger a.contains(v), b.contains(w)]
        a.contains(v) && b.contains(w) ==> v.0.seq < w.0.seq
}

/// Every version lies above the given sequence number.
pub open spec fn all_above(s: Seq<Version>, n: u64) -> bool {
    forall|v: Version| #[trigger] s.contains(v) ==> v.0.seq > n
}

/// Every version lies below the given sequence number.
pub open spec fn all_below(s: Set<Version>, n: u64) -> bool {
    forall|v: Version| #[trigger] s.contains(v) ==> v.0.seq < n
}

/// The catalog names no sequence number from `n` on.
pub open spec fn tables_below(s: Seq<LiveTable>, n: u64) -> bool {
    forall|i: int| 0 <= i < s.len() ==> (#[trigger] s[i]).meta.max_seq < n
}

/// The memtables, oldest first.
pub open spec fn memtables_of(l: Layers) -> Seq<Seq<Version>> {
    memtable_runs(l.immutables@).push(l.active@)
}

/// What the catalog says of the tables.
pub open spec fn catalog_of(s: Seq<LiveTable>) -> Seq<MetaView> {
    Seq::new(s.len(), |i: int| s[i].meta@)
}

/// The layers follow each other in sequence: everything in a memtable is newer than
/// everything in the memtables before it and in the tables. So what the log holds
/// above the tables is just what the memtables hold.
pub open spec fn in_sequence(l: Layers) -> bool {
    let m = memtables_of(l);
    &&& forall|i: int, j: int| 0 <= i < j < m.len() ==> older(#[trigger] m[i], #[trigger] m[j])
    &&& forall|i: int, j: int|
        0 <= i < l.tables@.len() && 0 <= j < m.len() ==> all_above(
            #[trigger] m[j],
            (#[trigger] l.tables@[i]).meta.max_seq,
        )
}

/// Tables have ascending numbers below `next`.
pub open spec fn numbered(s: Seq<LiveTable>, next: u64) -> bool {
    &&& forall|i: int, j: int|
        0 <= i < j < s.len() ==> (#[trigger] s[i]).meta.id < (#[trigger] s[j]).meta.id
    &&& forall|i: int| 0 <= i < s.len() ==> (#[trigger] s[i]).meta.id < next
}

/// A cached lookup is what the newest version holds, which never expires.
pub open spec fn cached_result_holds(r: ResultView, store: Set<Version>) -> bool {
    newest(store, r.key, u64::MAX) matches Some(v) && v.1.value == Some(r.value) && v.1.expires_at
        is None
}

pub open spec fn cache_agrees(slots: Seq<ResultView>, store: Set<Version>) -> bool {
    forall|i: int| 0 <= i < slots.len() ==> cached_result_holds(#[trigger] slots[i], store)
}

impl Engine {
    /// All versions that the engine holds.
    pub open spec fn store(&self) -> Set<Version> {
        self.layers.store()
    }

    /// What the catalog says of the tables.
    pub open spec fn catalog(&self) -> Seq<MetaView> {
        catalog_of(self.layers.tables@)
    }

    /// The engine's invariant.
    pub open spec fn wf(&self) -> bool {
        &&& self.layers.wf()
        &&& in_sequence(self.layers)
        &&& all_below(self.store(), self.seq@)
        &&& tables_below(self.layers.tables@, self.seq@)
        &&& numbered(self.layers.tables@, self.next_sstable_id)
        &&& self.sealed_segment_max_seq.wf()
        &&& self.pins.wf()
        &&& self.result_cache matches Some(c) ==> c.wf() && cache_agrees(c@.slots, self.store())
    }

    /// The parts of the engine that no write touches are those of `other`.
    pub open spec fn same_setup(&self, other: &Engine) -> bool {
        &&& self.cfg == other.cfg
        &&& self.group_commit == other.group_commit
        &&& self.ship_dir == other.ship_dir
        &&& self.ship_mode == other.ship_mode
        &&& self.ship_hmac_key == other.ship_hmac_key
        &&& self.clean_boot == other.clean_boot
        &&& self.freeze_writes == other.freeze_writes
        &&& self.pins == other.pins
        &&& self.compaction_scheduler == other.compaction_scheduler
        &&& self.flush_scheduler == other.flush_scheduler
        &&& self.apply_scheduler == other.apply_scheduler
        &&& self.apply_window == other.apply_window
        &&& self.dir_fsync_pending == other.dir_fsync_pending
        &&& self.next_sstable_id == other.next_sstable_id
    }
}

/// A frozen memtable holds the version.
pub open spec fn in_frozen(l: Layers, v: Version) -> bool {
    exists|i: int| 0 <= i < l.immutables@.len() && (#[trigger] l.immutables@[i])@.contains(v)
}

/// A table holds the version.
pub open spec fn in_tables(s: Seq<LiveTable>, v: Version) -> bool {
    exists|i: int| 0 <= i < s.len() && (#[trigger] s[i]).reader@.contains(v)
}

/// A version of the store lies in one of the three kinds of layers.
pub proof fn store_cases(l: Layers, v: Version)
    ensures
        l.store().contains(v) <==> l.active@.contains(v) || in_frozen(l, v) || in_tables(
            l.tables@,
            v,
        ),
{
    let runs = l.runs();
    let n = l.immutables@.len() as int;
    if l.store().contains(v) {
        let i = choose|i: int| 0 <= i < runs.len() && (#[trigger] runs[i]).contains(v);
        if i == 0 {
            assert(runs[0] == l.active@);
        } else if i <= n {
            assert(runs[i] == l.immutables@[i - 1]@);
        } else {
            assert(runs[i] == l.tables@[i - 1 - n].reader@);
        }
    }
    if l.active@.contains(v) {
        assert(runs[0].contains(v));
    }
    if in_frozen(l, v) {
        let i = choose|i: int| 0 <= i < l.immutables@.len() && (#[trigger] l.immutables@[i])@.contains(v);
        assert(runs[i + 1].contains(v));
    }
    if in_tables(l.tables@, v) {
        let i = choose|i: int| 0 <= i < l.tables@.len() && (#[trigger] l.tables@[i]).reader@.contains(v);
        assert(runs[i + 1 + n].contains(v));
    }
}

/// What a reader sees of a key depends on the versions of that key alone.
pub proof fn newest_depends_on_key(a: Set<Version>, b: Set<Version>, key: Seq<u8>, upper: u64)
    requires
        crate::store::coherent(a),
        crate::store::coherent(b),
        forall|v: Version|
            crate::records::visible(v, key, upper) ==> (#[trigger] a.contains(v) <==> b.contains(
                v,
            )),
    ensures
        newest(a, key, upper) == newest(b, key, upper),
{
    crate::store::newest_holds(a, key, upper);
    crate::store::newest_holds(b, key, upper);
    match newest(a, key, upper) {
        Some(v) => {
            assert(a.contains(v));
            assert forall|w: Version| #[trigger] b.contains(w) && crate::records::visible(
                w,
                key,
                upper,
            ) implies w.0.seq <= v.0.seq by {
                assert(a.contains(w));
            }
            crate::store::newest_is(b, key, upper, v);
        },
        None => {
            if let Some(w) = newest(b, key, upper) {
                assert(b.contains(w));
                assert(a.contains(w));
                assert forall|x: Version| #[trigger] a.contains(x) && crate::records::visible(
                    x,
                    key,
                    upper,
                ) implies x.0.seq <= w.0.seq by {
                    assert(b.contains(x));
                }
                crate::store::newest_is(a, key, upper, w);
            }
        },
    }
}

} // verus!
