//! Opening an engine: the catalog, the tables and the replay of the log.

use vstd::prelude::*;
use crate::apply_worker::{ApplyScheduler, ManifestSyncWindow};
use crate::compaction::contains_id;
use crate::compaction_worker::CompactionScheduler;
use crate::engine::read::top_of;
use crate::engine::write::{footprint_prefix, keys_distinct, spared_results};
use crate::engine::{
    all_above, all_below, cached_result_holds, catalog_of, in_sequence, in_tables, memtables_of,
    newest_depends_on_key, store_cases, tables_below, Engine, EngineConfig,
};
use crate::errors::{EngineError, EngineResult};
use crate::flush_worker::FlushScheduler;
use crate::manifest::{larger, meta_views, ManifestState, MetaView, SstableMeta};
use crate::memtable::{one_per_slot, same_slot, total_footprint, Memtable};
use crate::owned_snapshot::PinState;
use crate::records::{visible, Version};
use crate::result_cache::{without_result_facts, ResultCache};
use crate::seq::SeqAllocator;
use crate::shipping::ShipMode;
use crate::snapshot::{table_runs, Layers, LiveTable};
use crate::sorted_map::SortedMap;
use crate::stable_sort::{arranged, inserted_at};
use crate::store::{
    added_apart, added_cases, added_coherent, added_elsewhere, added_join, coherent,
    last_added_stays, proper, union_of, with_versions,
};
use crate::text::{chars_of, number, padded, parse_number, push_padded, text_of};
use crate::wal::{
    largest_seq, max_entry_seq, op_version, segment_filename, segment_name, segment_views,
    ReplayOutcome, SegmentView, WalEntry, WalOp, WalSegment, WalView, SEGMENT_HEADER_LEN,
};

verus! {

/// A file's path in a directory.
pub open spec fn path_of(dir: Seq<char>, name: Seq<char>) -> Seq<char> {
    if dir.len() == 0 || dir.last() == '/' {
        dir + name
    } else {
        dir + "/"@ + name
    }
}

/// A file's path in a directory.
pub fn join_path(dir: &str, name: &str) -> (p: String)
    ensures
        p@ == path_of(dir@, name@),
{
    let mut p: String = text_of(dir);
    let n: usize = dir.unicode_len();
    if n > 0 && dir.get_char(n - 1) != '/' {
        p.append("/");
    }
    p.append(name);
    p
}

/// The name of a table's file.
pub open spec fn table_name(id: u64) -> Seq<char> {
    padded(id as nat, 8) + ".sst"@
}

/// The name of a table's file.
pub fn table_file_name(id: u64) -> (s: String)
    ensures
        s@ == table_name(id),
{
    let mut s: String = String::new();
    push_padded(&mut s, id, 8);
    s.append(".sst");
    assert(s@ =~= table_name(id));
    s
}

/// The number of the table that a file's name stands for.
pub open spec fn table_id_of(name: Seq<char>) -> Option<u64> {
    let n = name.len() - 4;
    if n >= 0 && name.skip(n) == ".sst"@ {
        number(name.take(n))
    } else {
        None
    }
}

/// The number of a table whose file the catalog does not name, and which may go.
pub fn orphan_table(name: &str, live: &Vec<u64>) -> (r: Option<u64>)
    ensures
        r == (match table_id_of(name@) {
            Some(id) => if live@.contains(id) {
                None
            } else {
                Some(id)
            },
            None => None,
        }),
{
    let c: Vec<char> = chars_of(name);
    let n: usize = c.len();
    if n < 4 {
        return None;
    }
    proof {
        reveal_strlit(".sst");
    }
    let at: usize = n - 4;
    let suffix: bool = c[at] == '.' && c[at + 1] == 's' && c[at + 2] == 's' && c[at + 3] == 't';
    assert(suffix == (name@.skip(at as int) =~= ".sst"@)) by {
        if name@.skip(at as int) =~= ".sst"@ {
            assert(name@.skip(at as int)[0] == ".sst"@[0]);
            assert(name@.skip(at as int)[1] == ".sst"@[1]);
            assert(name@.skip(at as int)[2] == ".sst"@[2]);
            assert(name@.skip(at as int)[3] == ".sst"@[3]);
        }
    }
    if !suffix {
        return None;
    }
    let stem: &[char] = vstd::slice::slice_subrange(c.as_slice(), 0, at);
    assert(stem@ =~= name@.take(at as int));
    match parse_number(stem) {
        Some(id) => if contains_id(live, id) {
            None
        } else {
            Some(id)
        },
        None => None,
    }
}

/// The order of tables: by number.
pub open spec fn table_rank() -> spec_fn(MetaView) -> nat {
    |m: MetaView| m.id as nat
}

/// The tables that a catalog names, by ascending number: the order in which they are
/// opened.
pub fn tables_to_open(state: &ManifestState) -> (r: Vec<SstableMeta>)
    ensures
        meta_views(r@) == arranged(meta_views(state.live_sstables@), table_rank()),
{
    let v: &Vec<SstableMeta> = &state.live_sstables;
    let ghost all = meta_views(v@);
    let mut out: Vec<SstableMeta> = Vec::new();
    let mut i: usize = 0;
    assert(all.take(0) =~= Seq::<MetaView>::empty());
    assert(meta_views(out@) =~= Seq::<MetaView>::empty());
    while i < v.len()
        invariant
            i <= v@.len(),
            all == meta_views(v@),
            meta_views(out@) == arranged(all.take(i as int), table_rank()),
        decreases v.len() - i,
    {
        let ghost s = meta_views(out@);
        let x: SstableMeta = v[i].clone();
        let ghost xv = x@;
        let mut p: usize = out.len();
        let mut placed: bool = false;
        while p > 0 && !placed
            invariant
                p <= out@.len(),
                s == meta_views(out@),
                xv == x@,
                forall|j: int|
                    p <= j < s.len() ==> table_rank()(#[trigger] s[j]) > table_rank()(xv),
                placed ==> p > 0 && table_rank()(s[p - 1]) <= table_rank()(xv),
            decreases p, if placed { 0int } else { 1int },
        {
            assert(s[p - 1] == out@[p - 1]@);
            if out[p - 1].id > x.id {
                p = p - 1;
            } else {
                placed = true;
            }
        }
        out.insert(p, x);
        proof {
            inserted_at(s, xv, table_rank(), p as int);
            assert(meta_views(out@) =~= s.insert(p as int, xv));
            assert(all.take(i + 1).drop_last() =~= all.take(i as int));
            assert(all.take(i + 1).last() == xv);
        }
        i = i + 1;
    }
    assert(all.take(all.len() as int) =~= all);
    out
}

/// The records of the first `n` segments.
pub open spec fn log_upto(segs: Seq<SegmentView>, n: int) -> Seq<WalView>
    decreases n,
{
    if n <= 0 {
        Seq::empty()
    } else {
        log_upto(segs, n - 1) + segs[n - 1].entries
    }
}

/// The records of all segments.
pub open spec fn whole_log(segs: Seq<SegmentView>) -> Seq<WalView> {
    log_upto(segs, segs.len() as int)
}

/// The largest segment number among the first `n`, zero for none.
pub open spec fn last_segment(segs: Seq<SegmentView>, n: int) -> u64
    decreases n,
{
    if n <= 0 {
        0
    } else {
        larger(last_segment(segs, n - 1), segs[n - 1].id)
    }
}

/// Why the log is refused for the first `n` segments, if it is. Only the last segment
/// was open when the process stopped, so only it may end in a torn record.
pub open spec fn log_fault(segs: Seq<SegmentView>, dir: Seq<char>, n: int) -> Option<Seq<char>>
    decreases n,
{
    if n <= 0 {
        None
    } else {
        match log_fault(segs, dir, n - 1) {
            Some(m) => Some(m),
            None => {
                let s = segs[n - 1];
                let path = path_of(dir, segment_name(s.id));
                match s.outcome {
                    ReplayOutcome::Clean => None,
                    ReplayOutcome::TornTail => if s.id == last_segment(segs, segs.len() as int) {
                        None
                    } else {
                        Some(
                            "WAL: corruption detected in sealed segment "@ + path
                                + " (incomplete record in a segment that was sealed and fsynced; refusing to open to avoid silently dropping committed data)"@,
                        )
                    },
                    ReplayOutcome::Corruption => Some(
                        "WAL: corruption detected in segment "@ + path
                            + " (a damaged record is followed by intact records; refusing to open to avoid silently dropping committed data)"@,
                    ),
                }
            },
        }
    }
}

/// The largest sequence number of each of the first `n` segments that holds records.
pub open spec fn sealed_of(segs: Seq<SegmentView>, n: int) -> Map<u64, u64>
    decreases n,
{
    if n <= 0 {
        Map::empty()
    } else {
        let m = max_entry_seq(segs[n - 1].entries);
        if m > 0 {
            sealed_of(segs, n - 1).insert(segs[n - 1].id, m)
        } else {
            sealed_of(segs, n - 1)
        }
    }
}

/// A record is replayed: it is not in the tables, and not above the ceiling of a
/// restore to a point in time.
pub open spec fn replays(e: WalView, flushed: u64, ceiling: Option<u64>) -> bool {
    e.seq > flushed && (ceiling matches Some(c) ==> e.seq <= c)
}

/// The first `n` records that are replayed.
pub open spec fn replay_upto(log: Seq<WalView>, flushed: u64, ceiling: Option<u64>, n: int) -> Seq<
    WalView,
>
    decreases n,
{
    if n <= 0 {
        Seq::empty()
    } else if replays(log[n - 1], flushed, ceiling) {
        replay_upto(log, flushed, ceiling, n - 1).push(log[n - 1])
    } else {
        replay_upto(log, flushed, ceiling, n - 1)
    }
}

/// The records that are replayed.
pub open spec fn replayed_log(log: Seq<WalView>, flushed: u64, ceiling: Option<u64>) -> Seq<WalView> {
    replay_upto(log, flushed, ceiling, log.len() as int)
}

/// What some records write, in their order: of the versions of one key and sequence
/// number the last one stays.
pub open spec fn written_by(log: Seq<WalView>) -> Set<Version>
    decreases log.len(),
{
    if log.len() == 0 {
        Set::empty()
    } else {
        with_versions(written_by(log.drop_last()), log.last().writes())
    }
}

/// Records in order write each key and sequence number once, so that everything they
/// write stays.
pub proof fn in_order_all_stays(log: Seq<WalView>)
    requires
        log_in_order(log),
        log.len() > 0,
    ensures
        log_in_order(log.drop_last()),
        written_by(log) == written_by(log.drop_last()).union(log.last().writes().to_set()),
{
    let front = log.drop_last();
    let w = log.last().writes();
    assert forall|i: int, j: int| 0 <= i < j < front.len() implies (#[trigger] front[i]).seq < (
    #[trigger] front[j]).seq by {
        assert(log[i].seq < log[j].seq);
    }
    assert forall|i: int| 0 <= i < front.len() implies keys_distinct((#[trigger] front[i]).ops) by {
        assert(keys_distinct(log[i].ops));
    }
    assert forall|v: Version, i: int|
        #![trigger written_by(front).contains(v), w[i]]
        written_by(front).contains(v) && 0 <= i < w.len() implies !same_slot(v.0, w[i].0) by {
        written_seq(front, v);
        let k = choose|k: int| 0 <= k < front.len() && (#[trigger] front[k]).seq == v.0.seq;
        assert(log[k].seq < log[log.len() - 1].seq);
        assert(w[i] == op_version(log.last().ops[i], log.last().seq));
    }
    assert forall|i: int, j: int| 0 <= i < j < w.len() implies !same_slot(
        (#[trigger] w[i]).0,
        (#[trigger] w[j]).0,
    ) by {
        assert(keys_distinct(log[log.len() - 1].ops));
        assert(log.last().ops[i].key != log.last().ops[j].key);
    }
    added_join(written_by(front), w);
}

/// What a record writes stands after it, whatever an earlier record wrote under the same
/// key and sequence number.
pub proof fn later_record_wins(log: Seq<WalView>, e: WalView, i: int)
    requires
        0 <= i < e.ops.len(),
        forall|j: int| i < j < e.ops.len() ==> (#[trigger] e.ops[j]).key != e.ops[i].key,
    ensures
        written_by(log.push(e)).contains(op_version(e.ops[i], e.seq)),
        forall|v: Version| #[trigger]
            written_by(log.push(e)).contains(v) && same_slot(v.0, op_version(e.ops[i], e.seq).0)
                ==> v == op_version(e.ops[i], e.seq),
{
    let w = e.writes();
    assert(log.push(e).drop_last() =~= log);
    assert forall|j: int| i < j < w.len() implies !same_slot((#[trigger] w[j]).0, w[i].0) by {
        assert(w[j] == op_version(e.ops[j], e.seq));
    }
    last_added_stays(written_by(log), w, i);
}

/// What the versions that some records write add to a memtable.
pub open spec fn log_footprint(log: Seq<WalView>) -> nat
    decreases log.len(),
{
    if log.len() == 0 {
        0
    } else {
        log_footprint(log.drop_last()) + total_footprint(log.last().writes())
    }
}

/// A log as the engine writes it: sequence numbers ascend, and no record writes a key
/// twice.
pub open spec fn log_in_order(log: Seq<WalView>) -> bool {
    &&& forall|i: int, j: int| 0 <= i < j < log.len() ==> (#[trigger] log[i]).seq < (
    #[trigger] log[j]).seq
    &&& forall|i: int| 0 <= i < log.len() ==> keys_distinct((#[trigger] log[i]).ops)
}

/// Tables that can be opened together.
pub open spec fn tables_sound(s: Seq<LiveTable>) -> bool {
    &&& forall|i: int| 0 <= i < s.len() ==> (#[trigger] s[i]).wf()
    &&& coherent(union_of(table_runs(s)))
    &&& forall|i: int, j: int|
        0 <= i < j < s.len() ==> (#[trigger] s[i]).meta.id < (#[trigger] s[j]).meta.id
}

/// The largest sequence number that recovery sees.
pub open spec fn recovered_seq(
    last_durable: u64,
    catalog: Seq<MetaView>,
    replayed: Seq<WalView>,
) -> u64 {
    larger(larger(last_durable, top_of(catalog, catalog.len() as int)), max_entry_seq(replayed))
}

/// The largest table number, zero for none.
pub open spec fn last_table(catalog: Seq<MetaView>, n: int) -> u64
    decreases n,
{
    if n <= 0 {
        0
    } else {
        larger(last_table(catalog, n - 1), catalog[n - 1].id)
    }
}

proof fn max_seq_bound(s: Seq<WalView>, i: int)
    requires
        0 <= i < s.len(),
    ensures
        s[i].seq <= max_entry_seq(s),
    decreases s.len(),
{
    if i < s.len() - 1 {
        max_seq_bound(s.drop_last(), i);
        assert(s.drop_last()[i] == s[i]);
    }
}

proof fn top_bound(s: Seq<MetaView>, n: int, i: int)
    requires
        0 <= i < n <= s.len(),
    ensures
        s[i].max_seq <= top_of(s, n),
    decreases n,
{
    if i < n - 1 {
        top_bound(s, n - 1, i);
    }
}

proof fn last_table_bound(s: Seq<MetaView>, n: int, i: int)
    requires
        0 <= i < n <= s.len(),
    ensures
        s[i].id <= last_table(s, n),
    decreases n,
{
    if i < n - 1 {
        last_table_bound(s, n - 1, i);
    }
}

proof fn fault_is_final(segs: Seq<SegmentView>, dir: Seq<char>, k: int, n: int)
    requires
        0 < k <= n,
        log_fault(segs, dir, k) is Some,
    ensures
        log_fault(segs, dir, n) == log_fault(segs, dir, k),
    decreases n,
{
    if k < n {
        fault_is_final(segs, dir, k, n - 1);
    }
}

proof fn footprint_of_replayed(log: Seq<WalView>, n: int)
    requires
        0 <= n <= log.len(),
    ensures
        log_footprint(log.take(n)) <= log_footprint(log),
    decreases log.len() - n,
{
    if n == log.len() {
        assert(log.take(n) =~= log);
    } else {
        footprint_of_replayed(log, n + 1);
        assert(log.take(n + 1).drop_last() =~= log.take(n));
    }
}

/// The largest number of the segments, zero for none.
fn find_last_segment(segments: &Vec<WalSegment>) -> (n: u64)
    ensures
        n == last_segment(segment_views(segments@), segments@.len() as int),
{
    let ghost segs = segment_views(segments@);
    let mut n: u64 = 0;
    let mut i: usize = 0;
    while i < segments.len()
        invariant
            i <= segments@.len(),
            segs == segment_views(segments@),
            n == last_segment(segs, i as int),
        decreases segments.len() - i,
    {
        assert(segs[i as int] == segments@[i as int]@);
        if segments[i].id > n {
            n = segments[i].id;
        }
        i = i + 1;
    }
    n
}

/// Checks the segments of a log, and returns the largest sequence number of each that
/// holds records.
fn check_log(segments: &Vec<WalSegment>, wal_dir: &str) -> (r: EngineResult<SortedMap>)
    ensures
        ({
            let segs = segment_views(segments@);
            match r {
                Ok(m) => m.wf() && m@ == sealed_of(segs, segs.len() as int) && log_fault(
                    segs,
                    wal_dir@,
                    segs.len() as int,
                ) is None,
                Err(e) => log_fault(segs, wal_dir@, segs.len() as int) matches Some(m) && (
                e matches EngineError::Io(t) && t@ == m),
            }
        }),
{
    let ghost segs = segment_views(segments@);
    let ghost total = segs.len() as int;
    let last: u64 = find_last_segment(segments);
    let mut sealed: SortedMap = SortedMap::new();
    let mut i: usize = 0;
    while i < segments.len()
        invariant
            i <= segments@.len() == total,
            segs == segment_views(segments@),
            segs.len() == total,
            last == last_segment(segs, total),
            sealed.wf(),
            sealed@ == sealed_of(segs, i as int),
            log_fault(segs, wal_dir@, i as int) is None,
        decreases segments.len() - i,
    {
        let s: &WalSegment = &segments[i];
        assert(segs[i as int] == s@);
        proof {
            if log_fault(segs, wal_dir@, i + 1) is Some {
                fault_is_final(segs, wal_dir@, i + 1, total);
            }
        }
        match s.outcome {
            ReplayOutcome::Clean => {},
            ReplayOutcome::TornTail => {
                if s.id != last {
                    let name: String = segment_filename(s.id);
                    let path: String = join_path(wal_dir, name.as_str());
                    let mut t: String = text_of("WAL: corruption detected in sealed segment ");
                    t.append(path.as_str());
                    t.append(
                        " (incomplete record in a segment that was sealed and fsynced; refusing to open to avoid silently dropping committed data)",
                    );
                    return Err(EngineError::Io(t));
                }
            },
            ReplayOutcome::Corruption => {
                let name: String = segment_filename(s.id);
                let path: String = join_path(wal_dir, name.as_str());
                let mut t: String = text_of("WAL: corruption detected in segment ");
                t.append(path.as_str());
                t.append(
                    " (a damaged record is followed by intact records; refusing to open to avoid silently dropping committed data)",
                );
                return Err(EngineError::Io(t));
            },
        }
        let m: u64 = largest_seq(&s.entries);
        if m > 0 {
            sealed.insert(s.id, m);
        }
        i = i + 1;
    }
    Ok(sealed)
}

/// The largest sequence number among the records of the log that are replayed.
fn replayed_max(segments: &Vec<WalSegment>, flushed: u64, ceiling: Option<u64>) -> (n: u64)
    ensures
        n == max_entry_seq(replayed_log(whole_log(segment_views(segments@)), flushed, ceiling)),
{
    let ghost segs = segment_views(segments@);
    let ghost log = whole_log(segs);
    let mut n: u64 = 0;
    let mut i: usize = 0;
    let ghost mut at: int = 0;
    while i < segments.len()
        invariant
            i <= segments@.len(),
            segs == segment_views(segments@),
            log == whole_log(segs),
            at == log_upto(segs, i as int).len(),
            n == max_entry_seq(replay_upto(log, flushed, ceiling, at)),
        decreases segments.len() - i,
    {
        let s: &WalSegment = &segments[i];
        assert(segs[i as int] == s@);
        let ghost base = at;
        let mut j: usize = 0;
        while j < s.entries.len()
            invariant
                j <= s.entries@.len(),
                i < segments@.len(),
                segs == segment_views(segments@),
                segs[i as int] == s@,
                log == whole_log(segs),
                base == log_upto(segs, i as int).len(),
                at == base + j,
                n == max_entry_seq(replay_upto(log, flushed, ceiling, at)),
            decreases s.entries.len() - j,
        {
            let e: &WalEntry = &s.entries[j];
            proof {
                log_position(segs, i as int, j as int);
                assert(log[at] == e@);
                let p = replay_upto(log, flushed, ceiling, at);
                assert(p.push(e@).drop_last() =~= p);
            }
            let below: bool = match ceiling {
                Some(c) => e.seq <= c,
                None => true,
            };
            if e.seq > flushed && below && e.seq > n {
                n = e.seq;
            }
            proof {
                at = at + 1;
            }
            j = j + 1;
        }
        i = i + 1;
    }
    n
}

/// Where a record of a segment stands in the whole log.
proof fn log_position(segs: Seq<SegmentView>, i: int, j: int)
    requires
        0 <= i < segs.len(),
        0 <= j < segs[i].entries.len(),
    ensures
        log_upto(segs, i).len() + j < whole_log(segs).len(),
        whole_log(segs)[log_upto(segs, i).len() + j] == segs[i].entries[j],
{
    log_prefix(segs, i + 1, segs.len() as int);
    let part = log_upto(segs, i + 1);
    let p = log_upto(segs, i).len() + j;
    assert(part[p] == segs[i].entries[j]);
    assert(whole_log(segs).take(part.len() as int)[p] == part[p]);
}

proof fn log_prefix(segs: Seq<SegmentView>, k: int, n: int)
    requires
        0 <= k <= n <= segs.len(),
    ensures
        log_upto(segs, k).len() <= log_upto(segs, n).len(),
        log_upto(segs, n).take(log_upto(segs, k).len() as int) == log_upto(segs, k),
    decreases n,
{
    if k < n {
        log_prefix(segs, k, n - 1);
        assert(log_upto(segs, n).take(log_upto(segs, k).len() as int) =~= log_upto(
            segs,
            n - 1,
        ).take(log_upto(segs, k).len() as int));
        if k > 0 {
            assert forall|i: int| 0 <= i < log_upto(segs, k).len() implies log_upto(segs, n)[i]
                == log_upto(segs, k)[i] by {
                assert(log_upto(segs, n).take(log_upto(segs, k).len() as int)[i] == log_upto(
                    segs,
                    k,
                )[i]);
            }
        }
    } else {
        assert(log_upto(segs, n).take(log_upto(segs, k).len() as int) =~= log_upto(segs, k));
    }
}

impl Engine {
    /// What recovery replays.
    pub open spec fn replayed_at_open(
        cfg: EngineConfig,
        tables: Seq<LiveTable>,
        segs: Seq<SegmentView>,
    ) -> Seq<WalView> {
        replayed_log(
            whole_log(segs),
            top_of(catalog_of(tables), tables.len() as int),
            cfg.wal_replay_max_seq,
        )
    }

    /// Opens an engine over the tables of its catalog, given by ascending number, and the
    /// segments of its log. Records above the tables are replayed; a damaged log is
    /// refused.
    pub fn open(
        cfg: EngineConfig,
        last_durable_seq: u64,
        tables: Vec<LiveTable>,
        segments: &Vec<WalSegment>,
        clean_boot: bool,
    ) -> (r: EngineResult<Engine>)
        requires
            tables_sound(tables@),
            log_footprint(
                Engine::replayed_at_open(cfg, tables@, segment_views(segments@)),
            ) <= usize::MAX,
            recovered_seq(
                last_durable_seq,
                catalog_of(tables@),
                Engine::replayed_at_open(cfg, tables@, segment_views(segments@)),
            ) < u64::MAX,
            last_table(catalog_of(tables@), tables@.len() as int) < u64::MAX,
            last_segment(segment_views(segments@), segments@.len() as int) < u64::MAX,
        ensures
            ({
                let segs = segment_views(segments@);
                let replayed = Engine::replayed_at_open(cfg, tables@, segs);
                let top = recovered_seq(last_durable_seq, catalog_of(tables@), replayed);
                match r {
                    Ok(e) => {
                        &&& log_fault(segs, cfg.wal_dir@, segs.len() as int) is None
                        &&& e.wf()
                        &&& e.store() == union_of(table_runs(tables@)).union(written_by(replayed))
                        &&& e.cfg == cfg
                        &&& e.seq@ == top + 1
                        &&& e.layers.tables == tables
                        &&& e.layers.active@.to_set() == written_by(replayed)
                        &&& e.layers.immutables@.len() == 0
                        &&& e.next_sstable_id == last_table(
                            catalog_of(tables@),
                            tables@.len() as int,
                        ) + 1
                        &&& e.active_wal_id == last_segment(segs, segs.len() as int) + 1
                        &&& e.active_wal_size == SEGMENT_HEADER_LEN
                        &&& e.in_flight_wal_bytes == 0
                        &&& e.sealed_segment_max_seq@ == sealed_of(segs, segs.len() as int)
                        &&& e.buffered_seq == top
                        &&& e.synced_seq == top
                        &&& e.clean_boot == clean_boot
                        &&& e.as_opened()
                    },
                    Err(err) => log_fault(segs, cfg.wal_dir@, segs.len() as int) matches Some(m)
                        && (err matches EngineError::Io(t) && t@ == m),
                }
            }),
    {
        let ghost segs = segment_views(segments@);
        let sealed: SortedMap = match check_log(segments, cfg.wal_dir.as_str()) {
            Ok(m) => m,
            Err(e) => {
                return Err(e);
            },
        };
        let ghost catalog = catalog_of(tables@);
        let mut flushed: u64 = 0;
        let mut max_id: u64 = 0;
        let mut i: usize = 0;
        while i < tables.len()
            invariant
                i <= tables@.len(),
                catalog == catalog_of(tables@),
                flushed == top_of(catalog, i as int),
                max_id == last_table(catalog, i as int),
            decreases tables.len() - i,
        {
            if tables[i].meta.max_seq > flushed {
                flushed = tables[i].meta.max_seq;
            }
            if tables[i].meta.id > max_id {
                max_id = tables[i].meta.id;
            }
            i = i + 1;
        }
        let ceiling: Option<u64> = cfg.wal_replay_max_seq;
        let replay_max: u64 = replayed_max(segments, flushed, ceiling);
        let mut top: u64 = last_durable_seq;
        if flushed > top {
            top = flushed;
        }
        if replay_max > top {
            top = replay_max;
        }
        let last_wal: u64 = find_last_segment(segments);
        let result_cache: Option<ResultCache> = if cfg.result_cache_bytes > 0 {
            Some(ResultCache::new(cfg.result_cache_bytes))
        } else {
            None
        };
        let layers = Layers { active: Memtable::new(), immutables: Vec::new(), tables };
        let ghost layers0 = layers;
        let mut engine = Engine {
            cfg,
            seq: SeqAllocator::new(top + 1),
            layers,
            next_sstable_id: max_id + 1,
            active_wal_id: last_wal + 1,
            active_wal_size: SEGMENT_HEADER_LEN,
            in_flight_wal_bytes: 0,
            sealed_segment_max_seq: sealed,
            buffered_seq: top,
            synced_seq: top,
            group_commit: true,
            ship_dir: None,
            ship_mode: ShipMode::Hardlink,
            ship_hmac_key: None,
            result_cache,
            clean_boot,
            compaction_scheduler: CompactionScheduler::new(),
            flush_scheduler: FlushScheduler::new(),
            apply_scheduler: ApplyScheduler::new(),
            pins: PinState::new(),
            freeze_writes: false,
            dir_fsync_pending: false,
            apply_window: ManifestSyncWindow::default(),
            pending_write_slowdown_us: 0,
            stall_charge: false,
        };
        proof {
            fresh_layers(layers0, catalog, top);
            assert forall|k: int| 0 <= k < layers0.tables@.len() implies (
            #[trigger] layers0.tables@[k]).meta.id < max_id + 1 by {
                last_table_bound(catalog, catalog.len() as int, k);
                assert(catalog[k].id == layers0.tables@[k].meta.id);
            }
            assert(engine.wf());
        }
        engine.replay(segments, flushed, ceiling);
        Ok(engine)
    }

    /// The switches of an engine that was just opened.
    pub open spec fn as_opened(&self) -> bool {
        &&& self.group_commit
        &&& self.ship_dir is None
        &&& self.ship_mode is Hardlink
        &&& self.ship_hmac_key is None
        &&& self.result_cache is Some == (self.cfg.result_cache_bytes > 0)
        &&& !self.freeze_writes
        &&& !self.dir_fsync_pending
        &&& self.pending_write_slowdown_us == 0
        &&& !self.stall_charge
        &&& self.pins.pin_counts@ == Map::<u64, u64>::empty()
        &&& self.pins.live_snapshot_seqs@ == Map::<u64, u64>::empty()
        &&& self.pins.deferred_unlinks@ == Seq::<u64>::empty()
        &&& !self.compaction_scheduler.worker_busy
        &&& self.compaction_scheduler.pending is None
        &&& !self.compaction_scheduler.compaction_needed
        &&& !self.flush_scheduler.worker_busy
        &&& self.apply_scheduler.pending_count == 0
        &&& self.apply_scheduler.ready@.len() == 0
    }

    /// Replays the records of a log above the tables.
    pub(crate) fn replay(&mut self, segments: &Vec<WalSegment>, flushed: u64, ceiling: Option<u64>)
        requires
            old(self).wf(),
            old(self).layers.active@ == Seq::<Version>::empty(),
            old(self).layers.immutables@.len() == 0,
            flushed == top_of(old(self).catalog(), old(self).catalog().len() as int),
            ({
                let r = replayed_log(whole_log(segment_views(segments@)), flushed, ceiling);
                log_footprint(r) <= usize::MAX && max_entry_seq(r) < old(self).seq@
            }),
        ensures
            final(self).wf(),
            final(self).store() == old(self).store().union(
                written_by(
                    replayed_log(whole_log(segment_views(segments@)), flushed, ceiling),
                ),
            ),
            final(self).layers.active@.to_set() == written_by(
                replayed_log(whole_log(segment_views(segments@)), flushed, ceiling),
            ),
            final(self).layers.immutables == old(self).layers.immutables,
            final(self).layers.tables == old(self).layers.tables,
            final(self).result_cache is Some == old(self).result_cache is Some,
            *final(self) == (Engine {
                layers: final(self).layers,
                result_cache: final(self).result_cache,
                ..*old(self)
            }),
    {
        let ghost segs = segment_views(segments@);
        let ghost log = whole_log(segs);
        let ghost all = replayed_log(log, flushed, ceiling);
        let ghost start = *self;
        let ghost mut at: int = 0;
        let mut i: usize = 0;
        proof {
            assert(start.store().union(written_by(replay_upto(log, flushed, ceiling, 0)))
                =~= start.store());
            assert(start.layers.active@.to_set() =~= written_by(
                replay_upto(log, flushed, ceiling, 0),
            ));
        }
        while i < segments.len()
            invariant
                i <= segments@.len(),
                segs == segment_views(segments@),
                log == whole_log(segs),
                all == replayed_log(log, flushed, ceiling),
                start == *old(self),
                at == log_upto(segs, i as int).len(),
                at <= log.len(),
                self.mid_replay(&start, log, flushed, ceiling, at),
                i == segments@.len() ==> at == log.len(),
            decreases segments.len() - i,
        {
            let s: &WalSegment = &segments[i];
            assert(segs[i as int] == s@);
            let ghost base = at;
            let mut j: usize = 0;
            proof {
                log_prefix(segs, i + 1, segs.len() as int);
            }
            while j < s.entries.len()
                invariant
                    j <= s.entries@.len(),
                    i < segments@.len(),
                    segs == segment_views(segments@),
                    segs[i as int] == s@,
                    log == whole_log(segs),
                    all == replayed_log(log, flushed, ceiling),
                    start == *old(self),
                    base == log_upto(segs, i as int).len(),
                    at == base + j,
                    base + s.entries@.len() <= log.len(),
                    self.mid_replay(&start, log, flushed, ceiling, at),
                decreases s.entries.len() - j,
            {
                let e: &WalEntry = &s.entries[j];
                proof {
                    log_position(segs, i as int, j as int);
                    assert(log[at] == e@);
                }
                let below: bool = match ceiling {
                    Some(c) => e.seq <= c,
                    None => true,
                };
                if e.seq > flushed && below {
                    self.replay_one(e, Ghost(start), Ghost(log), Ghost(flushed), Ghost(ceiling), Ghost(at));
                }
                proof {
                    at = at + 1;
                }
                j = j + 1;
            }
            i = i + 1;
        }
        proof {
            assert(log_upto(segs, segs.len() as int).len() == log.len());
        }
    }

    /// The engine in the middle of a replay, with the first `n` records handled.
    spec fn mid_replay(
        &self,
        start: &Engine,
        log: Seq<WalView>,
        flushed: u64,
        ceiling: Option<u64>,
        n: int,
    ) -> bool {
        let done = replay_upto(log, flushed, ceiling, n);
        let all = replayed_log(log, flushed, ceiling);
        &&& self.wf()
        &&& start.wf()
        &&& start.layers.active@ == Seq::<Version>::empty()
        &&& start.layers.immutables@.len() == 0
        &&& flushed == top_of(start.catalog(), start.catalog().len() as int)
        &&& log_footprint(all) <= usize::MAX
        &&& max_entry_seq(all) < start.seq@
        &&& self.store() == start.store().union(written_by(done))
        &&& self.layers.active@.to_set() == written_by(done)
        &&& total_footprint(self.layers.active@) <= log_footprint(done)
        &&& self.layers.immutables == start.layers.immutables
        &&& self.layers.tables == start.layers.tables
        &&& self.result_cache is Some == start.result_cache is Some
        &&& *self == (Engine { layers: self.layers, result_cache: self.result_cache, ..*start })
    }

    fn replay_one(
        &mut self,
        e: &WalEntry,
        Ghost(start): Ghost<Engine>,
        Ghost(log): Ghost<Seq<WalView>>,
        Ghost(flushed): Ghost<u64>,
        Ghost(ceiling): Ghost<Option<u64>>,
        Ghost(n): Ghost<int>,
    )
        requires
            old(self).mid_replay(&start, log, flushed, ceiling, n),
            0 <= n < log.len(),
            log[n] == e@,
            replays(e@, flushed, ceiling),
        ensures
            final(self).mid_replay(&start, log, flushed, ceiling, n + 1),
    {
        let ghost done = replay_upto(log, flushed, ceiling, n);
        let ghost next = replay_upto(log, flushed, ceiling, n + 1);
        let ghost all = replayed_log(log, flushed, ceiling);
        let ghost before = self.store();
        proof {
            assert(next.drop_last() =~= done);
            replay_is_prefix(log, flushed, ceiling, n + 1, log.len() as int);
            assert(all.take(next.len() as int) == next);
            max_seq_bound(all, next.len() - 1);
            assert(all[next.len() - 1] == all.take(next.len() as int)[next.len() - 1]);
            footprint_of_replayed(all, next.len() as int);
            assert(tables_below(self.layers.tables@, e@.seq)) by {
                assert forall|k: int| 0 <= k < self.layers.tables@.len() implies (
                #[trigger] self.layers.tables@[k]).meta.max_seq < e@.seq by {
                    top_bound(start.catalog(), start.catalog().len() as int, k);
                }
            }
        }
        self.replay_entry(e);
        proof {
            let w = e@.writes();
            assert forall|v: Version, i: int|
                #![trigger start.store().contains(v), w[i]]
                start.store().contains(v) && 0 <= i < w.len() implies !same_slot(v.0, w[i].0) by {
                assert(w[i] == op_version(e@.ops[i], e@.seq));
                store_cases(start.layers, v);
                let k = choose|k: int|
                    0 <= k < start.layers.tables@.len() && (
                    #[trigger] start.layers.tables@[k]).reader@.contains(v);
                assert(start.layers.tables@[k].wf());
                top_bound(start.catalog(), start.catalog().len() as int, k);
            }
            added_apart(start.store(), written_by(done), w);
        }
    }

    /// Puts the versions that a record writes into the memtable, in place of others of
    /// the same key and sequence number, and drops the cached lookups of its keys.
    fn replay_entry(&mut self, e: &WalEntry)
        requires
            old(self).wf(),
            old(self).layers.immutables@.len() == 0,
            e.seq < old(self).seq@,
            tables_below(old(self).layers.tables@, e.seq),
            total_footprint(old(self).layers.active@) + total_footprint(e@.writes()) <= usize::MAX,
        ensures
            final(self).wf(),
            final(self).store() == with_versions(old(self).store(), e@.writes()),
            final(self).layers.active@.to_set() == with_versions(
                old(self).layers.active@.to_set(),
                e@.writes(),
            ),
            total_footprint(final(self).layers.active@) <= total_footprint(
                old(self).layers.active@,
            ) + total_footprint(e@.writes()),
            final(self).layers.immutables == old(self).layers.immutables,
            final(self).layers.tables == old(self).layers.tables,
            final(self).result_cache is Some == old(self).result_cache is Some,
            *final(self) == (Engine {
                layers: final(self).layers,
                result_cache: final(self).result_cache,
                ..*old(self)
            }),
    {
        let ghost w = e@.writes();
        let ghost before = self.layers;
        let ghost held = before.active@.to_set();
        let ghost start = *self;
        let n: usize = e.ops.len();
        let mut i: usize = 0;
        proof {
            assert(w.take(0) =~= Seq::<Version>::empty());
            assert(one_per_slot(before.active@)) by {
                assert forall|v: Version, x: Version|
                    #![trigger before.active@.contains(v), before.active@.contains(x)]
                    before.active@.contains(v) && before.active@.contains(x) && same_slot(
                        v.0,
                        x.0,
                    ) implies v == x by {
                    store_cases(before, v);
                    store_cases(before, x);
                    assert(before.store().contains(v) && before.store().contains(x));
                }
            }
        }
        while i < n
            invariant
                i <= n == e.ops@.len(),
                w == e@.writes(),
                start == *old(self),
                before == start.layers,
                held == before.active@.to_set(),
                *self == (Engine {
                    layers: self.layers,
                    result_cache: self.result_cache,
                    ..start
                }),
                self.layers.active.wf(),
                one_per_slot(self.layers.active@),
                self.layers.immutables == before.immutables,
                self.layers.tables == before.tables,
                self.layers.active@.to_set() == with_versions(held, w.take(i as int)),
                total_footprint(before.active@) + total_footprint(w) <= usize::MAX,
                total_footprint(self.layers.active@) <= total_footprint(before.active@)
                    + total_footprint(w.take(i as int)),
                start.result_cache is Some == self.result_cache is Some,
                self.result_cache matches Some(c) ==> c.wf() && spared_results(
                    c@.slots,
                    start.result_cache->0@.slots,
                    e@.ops,
                    i as int,
                ),
                start.wf(),
            decreases n - i,
        {
            let op: &WalOp = &e.ops[i];
            assert(e@.ops[i as int] == op@);
            assert(w[i as int] == op_version(op@, e@.seq));
            let (key, entry) = op.to_pair(e.seq);
            let ghost new = (key@, entry@);
            let ghost active = self.layers.active@;
            proof {
                assert(w.take(i + 1).drop_last() =~= w.take(i as int));
                assert(w.take(i + 1).last() == new);
                footprint_prefix(w, i + 1);
            }
            self.layers.active.supersede(key, entry);
            proof {
                assert forall|v: Version| #[trigger]
                    self.layers.active@.to_set().contains(v) <==> with_versions(
                    held,
                    w.take(i + 1),
                ).contains(v) by {
                    assert(active.to_set().contains(v) == active.contains(v));
                    assert(self.layers.active@.to_set().contains(v)
                        == self.layers.active@.contains(v));
                }
                assert(self.layers.active@.to_set() =~= with_versions(held, w.take(i + 1)));
            }
            let mut cache: Option<ResultCache> = self.result_cache.take();
            if let Some(c) = &mut cache {
                proof {
                    without_result_facts(c@.slots, op@.key);
                }
                c.invalidate(op.key.as_slice());
            }
            self.result_cache = cache;
            i = i + 1;
        }
        proof {
            assert(w.take(n as int) =~= w);
            replayed_entry_fits(start, *self, e@);
        }
    }
}

/// The memtable with the versions of a record in place of others of the same key and
/// sequence number keeps the engine well-formed.
proof fn replayed_entry_fits(before: Engine, after: Engine, e: WalView)
    requires
        before.wf(),
        before.layers.immutables@.len() == 0,
        e.seq < before.seq@,
        tables_below(before.layers.tables@, e.seq),
        after == (Engine { layers: after.layers, result_cache: after.result_cache, ..before }),
        after.layers.active.wf(),
        after.layers.immutables == before.layers.immutables,
        after.layers.tables == before.layers.tables,
        after.layers.active@.to_set() == with_versions(
            before.layers.active@.to_set(),
            e.writes(),
        ),
        before.result_cache is Some == after.result_cache is Some,
        after.result_cache matches Some(c) ==> c.wf() && spared_results(
            c@.slots,
            before.result_cache->0@.slots,
            e.ops,
            e.ops.len() as int,
        ),
    ensures
        after.wf(),
        after.store() == with_versions(before.store(), e.writes()),
{
    let w = e.writes();
    let a = before.layers;
    let b = after.layers;
    let tables = Set::new(|v: Version| in_tables(a.tables@, v));
    let held = a.active@.to_set();
    assert forall|v: Version| #[trigger] a.store().contains(v) <==> tables.union(held).contains(
        v,
    ) by {
        store_cases(a, v);
    }
    assert(a.store() =~= tables.union(held));
    assert forall|v: Version, i: int|
        #![trigger tables.contains(v), w[i]]
        tables.contains(v) && 0 <= i < w.len() implies !same_slot(v.0, w[i].0) by {
        assert(w[i] == op_version(e.ops[i], e.seq));
        let k = choose|k: int| 0 <= k < a.tables@.len() && (#[trigger] a.tables@[k]).reader@.contains(
            v,
        );
        assert(a.tables@[k].wf());
        assert(a.tables@[k].meta.max_seq < e.seq);
    }
    added_apart(tables, held, w);
    assert forall|v: Version| #[trigger] b.store().contains(v) <==> tables.union(
        with_versions(held, w),
    ).contains(v) by {
        store_cases(b, v);
        assert(b.active@.to_set().contains(v) == b.active@.contains(v));
    }
    assert(b.store() =~= with_versions(a.store(), w));
    assert forall|i: int| 0 <= i < w.len() implies proper(#[trigger] w[i]) by {
        assert(w[i] == op_version(e.ops[i], e.seq));
    }
    added_coherent(a.store(), w);
    assert forall|v: Version| #[trigger] b.store().contains(v) implies v.0.seq < after.seq@ by {
        added_cases(a.store(), w, v);
        if w.contains(v) {
            let i = choose|i: int| 0 <= i < w.len() && w[i] == v;
            assert(w[i] == op_version(e.ops[i], e.seq));
        }
    }
    let m = memtables_of(b);
    assert forall|i: int, j: int| 0 <= i < b.tables@.len() && 0 <= j < m.len() implies all_above(
        #[trigger] m[j],
        (#[trigger] b.tables@[i]).meta.max_seq,
    ) by {
        assert(j == 0 && m[j] == b.active@);
        assert forall|v: Version| #[trigger] b.active@.contains(v) implies v.0.seq
            > b.tables@[i].meta.max_seq by {
            assert(b.active@.to_set().contains(v));
            added_cases(held, w, v);
            if w.contains(v) {
                let q = choose|q: int| 0 <= q < w.len() && w[q] == v;
                assert(w[q] == op_version(e.ops[q], e.seq));
                assert(a.tables@[i].meta.max_seq < e.seq);
            } else {
                assert(memtables_of(a)[0] == a.active@);
                assert(all_above(memtables_of(a)[0], a.tables@[i].meta.max_seq));
            }
        }
    }
    if let Some(c) = &after.result_cache {
        let old_slots = before.result_cache->0@.slots;
        let slots = c@.slots;
        assert forall|i: int| 0 <= i < slots.len() implies cached_result_holds(
            #[trigger] slots[i],
            after.store(),
        ) by {
            let x = slots[i];
            assert(slots.contains(x));
            let j = choose|j: int| 0 <= j < old_slots.len() && old_slots[j] == x;
            assert(cached_result_holds(old_slots[j], before.store()));
            assert forall|v: Version| visible(v, x.key, u64::MAX) implies (
            #[trigger] before.store().contains(v) <==> after.store().contains(v)) by {
                assert forall|q: int| 0 <= q < w.len() implies (#[trigger] w[q]).0.user_key
                    != v.0.user_key by {
                    assert(w[q] == op_version(e.ops[q], e.seq));
                    assert(e.ops[q].key != x.key);
                }
                added_elsewhere(before.store(), w, v);
            }
            newest_depends_on_key(before.store(), after.store(), x.key, u64::MAX);
        }
    }
}

proof fn written_seq(log: Seq<WalView>, v: Version)
    requires
        written_by(log).contains(v),
    ensures
        exists|k: int| 0 <= k < log.len() && (#[trigger] log[k]).seq == v.0.seq,
    decreases log.len(),
{
    if log.len() > 0 {
        let w = log.last().writes();
        added_cases(written_by(log.drop_last()), w, v);
        if w.contains(v) {
            let i = choose|i: int| 0 <= i < w.len() && w[i] == v;
            assert(w[i] == op_version(log.last().ops[i], log.last().seq));
            assert(log[log.len() - 1].seq == v.0.seq);
        } else {
            written_seq(log.drop_last(), v);
            let k = choose|k: int|
                0 <= k < log.drop_last().len() && (#[trigger] log.drop_last()[k]).seq == v.0.seq;
            assert(log[k].seq == v.0.seq);
        }
    }
}

proof fn replay_is_prefix(log: Seq<WalView>, flushed: u64, ceiling: Option<u64>, k: int, n: int)
    requires
        0 <= k <= n <= log.len(),
    ensures
        replay_upto(log, flushed, ceiling, k).len() <= replay_upto(log, flushed, ceiling, n).len(),
        replay_upto(log, flushed, ceiling, n).take(
            replay_upto(log, flushed, ceiling, k).len() as int,
        ) == replay_upto(log, flushed, ceiling, k),
    decreases n,
{
    let a = replay_upto(log, flushed, ceiling, k);
    let b = replay_upto(log, flushed, ceiling, n);
    if k < n {
        replay_is_prefix(log, flushed, ceiling, k, n - 1);
        let c = replay_upto(log, flushed, ceiling, n - 1);
        assert(b.take(a.len() as int) =~= c.take(a.len() as int));
    } else {
        assert(b.take(a.len() as int) =~= a);
    }
}

proof fn fresh_layers(l: Layers, catalog: Seq<MetaView>, top: u64)
    requires
        tables_sound(l.tables@),
        l.active.wf(),
        l.active@ == Seq::<Version>::empty(),
        l.immutables@.len() == 0,
        catalog == catalog_of(l.tables@),
        top >= top_of(catalog, catalog.len() as int),
        top < u64::MAX,
    ensures
        l.store() == union_of(table_runs(l.tables@)),
        l.wf(),
        in_sequence(l),
        all_below(l.store(), (top + 1) as u64),
        tables_below(l.tables@, (top + 1) as u64),
{
    let runs = table_runs(l.tables@);
    assert forall|v: Version| #[trigger] l.store().contains(v) <==> union_of(runs).contains(v) by {
        store_cases(l, v);
        if union_of(runs).contains(v) {
            let i = choose|i: int| 0 <= i < runs.len() && (#[trigger] runs[i]).contains(v);
            assert(l.tables@[i].reader@.contains(v));
        }
        if in_tables(l.tables@, v) {
            let i = choose|i: int|
                0 <= i < l.tables@.len() && (#[trigger] l.tables@[i]).reader@.contains(v);
            assert(runs[i].contains(v));
        }
    }
    assert(l.store() =~= union_of(runs));
    assert forall|i: int| 0 <= i < l.tables@.len() implies (#[trigger] l.tables@[i]).meta.max_seq
        < top + 1 by {
        top_bound(catalog, catalog.len() as int, i);
        assert(catalog[i].max_seq == l.tables@[i].meta.max_seq);
    }
    assert forall|v: Version| #[trigger] l.store().contains(v) implies v.0.seq < top + 1 by {
        store_cases(l, v);
        let i = choose|i: int|
            0 <= i < l.tables@.len() && (#[trigger] l.tables@[i]).reader@.contains(v);
        assert(l.tables@[i].wf());
        assert(l.tables@[i].meta.max_seq < top + 1);
    }
    let m = memtables_of(l);
    assert(m.len() == 1);
}

} // verus!
