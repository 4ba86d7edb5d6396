//! Opening an engine from what lies on disk, with nothing taken for granted.

use std::sync::Arc;
use vstd::prelude::*;
use crate::bytes::{bytes_eq, bytes_le};
use crate::engine::admin::flushable;
use crate::engine::open::{
    last_segment, last_table, log_fault, log_footprint, log_upto, recovered_seq, replay_upto,
    replayed_log, sealed_of, tables_sound, whole_log, written_by,
};
use crate::engine::read::top_of;
use crate::engine::{catalog_of, Engine, EngineConfig};
use crate::entry::{entries_agree, Entry};
use crate::errors::{EngineError, EngineResult};
use crate::keys::{keys_agree, EntryKind, InternalKey};
use crate::manifest::{MetaView, SstableMeta};
use crate::memtable::total_footprint;
use crate::records::{sorted, versions, visible, Version};
use crate::snapshot::{table_runs, LiveTable};
use crate::sstable::{describes, SstableReader};
use crate::store::{coherent, holds, proper, union_of};
use crate::table_file::{read_table, table_run};
use crate::text::text_of;
use crate::wal::{
    largest_seq, max_entry_seq, op_version, segment_views, wal_views, SegmentView, WalCommand,
    WalEntry, WalOp, WalSegment, WalView, SEGMENT_HEADER_LEN,
};

verus! {

/// A table's file with its entry in the catalog.
#[derive(Debug)]
pub struct TableFile {
    pub meta: SstableMeta,
    pub bytes: Vec<u8>,
}

/// The runs of some tables' files.
pub open spec fn file_runs(files: Seq<TableFile>) -> Seq<Seq<Version>> {
    Seq::new(files.len(), |i: int| table_run(files[i].bytes@)->0)
}

/// A file holds a run that its entry in the catalog describes.
pub open spec fn file_sound(f: TableFile) -> bool {
    table_run(f.bytes@) matches Some(run) && run.len() * 10 <= usize::MAX && describes(f.meta@, run)
}

/// Files that make up a catalog: each is sound, their numbers ascend, and a key and a
/// sequence number determine a version.
pub open spec fn files_sound(files: Seq<TableFile>) -> bool {
    &&& forall|i: int| 0 <= i < files.len() ==> file_sound(#[trigger] files[i])
    &&& coherent(union_of(file_runs(files)))
    &&& forall|i: int, j: int|
        0 <= i < j < files.len() ==> (#[trigger] files[i]).meta.id < (#[trigger] files[j]).meta.id
}

/// What the catalog says of some files.
pub open spec fn file_catalog(files: Seq<TableFile>) -> Seq<MetaView> {
    Seq::new(files.len(), |i: int| files[i].meta@)
}

/// The log can be replayed over the tables: its size and the numbers that follow can be
/// represented.
pub open spec fn log_fits(
    cfg: EngineConfig,
    last_durable_seq: u64,
    catalog: Seq<MetaView>,
    segs: Seq<SegmentView>,
) -> bool {
    let replayed = replayed_log(
        whole_log(segs),
        top_of(catalog, catalog.len() as int),
        cfg.wal_replay_max_seq,
    );
    &&& log_footprint(replayed) <= usize::MAX
    &&& recovered_seq(last_durable_seq, catalog, replayed) < u64::MAX
    &&& last_table(catalog, catalog.len() as int) < u64::MAX
    &&& last_segment(segs, segs.len() as int) < u64::MAX
}

/// Opens a table's file.
fn open_file(f: TableFile) -> (r: Option<LiveTable>)
    ensures
        r is Some <==> file_sound(f),
        r matches Some(t) ==> t.wf() && t.meta@ == f.meta@ && table_run(f.bytes@) == Some(
            t.reader@,
        ),
{
    let pairs: Vec<(InternalKey, Entry)> = match read_table(f.bytes.as_slice()) {
        Ok(p) => p,
        Err(_) => {
            return None;
        },
    };
    let ghost s = versions(pairs@);
    if pairs.len() > usize::MAX / 10 {
        return None;
    }
    let m: &SstableMeta = &f.meta;
    let mut i: usize = 0;
    while i < pairs.len()
        invariant
            i <= pairs@.len(),
            s == versions(pairs@),
            table_run(f.bytes@) == Some(s),
            m == f.meta,
            forall|j: int|
                0 <= j < i ==> crate::bytes::lex_le(m@.min_key, (#[trigger] s[j]).0.user_key)
                    && crate::bytes::lex_le(s[j].0.user_key, m@.max_key) && m@.min_seq
                    <= s[j].0.seq <= m@.max_seq,
        decreases pairs.len() - i,
    {
        let k: &InternalKey = &pairs[i].0;
        assert(s[i as int].0 == k@);
        if !bytes_le(m.min_key.as_slice(), k.user_key.as_slice()) || !bytes_le(
            k.user_key.as_slice(),
            m.max_key.as_slice(),
        ) || k.seq < m.min_seq || k.seq > m.max_seq {
            assert(s.contains(s[i as int]));
            return None;
        }
        i = i + 1;
    }
    assert(describes(m@, s)) by {
        assert forall|v: Version| #[trigger] s.contains(v) implies crate::bytes::lex_le(
            m@.min_key,
            v.0.user_key,
        ) && crate::bytes::lex_le(v.0.user_key, m@.max_key) && m@.min_seq <= v.0.seq <= m@.max_seq by {
            let j = choose|j: int| 0 <= j < s.len() && s[j] == v;
        }
    }
    let reader: SstableReader = SstableReader::build(pairs, true);
    Some(LiveTable { meta: f.meta, reader: Arc::new(reader) })
}

/// Two versions with one key and one sequence number.
spec fn twins(v: Version, w: Version) -> bool {
    v.0.user_key == w.0.user_key && v.0.seq == w.0.seq
}

/// A run whose versions are proper and have no twins within it.
spec fn run_clean(s: Seq<Version>) -> bool {
    &&& forall|i: int| 0 <= i < s.len() ==> proper(#[trigger] s[i])
    &&& forall|i: int, j: int|
        0 <= i < j < s.len() ==> !twins(#[trigger] s[i], #[trigger] s[j])
}

/// A version of a run that has a twin in another is that twin.
spec fn runs_cohere(a: Seq<Version>, b: Seq<Version>) -> bool {
    forall|v: Version, w: Version|
        #![trigger a.contains(v), b.contains(w)]
        a.contains(v) && b.contains(w) && twins(v, w) ==> v == w
}

proof fn clean_runs_are_coherent(runs: Seq<Seq<Version>>)
    requires
        forall|i: int| 0 <= i < runs.len() ==> run_clean(#[trigger] runs[i]),
        forall|i: int, j: int|
            0 <= i < j < runs.len() ==> runs_cohere(#[trigger] runs[i], #[trigger] runs[j]),
    ensures
        coherent(union_of(runs)),
{
    let u = union_of(runs);
    assert forall|v: Version| #[trigger] u.contains(v) implies proper(v) by {
        assert(holds(runs, v));
        let i = choose|i: int| 0 <= i < runs.len() && (#[trigger] runs[i]).contains(v);
        assert(run_clean(runs[i]));
        let k = choose|k: int| 0 <= k < runs[i].len() && runs[i][k] == v;
        assert(proper(runs[i][k]));
    }
    assert forall|v: Version, w: Version|
        #![trigger u.contains(v), u.contains(w)]
        u.contains(v) && u.contains(w) && v.0.user_key == w.0.user_key && v.0.seq
            == w.0.seq implies v == w by {
        assert(holds(runs, v) && holds(runs, w));
        let i = choose|i: int| 0 <= i < runs.len() && (#[trigger] runs[i]).contains(v);
        let j = choose|j: int| 0 <= j < runs.len() && (#[trigger] runs[j]).contains(w);
        assert(twins(v, w) && twins(w, v));
        if i < j {
            assert(runs_cohere(runs[i], runs[j]));
        } else if j < i {
            assert(runs_cohere(runs[j], runs[i]));
        } else {
            assert(run_clean(runs[i]));
            let a = choose|a: int| 0 <= a < runs[i].len() && runs[i][a] == v;
            let b = choose|b: int| 0 <= b < runs[i].len() && runs[i][b] == w;
            if a < b {
                assert(!twins(runs[i][a], runs[i][b]));
            } else if b < a {
                assert(!twins(runs[i][b], runs[i][a]));
            }
        }
    }
}

proof fn coherent_runs_are_clean(runs: Seq<Seq<Version>>, i: int)
    requires
        coherent(union_of(runs)),
        0 <= i < runs.len(),
        sorted(runs[i]),
    ensures
        run_clean(runs[i]),
        forall|j: int| 0 <= j < runs.len() && j != i ==> runs_cohere(runs[i], #[trigger] runs[j]),
{
    let u = union_of(runs);
    let s = runs[i];
    assert forall|k: int| 0 <= k < s.len() implies proper(#[trigger] s[k]) by {
        assert(runs[i].contains(s[k]));
        assert(u.contains(s[k]));
    }
    assert forall|a: int, b: int| 0 <= a < b < s.len() implies !twins(#[trigger] s[a], #[trigger] s[b]) by {
        assert(runs[i].contains(s[a]) && runs[i].contains(s[b]));
        assert(u.contains(s[a]) && u.contains(s[b]));
        assert(s[a].0.lt(s[b].0));
        crate::keys::key_lt_irreflexive(s[a].0);
    }
    assert forall|j: int| 0 <= j < runs.len() && j != i implies runs_cohere(
        runs[i],
        #[trigger] runs[j],
    ) by {
        assert forall|v: Version, w: Version|
            #![trigger runs[i].contains(v), runs[j].contains(w)]
            runs[i].contains(v) && runs[j].contains(w) && twins(v, w) implies v == w by {
            assert(u.contains(v) && u.contains(w));
        }
    }
}

/// Whether a table's versions are proper and have no twins within it.
fn is_clean(t: &LiveTable) -> (r: bool)
    requires
        t.wf(),
    ensures
        r == run_clean(t.reader@),
{
    let pairs: &[(InternalKey, Entry)] = t.reader.full_iter();
    let ghost s = t.reader@;
    proof {
        t.reader.lemma_sorted();
    }
    let mut i: usize = 0;
    while i < pairs.len()
        invariant
            i <= pairs@.len(),
            versions(pairs@) == s,
            s == t.reader@,
            sorted(s),
            forall|j: int| 0 <= j < i ==> proper(#[trigger] s[j]),
            forall|a: int, b: int|
                0 <= a < b < i ==> !twins(#[trigger] s[a], #[trigger] s[b]),
        decreases pairs.len() - i,
    {
        let k: &InternalKey = &pairs[i].0;
        let tomb: bool = pairs[i].1.is_tombstone();
        assert(s[i as int] == (k@, pairs@[i as int].1@));
        let fits: bool = match k.kind {
            EntryKind::Value => !tomb,
            EntryKind::Tombstone => tomb,
        };
        if !fits {
            assert(!proper(s[i as int]));
            return false;
        }
        if i > 0 {
            let p: &InternalKey = &pairs[i - 1].0;
            assert(s[i - 1].0 == p@);
            if p.seq == k.seq && bytes_eq(p.user_key.as_slice(), k.user_key.as_slice()) {
                assert(twins(s[i - 1], s[i as int]));
                return false;
            }
        }
        proof {
            assert forall|a: int, b: int| 0 <= a < b < i + 1 implies !twins(
                #[trigger] s[a],
                #[trigger] s[b],
            ) by {
                if b == i && a < i - 1 {
                    assert(s[a].0.lt(s[i - 1].0));
                    assert(s[i - 1].0.lt(s[i as int].0));
                    if twins(s[a], s[i as int]) {
                        between_twins(s[a].0, s[i - 1].0, s[i as int].0);
                    }
                }
            }
        }
        i = i + 1;
    }
    true
}

proof fn between_twins(a: crate::keys::KeyView, b: crate::keys::KeyView, c: crate::keys::KeyView)
    requires
        a.lt(b),
        b.lt(c),
        a.user_key == c.user_key,
        a.seq == c.seq,
    ensures
        b.user_key == a.user_key,
        b.seq == a.seq,
{
    if b.user_key != a.user_key {
        crate::bytes::lex_lt_asymmetric(a.user_key, b.user_key);
    } else {
        crate::bytes::lex_lt_irreflexive(a.user_key);
    }
}

/// Whether every version of one table that has a twin in another is that twin.
fn cohere(a: &LiveTable, b: &LiveTable) -> (r: bool)
    requires
        a.wf(),
        b.wf(),
        run_clean(b.reader@),
    ensures
        r == runs_cohere(a.reader@, b.reader@),
{
    let pairs: &[(InternalKey, Entry)] = a.reader.full_iter();
    let ghost s = a.reader@;
    let ghost t = b.reader@;
    let mut i: usize = 0;
    while i < pairs.len()
        invariant
            i <= pairs@.len(),
            versions(pairs@) == s,
            s == a.reader@,
            t == b.reader@,
            b.wf(),
            run_clean(t),
            forall|j: int, w: Version|
                0 <= j < i && #[trigger] t.contains(w) && twins(#[trigger] s[j], w) ==> s[j] == w,
        decreases pairs.len() - i,
    {
        let k: &InternalKey = &pairs[i].0;
        let ghost v = s[i as int];
        assert(v == (k@, pairs@[i as int].1@));
        match b.reader.newest_visible(k.user_key.as_slice(), k.seq) {
            Some((found, entry)) => {
                let ghost w = (found@, entry@);
                if found.seq == k.seq && !(keys_agree(found, k) && entries_agree(
                    entry,
                    &pairs[i].1,
                )) {
                    proof {
                        assert(s.contains(v) && t.contains(w));
                        assert(twins(v, w));
                    }
                    return false;
                }
                assert forall|x: Version| #[trigger] t.contains(x) && twins(v, x) implies v == x by {
                    assert(visible(x, k.user_key@, k.seq));
                    assert(w.0.le(x.0));
                    crate::bytes::lex_lt_irreflexive(k.user_key@);
                    assert(twins(w, x) && twins(x, w));
                    let p = choose|p: int| 0 <= p < t.len() && t[p] == w;
                    let q = choose|q: int| 0 <= q < t.len() && t[q] == x;
                    if p < q {
                        assert(!twins(t[p], t[q]));
                    } else if q < p {
                        assert(!twins(t[q], t[p]));
                    }
                }
            },
            None => {
                assert forall|x: Version| #[trigger] t.contains(x) implies !twins(v, x) by {
                    if twins(v, x) {
                        assert(visible(x, k.user_key@, k.seq));
                    }
                }
            },
        }
        i = i + 1;
    }
    assert forall|v: Version, w: Version|
        #![trigger s.contains(v), t.contains(w)]
        s.contains(v) && t.contains(w) && twins(v, w) implies v == w by {
        let j = choose|j: int| 0 <= j < s.len() && s[j] == v;
        assert(twins(s[j], w));
    }
    true
}

/// A table was read from a sound file.
spec fn opened(t: LiveTable, f: TableFile) -> bool {
    &&& t.wf()
    &&& t.meta@ == f.meta@
    &&& table_run(f.bytes@) == Some(t.reader@)
    &&& file_sound(f)
    &&& run_clean(t.reader@)
}

/// Opens the files of a catalog, where they make one up.
fn open_files(files: Vec<TableFile>) -> (r: Option<Vec<LiveTable>>)
    ensures
        r is Some <==> files_sound(files@),
        r matches Some(t) ==> tables_sound(t@) && table_runs(t@) == file_runs(files@)
            && catalog_of(t@) == file_catalog(files@),
{
    let ghost all = files@;
    let ghost runs = file_runs(all);
    let mut left: Vec<TableFile> = files;
    let mut tables: Vec<LiveTable> = Vec::new();
    let n: usize = left.len();
    while left.len() > 0
        invariant
            all == files@,
            n == all.len(),
            left@.len() + tables@.len() == n,
            left@ == all.skip(tables@.len() as int),
            runs == file_runs(all),
            forall|i: int| 0 <= i < tables@.len() ==> opened(#[trigger] tables@[i], all[i]),
            forall|i: int, j: int|
                0 <= i < j < tables@.len() ==> (#[trigger] tables@[i]).meta.id < (
                #[trigger] tables@[j]).meta.id && runs_cohere(tables@[i].reader@, tables@[j].reader@),
        decreases left@.len(),
    {
        let ghost k = tables@.len() as int;
        let f: TableFile = left.remove(0);
        assert(f == all[k]);
        assert(left@ =~= all.skip(k + 1));
        let t: LiveTable = match open_file(f) {
            Some(t) => t,
            None => {
                assert(!file_sound(all[k]));
                return None;
            },
        };
        proof {
            t.reader.lemma_sorted();
            if files_sound(all) {
                assert(runs[k] == t.reader@);
                coherent_runs_are_clean(runs, k);
            }
        }
        if !is_clean(&t) {
            return None;
        }
        let mut i: usize = 0;
        while i < tables.len()
            invariant
                i <= tables@.len() == k,
                k < all.len(),
                all == files@,
                runs == file_runs(all),
                t.wf(),
                t.meta@ == all[k].meta@,
                table_run(all[k].bytes@) == Some(t.reader@),
                run_clean(t.reader@),
                forall|a: int| 0 <= a < tables@.len() ==> opened(#[trigger] tables@[a], all[a]),
                forall|a: int|
                    0 <= a < i ==> (#[trigger] tables@[a]).meta.id < t.meta.id && runs_cohere(
                        tables@[a].reader@,
                        t.reader@,
                    ),
            decreases tables.len() - i,
        {
            if tables[i].meta.id >= t.meta.id {
                assert(all[i as int].meta.id >= all[k].meta.id);
                return None;
            }
            if !cohere(&tables[i], &t) {
                proof {
                    if files_sound(all) {
                        assert(runs[i as int] == tables@[i as int].reader@);
                        assert(runs[k] == t.reader@);
                        tables@[i as int].reader.lemma_sorted();
                        coherent_runs_are_clean(runs, i as int);
                        assert(runs_cohere(runs[i as int], runs[k]));
                    }
                }
                return None;
            }
            i = i + 1;
        }
        assert(opened(t, all[k]));
        let ghost before = tables@;
        tables.push(t);
        proof {
            assert(tables@ == before.push(t));
            assert forall|a: int| 0 <= a < tables@.len() implies opened(
                #[trigger] tables@[a],
                all[a],
            ) by {
                if a < k {
                    assert(tables@[a] == before[a]);
                }
            }
        }
    }
    proof {
        assert(tables@.len() == n);
        assert(table_runs(tables@) =~= runs);
        assert(catalog_of(tables@) =~= file_catalog(all));
        assert forall|i: int| 0 <= i < runs.len() implies run_clean(#[trigger] runs[i]) by {
            assert(runs[i] == tables@[i].reader@);
        }
        assert forall|i: int, j: int| 0 <= i < j < runs.len() implies runs_cohere(
            #[trigger] runs[i],
            #[trigger] runs[j],
        ) by {
            assert(runs[i] == tables@[i].reader@ && runs[j] == tables@[j].reader@);
        }
        clean_runs_are_coherent(runs);
        assert forall|i: int, j: int| 0 <= i < j < all.len() implies (#[trigger] all[i]).meta.id < (
        #[trigger] all[j]).meta.id by {
            assert(tables@[i].meta.id < tables@[j].meta.id);
        }
        assert forall|i: int| 0 <= i < all.len() implies file_sound(#[trigger] all[i]) by {
            assert(tables@[i].wf());
        }
    }
    Some(tables)
}

/// The records of a segment stand in the log after those of the segments before it.
proof fn log_step(segs: Seq<SegmentView>, i: int, j: int)
    requires
        0 <= i < segs.len(),
        0 <= j < segs[i].entries.len(),
    ensures
        log_upto(segs, i).len() + j < whole_log(segs).len(),
        whole_log(segs)[log_upto(segs, i).len() + j] == segs[i].entries[j],
{
    log_grows(segs, i + 1, segs.len() as int);
    assert(log_upto(segs, i + 1) == log_upto(segs, i) + segs[i].entries);
    assert(log_upto(segs, i + 1)[log_upto(segs, i).len() + j] == segs[i].entries[j]);
}

proof fn log_grows(segs: Seq<SegmentView>, k: int, n: int)
    requires
        0 <= k <= n <= segs.len(),
    ensures
        log_upto(segs, k).len() <= log_upto(segs, n).len(),
        forall|i: int|
            0 <= i < log_upto(segs, k).len() ==> #[trigger] log_upto(segs, k)[i] == log_upto(
                segs,
                n,
            )[i],
    decreases n - k,
{
    if k < n {
        log_grows(segs, k, n - 1);
    }
}

/// What a record adds to a memtable, as long as the sum stays within `room`.
fn add_footprint(e: &WalEntry, start: usize) -> (r: Option<usize>)
    ensures
        match r {
            Some(n) => n == start + total_footprint(e@.writes()),
            None => start + total_footprint(e@.writes()) > usize::MAX,
        },
{
    let ghost w = e@.writes();
    let mut n: usize = start;
    let mut i: usize = 0;
    assert(w.take(0) =~= Seq::<Version>::empty());
    while i < e.ops.len()
        invariant
            i <= e.ops@.len(),
            w == e@.writes(),
            n == start + total_footprint(w.take(i as int)),
        decreases e.ops.len() - i,
    {
        let op: &WalOp = &e.ops[i];
        proof {
            assert(e@.ops[i as int] == op@);
            assert(w[i as int] == op_version(op@, e@.seq));
            assert(w.take(i + 1).drop_last() =~= w.take(i as int));
            assert(w.take(i + 1).last() == w[i as int]);
            part_weighs_less(w, i + 1);
        }
        let kept: usize = match op.command {
            WalCommand::Put => op.value.len(),
            WalCommand::Del => 0,
        };
        let k: usize = op.key.len();
        if usize::MAX - n < 65 || usize::MAX - n - 65 < k || usize::MAX - n - 65 - k < kept {
            return None;
        }
        n = n + 65 + k + kept;
        i = i + 1;
    }
    assert(w.take(w.len() as int) =~= w);
    Some(n)
}

proof fn part_weighs_less(w: Seq<Version>, n: int)
    requires
        0 <= n <= w.len(),
    ensures
        total_footprint(w.take(n)) <= total_footprint(w),
    decreases w.len(),
{
    if n == w.len() {
        assert(w.take(n) =~= w);
    } else {
        part_weighs_less(w.drop_last(), n);
        assert(w.drop_last().take(n) =~= w.take(n));
    }
}

proof fn replayed_part(log: Seq<WalView>, flushed: u64, ceiling: Option<u64>, k: int, n: int)
    requires
        0 <= k <= n <= log.len(),
    ensures
        log_footprint(replay_upto(log, flushed, ceiling, k)) <= log_footprint(
            replay_upto(log, flushed, ceiling, n),
        ),
    decreases n - k,
{
    if k < n {
        replayed_part(log, flushed, ceiling, k, n - 1);
        let p = replay_upto(log, flushed, ceiling, n - 1);
        assert(p.push(log[n - 1]).drop_last() =~= p);
    }
}

/// The largest sequence number of what is replayed, where its size can be represented.
fn weigh_replay(segments: &Vec<WalSegment>, flushed: u64, ceiling: Option<u64>) -> (r: Option<u64>)
    ensures
        ({
            let all = replayed_log(whole_log(segment_views(segments@)), flushed, ceiling);
            match r {
                Some(n) => n == max_entry_seq(all) && log_footprint(all) <= usize::MAX,
                None => log_footprint(all) > usize::MAX,
            }
        }),
{
    let ghost segs = segment_views(segments@);
    let ghost log = whole_log(segs);
    let mut n: u64 = 0;
    let mut size: usize = 0;
    let ghost mut at: int = 0;
    let mut i: usize = 0;
    while i < segments.len()
        invariant
            i <= segments@.len(),
            segs == segment_views(segments@),
            log == whole_log(segs),
            at == log_upto(segs, i as int).len(),
            at <= log.len(),
            i == segments@.len() ==> at == log.len(),
            n == max_entry_seq(replay_upto(log, flushed, ceiling, at)),
            size == log_footprint(replay_upto(log, flushed, ceiling, at)),
        decreases segments.len() - i,
    {
        let s: &WalSegment = &segments[i];
        assert(segs[i as int] == s@);
        let ghost base = at;
        let mut j: usize = 0;
        proof {
            log_grows(segs, i + 1, segs.len() as int);
        }
        while j < s.entries.len()
            invariant
                j <= s.entries@.len(),
                i < segments@.len(),
                segs == segment_views(segments@),
                segs[i as int] == s@,
                log == whole_log(segs),
                base == log_upto(segs, i as int).len(),
                at == base + j,
                base + s.entries@.len() <= log.len(),
                n == max_entry_seq(replay_upto(log, flushed, ceiling, at)),
                size == log_footprint(replay_upto(log, flushed, ceiling, at)),
            decreases s.entries.len() - j,
        {
            let e: &WalEntry = &s.entries[j];
            proof {
                log_step(segs, i as int, j as int);
                assert(segs[i as int].entries[j as int] == e@);
                let p = replay_upto(log, flushed, ceiling, at);
                assert(p.push(e@).drop_last() =~= p);
                replayed_part(log, flushed, ceiling, at + 1, log.len() as int);
            }
            let below: bool = match ceiling {
                Some(c) => e.seq <= c,
                None => true,
            };
            if e.seq > flushed && below {
                match add_footprint(e, size) {
                    Some(sum) => {
                        size = sum;
                    },
                    None => {
                        return None;
                    },
                }
                if e.seq > n {
                    n = e.seq;
                }
            }
            proof {
                at = at + 1;
            }
            j = j + 1;
        }
        i = i + 1;
    }
    Some(n)
}

/// Records that an engine can take over: they can be held and numbered past.
pub open spec fn installable(log: Seq<WalView>) -> bool {
    &&& log_footprint(log) <= usize::MAX
    &&& max_entry_seq(log) < u64::MAX
}

/// Whether an engine can take over the records of a segment.
fn can_install(segment: &WalSegment) -> (r: bool)
    ensures
        r == installable(wal_views(segment.entries@)),
{
    let ghost log = wal_views(segment.entries@);
    let mut size: usize = 0;
    let mut i: usize = 0;
    assert(log.take(0) =~= Seq::<WalView>::empty());
    while i < segment.entries.len()
        invariant
            i <= segment.entries@.len(),
            log == wal_views(segment.entries@),
            size == log_footprint(log.take(i as int)),
        decreases segment.entries.len() - i,
    {
        let e: &WalEntry = &segment.entries[i];
        proof {
            assert(log[i as int] == e@);
            assert(log.take(i + 1).drop_last() =~= log.take(i as int));
            assert(log.take(i + 1).last() == e@);
            crate::engine::admin::footprint_take(log, i + 1);
        }
        match add_footprint(e, size) {
            Some(sum) => {
                size = sum;
            },
            None => {
                return false;
            },
        }
        i = i + 1;
    }
    assert(log.take(log.len() as int) =~= log);
    largest_seq(&segment.entries) < u64::MAX
}

impl Engine {
    /// Applies a sealed log segment that was installed beside the engine's own: writes
    /// the memtables out, runs compactions until none is due, and replays the records above the tables. Returns the number
    /// of versions written. A segment that is damaged or too large is refused.
    pub fn apply_installed_wal_segment(&mut self, segment: WalSegment) -> (r: EngineResult<usize>)
        requires
            old(self).wf(),
            flushable(old(self)),
        ensures
            final(self).wf(),
            if installable(wal_views(segment.entries@)) {
                &&& final(self).installs(old(self), segment, r)
                &&& segment.outcome is Clean && !old(self).refuses_to_settle() ==> r is Ok
            } else {
                &&& r matches Err(EngineError::Io(m)) && m@
                    == "WAL: records too large"@
                &&& *final(self) == *old(self)
            },
    {
        if !can_install(&segment) {
            return Err(EngineError::Io(text_of("WAL: records too large")));
        }
        self.replay_installed(segment)
    }

    /// Opens an engine over the files of its tables, given by ascending number, and the
    /// segments of its log. Files that do not make up a catalog are refused, and a log
    /// that is damaged or too large.
    pub fn open_files(
        cfg: EngineConfig,
        last_durable_seq: u64,
        files: Vec<TableFile>,
        segments: &Vec<WalSegment>,
        clean_boot: bool,
    ) -> (r: EngineResult<Engine>)
        ensures
            ({
                let segs = segment_views(segments@);
                let catalog = file_catalog(files@);
                let replayed = replayed_log(
                    whole_log(segs),
                    top_of(catalog, catalog.len() as int),
                    cfg.wal_replay_max_seq,
                );
                let fault = log_fault(segs, cfg.wal_dir@, segs.len() as int);
                match r {
                    Ok(e) => {
                        &&& files_sound(files@)
                        &&& log_fits(cfg, last_durable_seq, catalog, segs)
                        &&& fault is None
                        &&& e.wf()
                        &&& e.store() == union_of(file_runs(files@)).union(written_by(replayed))
                        &&& e.catalog() == catalog
                        &&& e.cfg == cfg
                        &&& e.seq@ == recovered_seq(last_durable_seq, catalog, replayed) + 1
                        &&& e.layers.active@.to_set() == written_by(replayed)
                        &&& e.layers.immutables@.len() == 0
                        &&& e.next_sstable_id == last_table(catalog, catalog.len() as int) + 1
                        &&& e.active_wal_id == last_segment(segs, segs.len() as int) + 1
                        &&& e.active_wal_size == SEGMENT_HEADER_LEN
                        &&& e.in_flight_wal_bytes == 0
                        &&& e.sealed_segment_max_seq@ == sealed_of(segs, segs.len() as int)
                        &&& e.buffered_seq == e.seq@ - 1
                        &&& e.synced_seq == e.seq@ - 1
                        &&& e.clean_boot == clean_boot
                        &&& e.as_opened()
                    },
                    Err(err) => err matches EngineError::Io(m) && if !files_sound(files@) {
                        m@ == "sstable: damaged or inconsistent files"@
                    } else if !log_fits(cfg, last_durable_seq, catalog, segs) {
                        m@ == "WAL: records too large"@
                    } else {
                        fault == Some(m@)
                    },
                }
            }),
    {
        let ghost segs = segment_views(segments@);
        let ghost catalog = file_catalog(files@);
        let ghost runs = file_runs(files@);
        let tables: Vec<LiveTable> = match open_files(files) {
            Some(t) => t,
            None => {
                return Err(EngineError::Io(text_of("sstable: damaged or inconsistent files")));
            },
        };
        assert(catalog.len() == tables@.len());
        let mut flushed: u64 = 0;
        let mut max_id: u64 = 0;
        let mut i: usize = 0;
        while i < tables.len()
            invariant
                i <= tables@.len(),
                catalog == catalog_of(tables@),
                flushed == top_of(catalog, i as int),
                max_id == last_table(catalog, i as int),
            decreases tables.len() - i,
        {
            if tables[i].meta.max_seq > flushed {
                flushed = tables[i].meta.max_seq;
            }
            if tables[i].meta.id > max_id {
                max_id = tables[i].meta.id;
            }
            i = i + 1;
        }
        let mut fits: bool = max_id < u64::MAX;
        let mut last: u64 = 0;
        i = 0;
        while i < segments.len()
            invariant
                i <= segments@.len(),
                segs == segment_views(segments@),
                last == last_segment(segs, i as int),
            decreases segments.len() - i,
        {
            assert(segs[i as int] == segments@[i as int]@);
            if segments[i].id > last {
                last = segments[i].id;
            }
            i = i + 1;
        }
        fits = fits && last < u64::MAX && last_durable_seq < u64::MAX && flushed < u64::MAX;
        let ceiling: Option<u64> = cfg.wal_replay_max_seq;
        match weigh_replay(segments, flushed, ceiling) {
            Some(n) => {
                fits = fits && n < u64::MAX;
            },
            None => {
                fits = false;
            },
        }
        assert(fits == log_fits(cfg, last_durable_seq, catalog, segs));
        if !fits {
            return Err(EngineError::Io(text_of("WAL: records too large")));
        }
        Engine::open(cfg, last_durable_seq, tables, segments, clean_boot)
    }
}

} // verus!
