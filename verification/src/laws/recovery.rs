//! Recovery: what is replayed of a log, what is refused, and where numbering goes on.

use vstd::prelude::*;
use crate::engine::admin::ops_in;
use crate::engine::open::{
    last_segment, last_table, log_fault, path_of, recovered_seq, replay_upto, replayed_log,
    sealed_of, table_id_of, table_name, table_rank, whole_log, written_by,
};
use crate::manifest::MetaView;
use crate::records::Version;
use crate::stable_sort::{arranged, arranging_sorts};
use crate::store::with_versions;
use crate::text::{number, padded};
use crate::wal::{max_entry_seq, segment_name, ReplayOutcome, SegmentView, WalCommand, WalView};

verus! {

/// Of a log the records above what the tables hold are replayed, up to the ceiling where
/// one is set, in order; and no others.
pub proof fn records_above_the_tables_are_replayed(
    log: Seq<WalView>,
    flushed: u64,
    ceiling: Option<u64>,
)
    ensures
        replayed_log(log, flushed, ceiling) == log.filter(
            |e: WalView|
                e.seq > flushed && match ceiling {
                    Some(c) => e.seq <= c,
                    None => true,
                },
        ),
{
    replay_is_a_filter(log, flushed, ceiling, log.len() as int);
    assert(log.take(log.len() as int) =~= log);
}

proof fn replay_is_a_filter(log: Seq<WalView>, flushed: u64, ceiling: Option<u64>, n: int)
    requires
        0 <= n <= log.len(),
    ensures
        replay_upto(log, flushed, ceiling, n) == log.take(n).filter(
            |e: WalView|
                e.seq > flushed && match ceiling {
                    Some(c) => e.seq <= c,
                    None => true,
                },
        ),
    decreases n,
{
    reveal(Seq::filter);
    if n > 0 {
        replay_is_a_filter(log, flushed, ceiling, n - 1);
        assert(log.take(n).drop_last() =~= log.take(n - 1));
        assert(log.take(n).last() == log[n - 1]);
    } else {
        assert(log.take(0) =~= Seq::<WalView>::empty());
    }
}

/// The log is what its segments hold, one after the other.
pub proof fn the_log_is_all_segments(segs: Seq<SegmentView>)
    ensures
        whole_log(segs) == segs.fold_left(
            Seq::<WalView>::empty(),
            |a: Seq<WalView>, s: SegmentView| a + s.entries,
        ),
    decreases segs.len(),
{
    log_is_folded(segs, segs.len() as int);
    assert(segs.take(segs.len() as int) =~= segs);
}

proof fn log_is_folded(segs: Seq<SegmentView>, n: int)
    requires
        0 <= n <= segs.len(),
    ensures
        crate::engine::open::log_upto(segs, n) == segs.take(n).fold_left(
            Seq::<WalView>::empty(),
            |a: Seq<WalView>, s: SegmentView| a + s.entries,
        ),
    decreases n,
{
    if n > 0 {
        log_is_folded(segs, n - 1);
        assert(segs.take(n).drop_last() =~= segs.take(n - 1));
        assert(segs.take(n).last() == segs[n - 1]);
    }
}

/// The version that operation `i` of a record writes.
pub open spec fn written(e: WalView, i: int, v: Version) -> bool {
    &&& 0 <= i < e.ops.len()
    &&& v.0.user_key == e.ops[i].key
    &&& v.0.seq == e.seq
    &&& v.1.value == (match e.ops[i].command {
        WalCommand::Put => Some(e.ops[i].value),
        WalCommand::Del => None::<Seq<u8>>,
    })
    &&& v.1.expires_at == (if e.ops[i].command == WalCommand::Put && e.ops[i].expires_at > 0 {
        Some(e.ops[i].expires_at)
    } else {
        None::<u64>
    })
    &&& v.0.kind == (match e.ops[i].command {
        WalCommand::Put => crate::keys::EntryKind::Value,
        WalCommand::Del => crate::keys::EntryKind::Tombstone,
    })
}

/// Some operation of the log writes the version.
pub open spec fn written_in(log: Seq<WalView>, v: Version) -> bool {
    exists|k: int, i: int| 0 <= k < log.len() && #[trigger] written(log[k], i, v)
}

/// Everything that a log writes under numbers and keys of its own is there after a replay,
/// and nothing else.
pub proof fn a_replay_writes_what_the_log_says(log: Seq<WalView>, v: Version)
    requires
        crate::engine::open::log_in_order(log),
    ensures
        written_by(log).contains(v) <==> written_in(log, v),
    decreases log.len(),
{
    if log.len() > 0 {
        let front = log.drop_last();
        let e = log.last();
        let n = log.len() - 1;
        assert(crate::engine::open::log_in_order(front)) by {
            assert forall|i: int, j: int| 0 <= i < j < front.len() implies (#[trigger] front[i]).seq < (
            #[trigger] front[j]).seq by {
                assert(log[i].seq < log[j].seq);
            }
            assert forall|i: int| 0 <= i < front.len() implies crate::engine::write::keys_distinct(
                (#[trigger] front[i]).ops,
            ) by {
                assert(crate::engine::write::keys_distinct(log[i].ops));
            }
        }
        a_replay_writes_what_the_log_says(front, v);
        let w = e.writes();
        assert forall|x: Version, i: int|
            #![trigger written_by(front).contains(x), w[i]]
            written_by(front).contains(x) && 0 <= i < w.len() implies !crate::memtable::same_slot(
            x.0,
            w[i].0,
        ) by {
            a_replay_writes_what_the_log_says(front, x);
            let (k, j) = choose|k: int, j: int|
                0 <= k < front.len() && #[trigger] written(front[k], j, x);
            assert(log[k].seq < log[n].seq);
        }
        assert(crate::engine::write::keys_distinct(log[n].ops));
        added_one_by_one(written_by(front), e, w.len() as int, v);
        assert(w.take(w.len() as int) =~= w);
        if written_in(front, v) {
            let (k, i) = choose|k: int, i: int|
                0 <= k < front.len() && #[trigger] written(front[k], i, v);
            assert(written(log[k], i, v));
        }
        if exists|i: int| #[trigger] written(e, i, v) {
            let i = choose|i: int| #[trigger] written(e, i, v);
            assert(written(log[n], i, v));
        }
        if written_in(log, v) {
            let (k, i) = choose|k: int, i: int|
                0 <= k < log.len() && #[trigger] written(log[k], i, v);
            if k < n {
                assert(written(front[k], i, v));
            }
        }
    }
}

proof fn added_one_by_one(s: Set<Version>, e: WalView, n: int, v: Version)
    requires
        0 <= n <= e.ops.len(),
        crate::engine::write::keys_distinct(e.ops),
        forall|x: Version, i: int|
            #![trigger s.contains(x), e.writes()[i]]
            s.contains(x) && 0 <= i < e.writes().len() ==> !crate::memtable::same_slot(
                x.0,
                e.writes()[i].0,
            ),
    ensures
        with_versions(s, e.writes().take(n)).contains(v) <==> s.contains(v) || exists|i: int|
            i < n && #[trigger] written(e, i, v),
    decreases n,
{
    let w = e.writes();
    if n > 0 {
        added_one_by_one(s, e, n - 1, v);
        assert(w.take(n).drop_last() =~= w.take(n - 1));
        let new = w[n - 1];
        assert(w.take(n).last() == new);
        assert(new == crate::wal::op_version(e.ops[n - 1], e.seq));
        assert(written(e, n - 1, v) <==> v == new);
        if s.contains(v) {
            assert(!crate::memtable::same_slot(v.0, w[n - 1].0));
        }
        if exists|i: int| i < n - 1 && #[trigger] written(e, i, v) {
            let i = choose|i: int| i < n - 1 && #[trigger] written(e, i, v);
            assert(e.ops[i].key != e.ops[n - 1].key);
        }
    } else {
        assert(w.take(0) =~= Seq::<Version>::empty());
    }
}

/// A log is refused where a segment is corrupt, or torn and not the last; and only then.
pub proof fn damage_before_the_end_is_refused(segs: Seq<SegmentView>, dir: Seq<char>)
    ensures
        log_fault(segs, dir, segs.len() as int) is None <==> forall|i: int|
            0 <= i < segs.len() ==> {
                ||| (#[trigger] segs[i]).outcome == ReplayOutcome::Clean
                ||| segs[i].outcome == ReplayOutcome::TornTail && forall|j: int|
                    0 <= j < segs.len() ==> (#[trigger] segs[j]).id <= segs[i].id
            },
{
    last_segment_is_largest(segs, segs.len() as int);
    faults_before(segs, dir, segs.len() as int);
}

proof fn last_segment_is_largest(segs: Seq<SegmentView>, n: int)
    requires
        0 <= n <= segs.len(),
    ensures
        forall|j: int| 0 <= j < n ==> (#[trigger] segs[j]).id <= last_segment(segs, n),
        n > 0 ==> exists|j: int| 0 <= j < n && (#[trigger] segs[j]).id == last_segment(segs, n),
        n == 0 ==> last_segment(segs, n) == 0,
    decreases n,
{
    if n > 0 {
        last_segment_is_largest(segs, n - 1);
        if last_segment(segs, n) == segs[n - 1].id {
            assert(segs[n - 1].id == last_segment(segs, n));
        } else {
            let j = choose|j: int|
                0 <= j < n - 1 && (#[trigger] segs[j]).id == last_segment(segs, n - 1);
            assert(segs[j].id == last_segment(segs, n));
        }
    }
}

proof fn faults_before(segs: Seq<SegmentView>, dir: Seq<char>, n: int)
    requires
        0 <= n <= segs.len(),
    ensures
        log_fault(segs, dir, n) is None <==> forall|i: int|
            0 <= i < n ==> {
                ||| (#[trigger] segs[i]).outcome == ReplayOutcome::Clean
                ||| segs[i].outcome == ReplayOutcome::TornTail && segs[i].id == last_segment(
                    segs,
                    segs.len() as int,
                )
            },
    decreases n,
{
    if n > 0 {
        faults_before(segs, dir, n - 1);
        let x = segs[n - 1].outcome;
    }
}

/// The largest number of some records bounds them all and is that of one.
pub proof fn the_largest_number_of_a_log(log: Seq<WalView>)
    ensures
        forall|i: int| 0 <= i < log.len() ==> (#[trigger] log[i]).seq <= max_entry_seq(log),
        log.len() > 0 ==> exists|i: int|
            0 <= i < log.len() && (#[trigger] log[i]).seq == max_entry_seq(log),
        log.len() == 0 ==> max_entry_seq(log) == 0,
    decreases log.len(),
{
    if log.len() > 0 {
        let front = log.drop_last();
        the_largest_number_of_a_log(front);
        assert forall|i: int| 0 <= i < log.len() implies (#[trigger] log[i]).seq <= max_entry_seq(
            log,
        ) by {
            if i < front.len() {
                assert(front[i] == log[i]);
            }
        }
        if max_entry_seq(log) == log.last().seq {
            assert(log[log.len() - 1].seq == max_entry_seq(log));
        } else {
            let i = choose|i: int|
                0 <= i < front.len() && (#[trigger] front[i]).seq == max_entry_seq(front);
            assert(log[i].seq == max_entry_seq(log));
        }
    }
}

/// Numbering goes on above everything that is there: the mark of the manifest, the tables
/// and the replayed records; tables and segments likewise.
pub proof fn numbering_goes_on(
    last_durable: u64,
    catalog: Seq<MetaView>,
    replayed: Seq<WalView>,
    segs: Seq<SegmentView>,
)
    ensures
        ({
            let n = recovered_seq(last_durable, catalog, replayed);
            &&& n >= last_durable
            &&& forall|i: int| 0 <= i < catalog.len() ==> (#[trigger] catalog[i]).max_seq <= n
            &&& forall|i: int| 0 <= i < replayed.len() ==> (#[trigger] replayed[i]).seq <= n
            &&& {
                ||| n == last_durable
                ||| exists|i: int| 0 <= i < catalog.len() && (#[trigger] catalog[i]).max_seq == n
                ||| exists|i: int| 0 <= i < replayed.len() && (#[trigger] replayed[i]).seq == n
            }
        }),
        forall|i: int|
            0 <= i < catalog.len() ==> (#[trigger] catalog[i]).id <= last_table(
                catalog,
                catalog.len() as int,
            ),
        catalog.len() == 0 ==> last_table(catalog, catalog.len() as int) == 0,
        forall|i: int|
            0 <= i < segs.len() ==> (#[trigger] segs[i]).id <= last_segment(
                segs,
                segs.len() as int,
            ),
        segs.len() == 0 ==> last_segment(segs, segs.len() as int) == 0,
{
    crate::laws::reads::the_largest_number_of_a_catalog(catalog, catalog.len() as int);
    the_largest_number_of_a_log(replayed);
    last_segment_is_largest(segs, segs.len() as int);
    last_table_is_largest(catalog, catalog.len() as int);
}

proof fn last_table_is_largest(catalog: Seq<MetaView>, n: int)
    requires
        0 <= n <= catalog.len(),
    ensures
        forall|i: int| 0 <= i < n ==> (#[trigger] catalog[i]).id <= last_table(catalog, n),
        n == 0 ==> last_table(catalog, n) == 0,
    decreases n,
{
    if n > 0 {
        last_table_is_largest(catalog, n - 1);
    }
}

/// Each segment with a record is noted with the largest number in it.
pub proof fn segments_are_noted_with_their_largest_number(segs: Seq<SegmentView>, n: int, i: int)
    requires
        0 <= i < n <= segs.len(),
        forall|a: int, b: int|
            0 <= a < b < segs.len() ==> (#[trigger] segs[a]).id != (#[trigger] segs[b]).id,
    ensures
        max_entry_seq(segs[i].entries) > 0 ==> sealed_of(segs, n).dom().contains(segs[i].id)
            && sealed_of(segs, n)[segs[i].id] == max_entry_seq(segs[i].entries),
        max_entry_seq(segs[i].entries) == 0 ==> !sealed_of(segs, n).dom().contains(segs[i].id),
    decreases n,
{
    if i < n - 1 {
        segments_are_noted_with_their_largest_number(segs, n - 1, i);
        assert(segs[i].id != segs[n - 1].id);
    } else {
        unseen_before(segs, n - 1, segs[i].id);
    }
}

proof fn unseen_before(segs: Seq<SegmentView>, n: int, id: u64)
    requires
        0 <= n <= segs.len(),
        forall|a: int| 0 <= a < n ==> (#[trigger] segs[a]).id != id,
    ensures
        !sealed_of(segs, n).dom().contains(id),
    decreases n,
{
    if n > 0 {
        unseen_before(segs, n - 1, id);
        assert(segs[n - 1].id != id);
    }
}

/// The operations of some records, counted.
pub proof fn operations_are_counted(log: Seq<WalView>)
    ensures
        ops_in(log) == log.fold_left(0int, |n: int, e: WalView| n + e.ops.len()),
    decreases log.len(),
{
    if log.len() > 0 {
        operations_are_counted(log.drop_last());
    }
}

/// A path is a directory and a name with one slash between them. Tables and segments have
/// names of eight digits or more.
pub proof fn files_have_their_names(dir: Seq<char>, name: Seq<char>, id: u64)
    ensures
        dir.len() > 0 && dir.last() != '/' ==> path_of(dir, name) == dir + seq!['/'] + name,
        dir.len() > 0 && dir.last() == '/' ==> path_of(dir, name) == dir + name,
        table_name(id) == padded(id as nat, 8) + seq!['.', 's', 's', 't'],
        segment_name(id) == seq!['w', 'a', 'l', '-'] + padded(id as nat, 8) + seq![
            '.',
            'l',
            'o',
            'g',
        ],
{
    reveal_strlit("/");
    reveal_strlit(".sst");
    reveal_strlit("wal-");
    reveal_strlit(".log");
    assert("/"@ =~= seq!['/']);
    assert(".sst"@ =~= seq!['.', 's', 's', 't']);
    assert("wal-"@ =~= seq!['w', 'a', 'l', '-']);
    assert(".log"@ =~= seq!['.', 'l', 'o', 'g']);
}

/// A file is a table's where its name is a number and `.sst`, and it is the table of that
/// number; the name of every table is such.
pub proof fn tables_are_known_by_their_names(name: Seq<char>, id: u64)
    ensures
        table_id_of(name) == Some(id) <==> exists|digits: Seq<char>|
            #![trigger number(digits)]
            number(digits) == Some(id) && name == digits + seq!['.', 's', 's', 't'],
{
    reveal_strlit(".sst");
    let tail = seq!['.', 's', 's', 't'];
    assert(".sst"@ =~= tail);
    if table_id_of(name) == Some(id) {
        let n = name.len() - 4;
        assert(number(name.take(n)) == Some(id));
        assert(name =~= name.take(n) + name.skip(n));
    }
    if exists|digits: Seq<char>|
        #![trigger number(digits)]
        number(digits) == Some(id) && name == digits + tail {
        let digits = choose|digits: Seq<char>|
            #![trigger number(digits)]
            number(digits) == Some(id) && name == digits + tail;
        assert(name.take(name.len() - 4) =~= digits);
        assert(name.skip(name.len() - 4) =~= tail);
    }
}

/// The tables of a manifest are opened in the order of their numbers, every one and no
/// other.
pub proof fn tables_are_opened_by_number(live: Seq<MetaView>, m: MetaView)
    ensures
        ({
            let r = arranged(live, table_rank());
            &&& r.len() == live.len()
            &&& r.contains(m) <==> live.contains(m)
            &&& forall|i: int, j: int|
                0 <= i < j < r.len() ==> (#[trigger] r[i]).id <= (#[trigger] r[j]).id
        }),
{
    let k = table_rank();
    let r = arranged(live, k);
    arranging_sorts(live, k);
    r.to_multiset_ensures();
    live.to_multiset_ensures();
    assert(r.contains(m) <==> r.to_multiset().count(m) > 0);
    assert(live.contains(m) <==> live.to_multiset().count(m) > 0);
    assert forall|i: int, j: int| 0 <= i < j < r.len() implies (#[trigger] r[i]).id <= (
    #[trigger] r[j]).id by {
        assert(k(r[i]) <= k(r[j]));
    }
}

} // verus!
