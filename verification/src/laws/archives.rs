//! The archive of sealed segments: what it covers, and how it catches up with the log.

use vstd::prelude::*;
use crate::change_log::{
    archive_entry, archive_rank, archived_segment, changes_after, earliest, has_segment, hex_pair,
    id_of_hex, latest, reconciled, with_segment, ArchiveView, CatalogView, ChangeQuery, ChangeView,
};
use crate::shipping::hex_digit;
use crate::stable_sort::{arranged, arranging_sorts, in_order, part};
use crate::text::decimal;
use crate::wal::{ending, intact, max_entry_seq, ReplayOutcome, SegmentView};

verus! {

/// An archive reaches from the smallest of its segments' smallest numbers to the largest of
/// their largest; an empty one reaches nowhere.
pub proof fn an_archive_spans_its_segments(s: Seq<ArchiveView>)
    ensures
        earliest(s) is Some <==> s.len() > 0,
        latest(s) is Some <==> s.len() > 0,
        forall|i: int|
            0 <= i < s.len() ==> earliest(s)->0 <= (#[trigger] s[i]).min_seq && s[i].max_seq
                <= latest(s)->0,
        s.len() > 0 ==> exists|i: int|
            0 <= i < s.len() && (#[trigger] s[i]).min_seq == earliest(s)->0,
        s.len() > 0 ==> exists|i: int|
            0 <= i < s.len() && (#[trigger] s[i]).max_seq == latest(s)->0,
    decreases s.len(),
{
    if s.len() > 0 {
        let init = s.drop_last();
        let k = s.len() - 1;
        an_archive_spans_its_segments(init);
        assert forall|i: int| 0 <= i < s.len() implies earliest(s)->0 <= (#[trigger] s[i]).min_seq
            && s[i].max_seq <= latest(s)->0 by {
            if i < k {
                assert(init[i] == s[i]);
            }
        }
        assert(s[k] == s.last());
        if init.len() > 0 {
            let i = choose|i: int|
                0 <= i < init.len() && (#[trigger] init[i]).min_seq == earliest(init)->0;
            assert(s[i] == init[i]);
            let j = choose|j: int|
                0 <= j < init.len() && (#[trigger] init[j]).max_seq == latest(init)->0;
            assert(s[j] == init[j]);
        }
    }
}

/// Sixteen bytes are read from exactly 32 hexadecimal digits, two to a byte, the upper half
/// first. A plus sign in the place of an upper half stands for zero.
pub proof fn ids_are_read_from_two_digits_a_byte(s: Seq<char>)
    ensures
        id_of_hex(s) is Some <==> s.len() == 32 && forall|i: int|
            0 <= i < 16 ==> (#[trigger] s[2 * i] == '+' || hex_digit(s[2 * i]) is Some) && hex_digit(
                s[2 * i + 1],
            ) is Some,
        id_of_hex(s) matches Some(id) ==> id.len() == 16 && forall|i: int|
            0 <= i < 16 ==> #[trigger] id[i] == 16 * (if s[2 * i] == '+' {
                0
            } else {
                hex_digit(s[2 * i])->0
            }) + hex_digit(s[2 * i + 1])->0,
{
    assert forall|i: int| 0 <= i < 16 implies ((#[trigger] hex_pair(s[2 * i], s[2 * i + 1])) is Some
        <==> (s[2 * i] == '+' || hex_digit(s[2 * i]) is Some) && hex_digit(s[2 * i + 1]) is Some) by {
    }
    if s.len() == 32 && forall|i: int|
        0 <= i < 16 ==> (#[trigger] s[2 * i] == '+' || hex_digit(s[2 * i]) is Some) && hex_digit(
            s[2 * i + 1],
        ) is Some {
        assert forall|i: int| 0 <= i < 16 implies (#[trigger] hex_pair(
            s[2 * i],
            s[2 * i + 1],
        )) is Some by {
            assert(s[2 * i] == '+' || hex_digit(s[2 * i]) is Some);
        }
    }
    if id_of_hex(s) is Some {
        assert forall|i: int| 0 <= i < 16 implies (#[trigger] s[2 * i] == '+' || hex_digit(
            s[2 * i],
        ) is Some) && hex_digit(s[2 * i + 1]) is Some by {
            assert(hex_pair(s[2 * i], s[2 * i + 1]) is Some);
        }
        let id = id_of_hex(s)->0;
        assert forall|i: int| 0 <= i < 16 implies #[trigger] id[i] == 16 * (if s[2 * i] == '+' {
            0
        } else {
            hex_digit(s[2 * i])->0
        }) + hex_digit(s[2 * i + 1])->0 by {
            assert(hex_pair(s[2 * i], s[2 * i + 1]) is Some);
            digit_is_small(s[2 * i]);
            digit_is_small(s[2 * i + 1]);
        }
    }
}

proof fn digit_is_small(c: char)
    ensures
        hex_digit(c) matches Some(d) ==> d < 16,
{
}

/// A reader that goes on from a place gets what comes after it: the changes of later
/// records, and of the same record those with a larger ordinal.
pub proof fn readers_go_on_after_their_place(s: Seq<ChangeView>, q: ChangeQuery)
    ensures
        changes_after(s, q) == s.filter(
            |c: ChangeView|
                c.seq > q.after_seq || (c.seq == q.after_seq && c.op_ordinal > q.after_ord),
        ),
    decreases s.len(),
{
    let keep = |c: ChangeView| q.is_after(c.seq, c.op_ordinal);
    let want = |c: ChangeView|
        c.seq > q.after_seq || (c.seq == q.after_seq && c.op_ordinal > q.after_ord);
    part_is_filter(s, keep, want);
}

proof fn part_is_filter(
    s: Seq<ChangeView>,
    p: spec_fn(ChangeView) -> bool,
    q: spec_fn(ChangeView) -> bool,
)
    requires
        forall|c: ChangeView| #[trigger] p(c) == q(c),
    ensures
        part(s, p) == s.filter(q),
    decreases s.len(),
{
    reveal(Seq::filter);
    if s.len() > 0 {
        part_is_filter(s.drop_last(), p, q);
    }
}

/// An archived file is read as a segment of its number: after nine bytes of header, of
/// which the last is the format, 2, come the records. A shorter file is torn, another
/// format is refused.
pub proof fn archived_files_are_segments(id: u64, buf: Seq<u8>)
    ensures
        archived_segment(id, buf) is Err <==> buf.len() >= 9 && buf[8] != 2,
        archived_segment(id, buf) matches Err(m) ==> m
            == "change_log: unsupported WAL format version "@ + decimal(buf[8] as nat),
        archived_segment(id, buf) matches Ok(s) ==> {
            &&& s.id == id
            &&& buf.len() < 9 ==> s.entries.len() == 0 && s.outcome == ReplayOutcome::TornTail
            &&& buf.len() >= 9 ==> s.entries == intact(buf.skip(9)) && s.outcome == ending(
                buf.skip(9),
            )
        },
{
}

/// The archive has a segment of the number.
pub open spec fn archived(s: Seq<ArchiveView>, id: u64) -> bool {
    exists|x: ArchiveView| #[trigger] s.contains(x) && x.segment_id == id
}

/// The segment is sealed and the archive lacks it.
pub open spec fn is_missing(c: CatalogView, g: SegmentView, active: Option<u64>) -> bool {
    active != Some(g.id) && !archived(c.segments, g.id)
}

/// What the archive records of the segment.
pub open spec fn records_segment(x: ArchiveView, g: SegmentView, size: u64, now_ms: u64) -> bool {
    &&& x.segment_id == g.id
    &&& x == archive_entry(g.id, max_entry_seq(g.entries), g.entries, size, now_ms)
}

proof fn same_segments(s: Seq<ArchiveView>, id: u64)
    ensures
        has_segment(s, id) <==> archived(s, id),
{
    if has_segment(s, id) {
        let i = choose|i: int| 0 <= i < s.len() && (#[trigger] s[i]).segment_id == id;
        assert(s.contains(s[i]));
    }
    if archived(s, id) {
        let x = choose|x: ArchiveView| #[trigger] s.contains(x) && x.segment_id == id;
        let i = choose|i: int| 0 <= i < s.len() && s[i] == x;
        assert(s[i].segment_id == id);
    }
}

proof fn a_segment_more(c: CatalogView, x: ArchiveView)
    ensures
        forall|y: ArchiveView| #[trigger]
            with_segment(c, x).segments.contains(y) <==> c.segments.contains(y) || y == x,
        in_order(with_segment(c, x).segments, archive_rank()),
        with_segment(c, x).segments.len() == c.segments.len() + 1,
        with_segment(c, x).database_id_hex == c.database_id_hex,
{
    let p = c.segments.push(x);
    let a = arranged(p, archive_rank());
    arranging_sorts(p, archive_rank());
    a.to_multiset_ensures();
    p.to_multiset_ensures();
    assert forall|y: ArchiveView| #[trigger] a.contains(y) <==> c.segments.contains(y) || y
        == x by {
        assert(a.contains(y) <==> a.to_multiset().count(y) > 0);
        assert(p.contains(y) <==> p.to_multiset().count(y) > 0);
        if c.segments.contains(y) {
            let i = choose|i: int| 0 <= i < c.segments.len() && c.segments[i] == y;
            assert(p[i] == y);
        }
        if y == x {
            assert(p[c.segments.len() as int] == x);
        }
    }
}

proof fn caught_up_so_far(
    c: CatalogView,
    segs: Seq<SegmentView>,
    sizes: Seq<u64>,
    active: Option<u64>,
    now_ms: u64,
    n: int,
)
    requires
        0 <= n <= segs.len(),
    ensures
        match reconciled(c, segs, sizes, active, now_ms, n) {
            Ok(d) => {
                &&& forall|x: ArchiveView| c.segments.contains(x) ==> #[trigger] d.segments.contains(x)
                &&& forall|k: int|
                    0 <= k < n && active != Some((#[trigger] segs[k]).id) ==> archived(
                        d.segments,
                        segs[k].id,
                    )
                &&& forall|x: ArchiveView| #[trigger]
                    d.segments.contains(x) ==> c.segments.contains(x) || exists|k: int|
                        {
                            &&& 0 <= k < n
                            &&& is_missing(c, segs[k], active)
                            &&& segs[k].outcome is Clean
                            &&& #[trigger] records_segment(x, segs[k], sizes[k], now_ms)
                        }
                &&& in_order(c.segments, archive_rank()) ==> in_order(d.segments, archive_rank())
                &&& d.database_id_hex == c.database_id_hex
            },
            Err(m) => exists|k: int|
                {
                    &&& 0 <= k < n
                    &&& is_missing(c, #[trigger] segs[k], active)
                    &&& segs[k].outcome is Corruption && m == "change_log: sealed WAL segment "@
                        + decimal(segs[k].id as nat) + " is corrupted"@ || segs[k].outcome is TornTail
                        && m == "change_log: refusing to archive damaged segment "@ + decimal(
                        segs[k].id as nat,
                    )
                },
        },
    decreases n,
{
    if n > 0 {
        caught_up_so_far(c, segs, sizes, active, now_ms, n - 1);
        if let Ok(d) = reconciled(c, segs, sizes, active, now_ms, n - 1) {
            let g = segs[n - 1];
            same_segments(d.segments, g.id);
            if active != Some(g.id) && !has_segment(d.segments, g.id) {
                assert(is_missing(c, g, active)) by {
                    if archived(c.segments, g.id) {
                        let x = choose|x: ArchiveView| #[trigger]
                            c.segments.contains(x) && x.segment_id == g.id;
                        assert(d.segments.contains(x));
                    }
                }
                let x = archive_entry(
                    g.id,
                    max_entry_seq(g.entries),
                    g.entries,
                    sizes[n - 1],
                    now_ms,
                );
                if g.outcome is Clean {
                    a_segment_more(d, x);
                    let e = with_segment(d, x);
                    assert(reconciled(c, segs, sizes, active, now_ms, n) == Ok::<
                        CatalogView,
                        Seq<char>,
                    >(e));
                    assert(records_segment(x, segs[n - 1], sizes[n - 1], now_ms));
                    assert forall|k: int|
                        0 <= k < n && active != Some((#[trigger] segs[k]).id) implies archived(
                        e.segments,
                        segs[k].id,
                    ) by {
                        if k < n - 1 {
                            let y = choose|y: ArchiveView| #[trigger]
                                d.segments.contains(y) && y.segment_id == segs[k].id;
                            assert(e.segments.contains(y));
                        } else {
                            assert(e.segments.contains(x));
                        }
                    }
                } else {
                    assert(is_missing(c, segs[n - 1], active));
                }
            }
        }
    }
}

/// Catching up archives every sealed segment that the archive lacks, with what it holds,
/// its size and the time; what was archived stays, the segments stay in the order of their
/// numbers, and the active segment is left alone. It fails exactly on a lacking segment that
/// is damaged.
pub proof fn the_archive_catches_up(
    c: CatalogView,
    segs: Seq<SegmentView>,
    sizes: Seq<u64>,
    active: Option<u64>,
    now_ms: u64,
)
    ensures
        match reconciled(c, segs, sizes, active, now_ms, segs.len() as int) {
            Ok(d) => {
                &&& forall|x: ArchiveView| c.segments.contains(x) ==> #[trigger] d.segments.contains(x)
                &&& forall|k: int|
                    0 <= k < segs.len() && active != Some((#[trigger] segs[k]).id) ==> archived(
                        d.segments,
                        segs[k].id,
                    )
                &&& forall|x: ArchiveView| #[trigger]
                    d.segments.contains(x) ==> c.segments.contains(x) || exists|k: int|
                        {
                            &&& 0 <= k < segs.len()
                            &&& is_missing(c, segs[k], active)
                            &&& segs[k].outcome is Clean
                            &&& #[trigger] records_segment(x, segs[k], sizes[k], now_ms)
                        }
                &&& (forall|i: int, j: int|
                    0 <= i < j < c.segments.len() ==> (#[trigger] c.segments[i]).segment_id <= (
                    #[trigger] c.segments[j]).segment_id) ==> forall|i: int, j: int|
                    0 <= i < j < d.segments.len() ==> (#[trigger] d.segments[i]).segment_id <= (
                    #[trigger] d.segments[j]).segment_id
                &&& d.database_id_hex == c.database_id_hex
            },
            Err(m) => exists|k: int|
                {
                    &&& 0 <= k < segs.len()
                    &&& is_missing(c, #[trigger] segs[k], active)
                    &&& segs[k].outcome is Corruption && m == "change_log: sealed WAL segment "@
                        + decimal(segs[k].id as nat) + " is corrupted"@ || segs[k].outcome is TornTail
                        && m == "change_log: refusing to archive damaged segment "@ + decimal(
                        segs[k].id as nat,
                    )
                },
        },
{
    caught_up_so_far(c, segs, sizes, active, now_ms, segs.len() as int);
    if let Ok(d) = reconciled(c, segs, sizes, active, now_ms, segs.len() as int) {
        let r = archive_rank();
        if forall|i: int, j: int|
            0 <= i < j < c.segments.len() ==> (#[trigger] c.segments[i]).segment_id <= (
            #[trigger] c.segments[j]).segment_id {
            assert(in_order(c.segments, r));
            assert forall|i: int, j: int| 0 <= i < j < d.segments.len() implies (
            #[trigger] d.segments[i]).segment_id <= (#[trigger] d.segments[j]).segment_id by {
                assert(r(d.segments[i]) <= r(d.segments[j]));
            }
        }
    }
}

} // verus!
