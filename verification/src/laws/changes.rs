//! The change stream and the archive that it is read from.

use vstd::prelude::*;
use crate::change_log::{
    archive_entry, archived_bytes, change_rank, changes_tell_of_operations, over_time, retained,
    tells_of, ArchiveView, ChangeQuery, ChangeView, LogicalChangeKind,
};
use crate::codec::be_value;
use crate::stable_sort::{arranged, arranging_sorts};
use crate::wal::{ReplayOutcome, SegmentView, WalCommand, WalView};

verus! {

/// The key of a document: the tenant's prefix, the letter that stands for documents, the
/// collection in four bytes, the most significant first, and the document's own key.
pub open spec fn document_key(key: Seq<u8>, prefix: Seq<u8>, collection: u32, doc: Seq<u8>) -> bool {
    let n = prefix.len() as int;
    &&& key.len() == n + 5 + doc.len()
    &&& forall|i: int| 0 <= i < n ==> #[trigger] key[i] == prefix[i]
    &&& key[n] == 0x64
    &&& key[n + 1] * 0x100_0000 + key[n + 2] * 0x1_0000 + key[n + 3] * 0x100 + key[n + 4]
        == collection
    &&& forall|i: int| 0 <= i < doc.len() ==> #[trigger] key[n + 5 + i] == doc[i]
}

/// The change tells of operation `i` of a record: under the record's number and the
/// operation's place, a put brings the value that was put, and a deletion brings nothing.
pub open spec fn tells(c: ChangeView, e: WalView, i: int, prefix: Seq<u8>, collection: u32) -> bool {
    &&& 0 <= i < e.ops.len()
    &&& c.seq == e.seq
    &&& c.op_ordinal == i
    &&& c.collection_id == collection
    &&& document_key(e.ops[i].key, prefix, collection, c.doc_id)
    &&& match e.ops[i].command {
        WalCommand::Put => c.kind == LogicalChangeKind::Upsert && c.stored_value == e.ops[i].value,
        WalCommand::Del => c.kind == LogicalChangeKind::Delete && c.stored_value.len() == 0,
    }
}

/// An operation comes after a position in the stream.
pub open spec fn comes_after(seq: u64, ordinal: int, after_seq: u64, after_ord: u32) -> bool {
    seq > after_seq || (seq == after_seq && ordinal > after_ord)
}

/// The record stands in one of the archived segments or in the live one.
pub open spec fn in_log(read: Seq<SegmentView>, live: Seq<WalView>, e: WalView) -> bool {
    live.contains(e) || exists|k: int| 0 <= k < read.len() && (#[trigger] read[k]).entries.contains(e)
}

/// The operations of each record can be counted in 32 bits.
pub open spec fn countable(es: Seq<WalView>) -> bool {
    forall|k: int| 0 <= k < es.len() ==> (#[trigger] es[k]).ops.len() <= 0x1_0000_0000
}

proof fn four_bytes(b: Seq<u8>)
    requires
        b.len() == 4,
    ensures
        be_value(b) == b[0] * 0x100_0000 + b[1] * 0x1_0000 + b[2] * 0x100 + b[3],
{
    let c = b.drop_last();
    let d = c.drop_last();
    let f = d.drop_last();
    let g = f.drop_last();
    assert(g.len() == 0);
    assert(be_value(g) == 0);
    assert(be_value(f) == b[0]);
    assert(be_value(d) == b[0] * 0x100 + b[1]);
    assert(be_value(c) == b[0] * 0x1_0000 + b[1] * 0x100 + b[2]);
}

proof fn one_change(q: ChangeQuery, e: WalView, i: int, c: ChangeView)
    requires
        0 <= i < e.ops.len() <= 0x1_0000_0000,
    ensures
        q.change(e.ops[i], e.seq, i as u32) == Some(c) <==> tells(
            c,
            e,
            i,
            q.tenant_prefix,
            q.collection_id,
        ) && comes_after(e.seq, i, q.after_seq, q.after_ord),
{
    let key = e.ops[i].key;
    let n = q.tenant_prefix.len() as int;
    let doc = key.skip(n + 5);
    if key.len() >= n + 5 {
        four_bytes(key.subrange(n + 1, n + 5));
    }
    if q.change(e.ops[i], e.seq, i as u32) == Some(c) {
        assert(c.doc_id == doc);
        assert forall|j: int| 0 <= j < n implies #[trigger] key[j] == q.tenant_prefix[j] by {
            assert(key.take(n)[j] == key[j]);
        }
        assert forall|j: int| 0 <= j < doc.len() implies #[trigger] key[n + 5 + j] == doc[j] by {}
    }
    if tells(c, e, i, q.tenant_prefix, q.collection_id) {
        assert(key.take(n) =~= q.tenant_prefix);
        assert forall|j: int| 0 <= j < doc.len() implies doc[j] == c.doc_id[j] by {
            assert(key[n + 5 + j] == c.doc_id[j]);
        }
        assert(doc =~= c.doc_id);
        assert(c.stored_value =~= match e.ops[i].command {
            WalCommand::Put => e.ops[i].value,
            WalCommand::Del => Seq::empty(),
        });
    }
}

proof fn told_of_records(q: ChangeQuery, es: Seq<WalView>, c: ChangeView)
    requires
        countable(es),
    ensures
        q.of_entries(es, es.len() as int).contains(c) <==> exists|e: WalView, i: int|
            #![trigger e.ops[i]]
            es.contains(e) && tells(c, e, i, q.tenant_prefix, q.collection_id) && comes_after(
                e.seq,
                i,
                q.after_seq,
                q.after_ord,
            ),
{
    changes_tell_of_operations(q, es, c);
    if tells_of(q, es, c) {
        let (k, i) = choose|k: int, i: int|
            #![trigger es[k].ops[i]]
            0 <= k < es.len() && 0 <= i < es[k].ops.len() && q.change(
                es[k].ops[i],
                es[k].seq,
                i as u32,
            ) == Some(c);
        one_change(q, es[k], i, c);
        assert(es.contains(es[k]));
    }
    if exists|e: WalView, i: int|
        #![trigger e.ops[i]]
        es.contains(e) && tells(c, e, i, q.tenant_prefix, q.collection_id) && comes_after(
            e.seq,
            i,
            q.after_seq,
            q.after_ord,
        ) {
        let (e, i) = choose|e: WalView, i: int|
            #![trigger e.ops[i]]
            es.contains(e) && tells(c, e, i, q.tenant_prefix, q.collection_id) && comes_after(
                e.seq,
                i,
                q.after_seq,
                q.after_ord,
            );
        let k = choose|k: int| 0 <= k < es.len() && es[k] == e;
        one_change(q, es[k], i, c);
        assert(q.change(es[k].ops[i], es[k].seq, i as u32) == Some(c));
    }
}

/// The record stands in one of the first `n` archived segments that can hold anything after
/// the position.
spec fn in_reach(
    recorded: Seq<ArchiveView>,
    read: Seq<SegmentView>,
    after_seq: u64,
    n: int,
    e: WalView,
) -> bool {
    exists|k: int|
        0 <= k < n && recorded[k].max_seq >= after_seq && (#[trigger] read[k]).entries.contains(e)
}

proof fn told_of_segments(
    q: ChangeQuery,
    recorded: Seq<ArchiveView>,
    read: Seq<SegmentView>,
    n: int,
    c: ChangeView,
)
    requires
        0 <= n <= recorded.len() == read.len(),
        forall|k: int| 0 <= k < read.len() ==> countable((#[trigger] read[k]).entries),
        q.of_segments(recorded, read, n) is Ok,
    ensures
        q.of_segments(recorded, read, n)->Ok_0.contains(c) <==> exists|e: WalView, i: int|
            #![trigger e.ops[i]]
            in_reach(recorded, read, q.after_seq, n, e) && tells(
                c,
                e,
                i,
                q.tenant_prefix,
                q.collection_id,
            ) && comes_after(e.seq, i, q.after_seq, q.after_ord),
    decreases n,
{
    let out = q.of_segments(recorded, read, n)->Ok_0;
    if n > 0 {
        told_of_segments(q, recorded, read, n - 1, c);
        let a = q.of_segments(recorded, read, n - 1)->Ok_0;
        let es = read[n - 1].entries;
        let b = q.of_entries(es, es.len() as int);
        told_of_records(q, es, c);
        if recorded[n - 1].max_seq >= q.after_seq {
            assert(out == a + b);
            assert(out.contains(c) <==> a.contains(c) || b.contains(c)) by {
                if a.contains(c) {
                    let j = choose|j: int| 0 <= j < a.len() && a[j] == c;
                    assert(out[j] == c);
                }
                if b.contains(c) {
                    let j = choose|j: int| 0 <= j < b.len() && b[j] == c;
                    assert(out[a.len() + j] == c);
                }
                if out.contains(c) {
                    let j = choose|j: int| 0 <= j < out.len() && out[j] == c;
                    if j < a.len() {
                        assert(a[j] == c);
                    } else {
                        assert(b[j - a.len()] == c);
                    }
                }
            }
        }
        assert forall|e: WalView|
            in_reach(recorded, read, q.after_seq, n - 1, e) || (recorded[n - 1].max_seq
                >= q.after_seq && es.contains(e)) <==> #[trigger] in_reach(
            recorded,
            read,
            q.after_seq,
            n,
            e,
        ) by {
            if in_reach(recorded, read, q.after_seq, n - 1, e) {
                let k = choose|k: int|
                    0 <= k < n - 1 && recorded[k].max_seq >= q.after_seq && (
                    #[trigger] read[k]).entries.contains(e);
                assert(read[k].entries.contains(e));
            }
            if recorded[n - 1].max_seq >= q.after_seq && es.contains(e) {
                assert(read[n - 1].entries.contains(e));
            }
        }
        if out.contains(c) {
            if a.contains(c) {
                let (e, i) = choose|e: WalView, i: int|
                    #![trigger e.ops[i]]
                    in_reach(recorded, read, q.after_seq, n - 1, e) && tells(
                        c,
                        e,
                        i,
                        q.tenant_prefix,
                        q.collection_id,
                    ) && comes_after(e.seq, i, q.after_seq, q.after_ord);
                assert(in_reach(recorded, read, q.after_seq, n, e));
                let o = e.ops[i];
            } else {
                let (e, i) = choose|e: WalView, i: int|
                    #![trigger e.ops[i]]
                    es.contains(e) && tells(c, e, i, q.tenant_prefix, q.collection_id)
                        && comes_after(e.seq, i, q.after_seq, q.after_ord);
                assert(in_reach(recorded, read, q.after_seq, n, e));
                let o = e.ops[i];
            }
        }
    }
}

proof fn damage_stops_the_stream(
    q: ChangeQuery,
    recorded: Seq<ArchiveView>,
    read: Seq<SegmentView>,
    n: int,
)
    requires
        0 <= n <= recorded.len() == read.len(),
    ensures
        match q.of_segments(recorded, read, n) {
            Ok(_) => forall|k: int|
                0 <= k < n && recorded[k].max_seq >= q.after_seq ==> (#[trigger] read[k]).outcome
                    != ReplayOutcome::Corruption,
            Err(id) => exists|k: int|
                {
                    &&& 0 <= k < n
                    &&& id == recorded[k].segment_id
                    &&& recorded[k].max_seq >= q.after_seq
                    &&& (#[trigger] read[k]).outcome == ReplayOutcome::Corruption
                    &&& forall|j: int|
                        0 <= j < k && recorded[j].max_seq >= q.after_seq ==> (
                        #[trigger] read[j]).outcome != ReplayOutcome::Corruption
                },
        },
    decreases n,
{
    if n > 0 {
        damage_stops_the_stream(q, recorded, read, n - 1);
        let last = read[n - 1].outcome;
    }
}

/// What a stream gives. A change tells of an operation of a record of the log after the
/// position, with the value that was put, and every such operation on a document of the
/// collection is told of. Changes come by ascending position. Only a damaged archived segment
/// that reaches the position stops the stream, and the first such segment is named.
pub proof fn the_stream_tells_what_was_written(
    q: ChangeQuery,
    recorded: Seq<ArchiveView>,
    read: Seq<SegmentView>,
    live: Seq<WalView>,
)
    requires
        read.len() == recorded.len(),
        countable(live),
        forall|k: int| 0 <= k < read.len() ==> countable((#[trigger] read[k]).entries),
        forall|k: int, e: WalView|
            #![trigger read[k].entries.contains(e)]
            0 <= k < read.len() && read[k].entries.contains(e) ==> e.seq <= recorded[k].max_seq,
    ensures
        match q.of_all(recorded, read, live) {
            Ok(raw) => {
                let out = arranged(raw, change_rank());
                &&& forall|c: ChangeView| #[trigger]
                    out.contains(c) <==> exists|e: WalView, i: int|
                        #![trigger e.ops[i]]
                        in_log(read, live, e) && tells(c, e, i, q.tenant_prefix, q.collection_id)
                            && comes_after(e.seq, i, q.after_seq, q.after_ord)
                &&& forall|a: int, b: int|
                    0 <= a < b < out.len() ==> (#[trigger] out[a]).seq < (#[trigger] out[b]).seq || (
                    out[a].seq == out[b].seq && out[a].op_ordinal <= out[b].op_ordinal)
                &&& forall|k: int|
                    0 <= k < read.len() && recorded[k].max_seq >= q.after_seq ==> (
                    #[trigger] read[k]).outcome != ReplayOutcome::Corruption
            },
            Err(id) => exists|k: int|
                {
                    &&& 0 <= k < read.len()
                    &&& id == recorded[k].segment_id
                    &&& recorded[k].max_seq >= q.after_seq
                    &&& (#[trigger] read[k]).outcome == ReplayOutcome::Corruption
                    &&& forall|j: int|
                        0 <= j < k && recorded[j].max_seq >= q.after_seq ==> (
                        #[trigger] read[j]).outcome != ReplayOutcome::Corruption
                },
        },
{
    let n = recorded.len() as int;
    damage_stops_the_stream(q, recorded, read, n);
    if let Ok(raw) = q.of_all(recorded, read, live) {
        let out = arranged(raw, change_rank());
        let a = q.of_segments(recorded, read, n)->Ok_0;
        let b = q.of_entries(live, live.len() as int);
        arranging_sorts(raw, change_rank());
        assert forall|c: ChangeView| #[trigger] out.contains(c) <==> exists|e: WalView, i: int|
            #![trigger e.ops[i]]
            in_log(read, live, e) && tells(c, e, i, q.tenant_prefix, q.collection_id)
                && comes_after(e.seq, i, q.after_seq, q.after_ord) by {
            same_items(raw, c);
            told_of_segments(q, recorded, read, n, c);
            told_of_records(q, live, c);
            assert(raw.contains(c) <==> a.contains(c) || b.contains(c)) by {
                if a.contains(c) {
                    let j = choose|j: int| 0 <= j < a.len() && a[j] == c;
                    assert(raw[j] == c);
                }
                if b.contains(c) {
                    let j = choose|j: int| 0 <= j < b.len() && b[j] == c;
                    assert(raw[a.len() + j] == c);
                }
                if raw.contains(c) {
                    let j = choose|j: int| 0 <= j < raw.len() && raw[j] == c;
                    if j < a.len() {
                        assert(a[j] == c);
                    } else {
                        assert(b[j - a.len()] == c);
                    }
                }
            }
            if a.contains(c) {
                let (e, i) = choose|e: WalView, i: int|
                    #![trigger e.ops[i]]
                    in_reach(recorded, read, q.after_seq, n, e) && tells(
                        c,
                        e,
                        i,
                        q.tenant_prefix,
                        q.collection_id,
                    ) && comes_after(e.seq, i, q.after_seq, q.after_ord);
                let k = choose|k: int|
                    0 <= k < n && recorded[k].max_seq >= q.after_seq && (
                    #[trigger] read[k]).entries.contains(e);
                assert(read[k].entries.contains(e));
                assert(in_log(read, live, e));
                let o = e.ops[i];
            }
            if b.contains(c) {
                let (e, i) = choose|e: WalView, i: int|
                    #![trigger e.ops[i]]
                    live.contains(e) && tells(c, e, i, q.tenant_prefix, q.collection_id)
                        && comes_after(e.seq, i, q.after_seq, q.after_ord);
                assert(in_log(read, live, e));
                let o = e.ops[i];
            }
            if exists|e: WalView, i: int|
                #![trigger e.ops[i]]
                in_log(read, live, e) && tells(c, e, i, q.tenant_prefix, q.collection_id)
                    && comes_after(e.seq, i, q.after_seq, q.after_ord) {
                let (e, i) = choose|e: WalView, i: int|
                    #![trigger e.ops[i]]
                    in_log(read, live, e) && tells(c, e, i, q.tenant_prefix, q.collection_id)
                        && comes_after(e.seq, i, q.after_seq, q.after_ord);
                let o = e.ops[i];
                if !live.contains(e) {
                    let k = choose|k: int|
                        0 <= k < read.len() && (#[trigger] read[k]).entries.contains(e);
                    assert(e.seq <= recorded[k].max_seq);
                    assert(in_reach(recorded, read, q.after_seq, n, e));
                }
            }
        }
        assert forall|x: int, y: int| 0 <= x < y < out.len() implies (#[trigger] out[x]).seq < (
        #[trigger] out[y]).seq || (out[x].seq == out[y].seq && out[x].op_ordinal
            <= out[y].op_ordinal) by {
            assert(change_rank()(out[x]) <= change_rank()(out[y]));
        }
    }
}

proof fn same_items(raw: Seq<ChangeView>, c: ChangeView)
    ensures
        arranged(raw, change_rank()).contains(c) <==> raw.contains(c),
{
    broadcast use vstd::seq_lib::group_to_multiset_ensures;

    let out = arranged(raw, change_rank());
    arranging_sorts(raw, change_rank());
    assert(out.to_multiset().count(c) == raw.to_multiset().count(c));
}

/// The record is repeated nowhere: numbers ascend strictly through the live segment.
pub open spec fn strictly_ascending(es: Seq<WalView>) -> bool {
    forall|a: int, b: int| 0 <= a < b < es.len() ==> (#[trigger] es[a]).seq < (#[trigger] es[b]).seq
}

proof fn ops_ascend(q: ChangeQuery, e: WalView, n: int)
    requires
        0 <= n <= e.ops.len() <= 0x1_0000_0000,
    ensures
        forall|a: int, b: int|
            0 <= a < b < q.of_ops(e, n).len() ==> (#[trigger] q.of_ops(e, n)[a]).op_ordinal < (
            #[trigger] q.of_ops(e, n)[b]).op_ordinal,
        forall|a: int|
            0 <= a < q.of_ops(e, n).len() ==> (#[trigger] q.of_ops(e, n)[a]).seq == e.seq && q.of_ops(
                e,
                n,
            )[a].op_ordinal < n,
    decreases n,
{
    if n > 0 {
        ops_ascend(q, e, n - 1);
    }
}

/// Of records in order each operation is told of once: positions ascend strictly.
pub proof fn no_change_is_told_twice(q: ChangeQuery, es: Seq<WalView>, n: int)
    requires
        0 <= n <= es.len(),
        countable(es),
        strictly_ascending(es),
    ensures
        ({
            let out = q.of_entries(es, n);
            &&& forall|a: int, b: int|
                0 <= a < b < out.len() ==> (#[trigger] out[a]).seq < (#[trigger] out[b]).seq || (
                out[a].seq == out[b].seq && out[a].op_ordinal < out[b].op_ordinal)
            &&& forall|a: int|
                0 <= a < out.len() ==> n > 0 && (#[trigger] out[a]).seq <= es[n - 1].seq
        }),
    decreases n,
{
    if n > 0 {
        no_change_is_told_twice(q, es, n - 1);
        let e = es[n - 1];
        ops_ascend(q, e, e.ops.len() as int);
        let x = q.of_entries(es, n - 1);
        let y = q.of_ops(e, e.ops.len() as int);
        let out = q.of_entries(es, n);
        assert forall|a: int, b: int| 0 <= a < b < out.len() implies (#[trigger] out[a]).seq < (
        #[trigger] out[b]).seq || (out[a].seq == out[b].seq && out[a].op_ordinal
            < out[b].op_ordinal) by {
            if b < x.len() {
                assert(out[a] == x[a] && out[b] == x[b]);
            } else if a < x.len() {
                assert(out[a] == x[a] && out[b] == y[b - x.len()]);
                assert(es[n - 2].seq < es[n - 1].seq);
            } else {
                assert(out[a] == y[a - x.len()] && out[b] == y[b - x.len()]);
            }
        }
        assert forall|a: int| 0 <= a < out.len() implies (#[trigger] out[a]).seq <= e.seq by {
            if a < x.len() {
                assert(out[a] == x[a]);
                assert(es[n - 2].seq < es[n - 1].seq);
            } else {
                assert(out[a] == y[a - x.len()]);
            }
        }
    }
}

/// The bytes of some archived segments, added up.
pub open spec fn total_size(s: Seq<ArchiveView>) -> int {
    s.fold_left(0int, |b: int, x: ArchiveView| b + x.size_bytes)
}

pub(crate) proof fn size_adds_up(s: Seq<ArchiveView>)
    ensures
        archived_bytes(s) == total_size(s),
    decreases s.len(),
{
    if s.len() > 0 {
        size_adds_up(s.drop_last());
    }
}

/// A segment has been sealed for longer than the archive is to keep one, in milliseconds.
pub open spec fn outlived(x: ArchiveView, retention_secs: u64, now_ms: u64) -> bool {
    retention_secs > 0 && now_ms > x.sealed_unix_ms + 1000 * retention_secs
}

/// What pruning does. It drops segments from the front alone. Each that is dropped was
/// older than the retention in milliseconds, or, with all that followed it, over the limit
/// on bytes with another one left. The first that stays is neither.
pub proof fn pruning_drops_what_is_too_old_or_too_much(
    s: Seq<ArchiveView>,
    retention_secs: u64,
    retention_bytes: u64,
    now_ms: u64,
)
    ensures
        ({
            let r = retained(s, retention_secs, retention_bytes, now_ms);
            let gone = s.len() - r.len();
            &&& 0 <= gone <= s.len()
            &&& r == s.skip(gone)
            &&& forall|i: int|
                0 <= i < gone ==> {
                    ||| outlived(#[trigger] s[i], retention_secs, now_ms)
                    ||| retention_bytes > 0 && total_size(s.skip(i)) > retention_bytes && i + 1
                        < s.len()
                }
            &&& r.len() > 0 ==> !outlived(r[0], retention_secs, now_ms)
            &&& r.len() > 1 && retention_bytes > 0 ==> total_size(r) <= retention_bytes
        }),
    decreases s.len(),
{
    let r = retained(s, retention_secs, retention_bytes, now_ms);
    size_adds_up(s);
    if s.len() == 0 {
        assert(s.skip(0) =~= s);
    } else {
        assert(over_time(s, retention_secs, now_ms) == outlived(s[0], retention_secs, now_ms));
        if over_time(s, retention_secs, now_ms) || (retention_bytes > 0 && archived_bytes(s)
            > retention_bytes && s.len() > 1) {
            let t = s.skip(1);
            pruning_drops_what_is_too_old_or_too_much(t, retention_secs, retention_bytes, now_ms);
            let gone = s.len() - r.len();
            assert(t.skip(gone - 1) =~= s.skip(gone));
            assert(s.skip(0) =~= s);
            assert forall|i: int| 0 <= i < gone implies {
                ||| outlived(#[trigger] s[i], retention_secs, now_ms)
                ||| retention_bytes > 0 && total_size(s.skip(i)) > retention_bytes && i + 1 < s.len()
            } by {
                if i > 0 {
                    assert(t[i - 1] == s[i]);
                    assert(t.skip(i - 1) =~= s.skip(i));
                }
            }
        } else {
            assert(s.skip(0) =~= s);
        }
    }
}

/// The entry of an archived segment: it names the segment and the time, and bounds the
/// numbers of its records, both bounds attained where it has any.
pub proof fn archive_entries_bound_their_records(
    id: u64,
    max_seq: u64,
    entries: Seq<WalView>,
    size_bytes: u64,
    now_ms: u64,
)
    ensures
        ({
            let x = archive_entry(id, max_seq, entries, size_bytes, now_ms);
            &&& x.segment_id == id
            &&& x.sealed_unix_ms == now_ms
            &&& x.size_bytes == size_bytes
            &&& x.max_seq >= max_seq
            &&& forall|i: int|
                0 <= i < entries.len() ==> x.min_seq <= (#[trigger] entries[i]).seq <= x.max_seq
            &&& entries.len() > 0 ==> exists|i: int|
                0 <= i < entries.len() && (#[trigger] entries[i]).seq == x.min_seq
            &&& entries.len() == 0 ==> x.min_seq == max_seq
            &&& x.max_seq == max_seq || exists|i: int|
                0 <= i < entries.len() && (#[trigger] entries[i]).seq == x.max_seq
        }),
    decreases entries.len(),
{
    if entries.len() > 0 {
        let init = entries.drop_last();
        archive_entries_bound_their_records(id, max_seq, init, size_bytes, now_ms);
        let x = archive_entry(id, max_seq, entries, size_bytes, now_ms);
        let y = archive_entry(id, max_seq, init, size_bytes, now_ms);
        assert forall|i: int| 0 <= i < entries.len() implies x.min_seq <= (
        #[trigger] entries[i]).seq <= x.max_seq by {
            if i < init.len() {
                assert(init[i] == entries[i]);
            }
        }
        assert(entries[entries.len() - 1] == entries.last());
        if init.len() > 0 {
            let i = choose|i: int| 0 <= i < init.len() && (#[trigger] init[i]).seq == y.min_seq;
            assert(entries[i] == init[i]);
        }
        if y.max_seq != max_seq {
            let i = choose|i: int| 0 <= i < init.len() && (#[trigger] init[i]).seq == y.max_seq;
            assert(entries[i] == init[i]);
        }
    }
}

} // verus!
