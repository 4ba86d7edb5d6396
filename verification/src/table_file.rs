//! Tables as files: one log record for each version, in order.

use vstd::prelude::*;
use crate::bytes::{append_bytes, copy_bytes};
use crate::entry::Entry;
use crate::errors::{EngineError, EngineResult};
use crate::keys::{EntryKind, InternalKey};
use crate::records::{sorted, versions, Version};
use crate::sstable::{record_size, table_size};
use crate::text::text_of;
use crate::wal::{
    ending, intact, op_version, op_views, replay_gives_whole_records, replay_segment_body, stream,
    wal_views, OpView, ReplayOutcome, WalCommand, WalEntry, WalOp, WalView,
};

verus! {

/// The operation that writes a version.
pub open spec fn version_op(v: Version) -> OpView {
    OpView {
        command: if v.1.value is None {
            WalCommand::Del
        } else {
            WalCommand::Put
        },
        expires_at: match v.1.expires_at {
            Some(n) => n,
            None => 0,
        },
        key: v.0.user_key,
        value: match v.1.value {
            Some(x) => x,
            None => Seq::empty(),
        },
    }
}

/// The record of a version.
pub open spec fn version_record(v: Version) -> WalView {
    WalView { seq: v.0.seq, ops: seq![version_op(v)] }
}

/// The records of a run.
pub open spec fn run_records(s: Seq<Version>) -> Seq<WalView> {
    Seq::new(s.len(), |i: int| version_record(s[i]))
}

/// A version that a write can have made, with lengths that fit their length fields.
pub open spec fn storable(v: Version) -> bool {
    op_version(version_op(v), v.0.seq) == v && version_op(v).fits() && version_record(v).fits()
}

/// The versions that records with one operation each write.
pub open spec fn versions_of(s: Seq<WalView>) -> Seq<Version> {
    Seq::new(s.len(), |i: int| op_version(s[i].ops[0], s[i].seq))
}

/// Every record has one operation.
pub open spec fn single(s: Seq<WalView>) -> bool {
    forall|i: int| 0 <= i < s.len() ==> (#[trigger] s[i]).ops.len() == 1
}

/// The run that a table's file holds, where it is whole.
pub open spec fn table_run(bytes: Seq<u8>) -> Option<Seq<Version>> {
    let s = intact(bytes);
    if ending(bytes) is Clean && single(s) && sorted(versions_of(s)) {
        Some(versions_of(s))
    } else {
        None
    }
}

/// A table's file gives back the run that was written to it.
pub proof fn table_file_round_trips(s: Seq<Version>)
    requires
        sorted(s),
        forall|i: int| 0 <= i < s.len() ==> storable(#[trigger] s[i]),
    ensures
        table_run(stream(run_records(s))) == Some(s),
{
    let r = run_records(s);
    let torn = WalView { seq: 0, ops: Seq::empty() };
    assert forall|i: int| 0 <= i < r.len() implies (#[trigger] r[i]).fits() by {
        assert(storable(s[i]));
    }
    crate::codec::be_bytes_len(0, 8);
    crate::codec::be_bytes_len(0, 4);
    crate::codec::be_bytes_len(torn.payload().len(), 8);
    crate::codec::be_bytes_len(crate::checksum::crc32(torn.payload()) as nat, 4);
    replay_gives_whole_records(r, torn, 0);
    assert(stream(r) + torn.encoded().take(0) =~= stream(r));
    assert(versions_of(r) =~= s) by {
        assert forall|i: int| 0 <= i < s.len() implies #[trigger] versions_of(r)[i] == s[i] by {
            assert(storable(s[i]));
            assert(r[i].ops[0] == version_op(s[i]));
        }
    }
}

/// The size in a table's catalog entry is the length of its file.
pub proof fn file_takes_table_size(s: Seq<Version>)
    requires
        stream(run_records(s)).len() <= u64::MAX,
    ensures
        table_size(s) == stream(run_records(s)).len(),
    decreases s.len(),
{
    let r = run_records(s);
    if s.len() > 0 {
        let front = run_records(s.drop_last());
        let last = version_record(s.last());
        assert(r =~= front + seq![last]);
        stream_of_two(front, seq![last]);
        assert(seq![last].skip(1) =~= Seq::<WalView>::empty());
        assert(stream(seq![last]) =~= last.encoded()) by {
            assert(stream(seq![last].skip(1)) =~= Seq::<u8>::empty());
        }
        record_takes_record_size(s.last());
        file_takes_table_size(s.drop_last());
    }
}

proof fn stream_of_two(a: Seq<WalView>, b: Seq<WalView>)
    ensures
        stream(a + b) == stream(a) + stream(b),
    decreases a.len(),
{
    if a.len() == 0 {
        assert(a + b =~= b);
        assert(stream(a) + stream(b) =~= stream(b));
    } else {
        stream_of_two(a.skip(1), b);
        assert((a + b).skip(1) =~= a.skip(1) + b);
        assert((a + b)[0] == a[0]);
        assert(stream(a) + stream(b) =~= a[0].encoded() + (stream(a.skip(1)) + stream(b)));
    }
}

proof fn record_takes_record_size(v: Version)
    ensures
        version_record(v).encoded().len() == record_size(v),
{
    let r = version_record(v);
    let op = version_op(v);
    crate::codec::be_bytes_len(r.seq as nat, 8);
    crate::codec::be_bytes_len(1, 4);
    crate::codec::be_bytes_len(op.expires_at as nat, 8);
    crate::codec::be_bytes_len(op.key.len(), 4);
    crate::codec::be_bytes_len(op.value.len(), 4);
    crate::codec::be_bytes_len(r.payload().len(), 8);
    crate::codec::be_bytes_len(crate::checksum::crc32(r.payload()) as nat, 4);
    assert(r.ops.skip(1) =~= Seq::<OpView>::empty());
    assert(r.ops[0] == op);
    reveal_with_fuel(crate::wal::ops_encoded, 2);
}

/// Whether every version can be written to a table's file.
pub fn can_store(pairs: &[(InternalKey, Entry)]) -> (r: bool)
    ensures
        r == (forall|i: int| 0 <= i < pairs@.len() ==> storable(#[trigger] versions(pairs@)[i])),
{
    let ghost s = versions(pairs@);
    let mut i: usize = 0;
    while i < pairs.len()
        invariant
            i <= pairs@.len(),
            s == versions(pairs@),
            forall|j: int| 0 <= j < i ==> storable(#[trigger] s[j]),
        decreases pairs.len() - i,
    {
        let k: &InternalKey = &pairs[i].0;
        let e: &Entry = &pairs[i].1;
        let ghost v = s[i as int];
        let ghost op = version_op(v);
        assert(v == (k@, e@));
        let len: usize = e.value_len();
        let tomb: bool = e.is_tombstone();
        let kind_fits: bool = match k.kind {
            EntryKind::Value => !tomb,
            EntryKind::Tombstone => tomb,
        };
        let expiry_fits: bool = match e.expires_at {
            Some(n) => n != 0 && !tomb,
            None => true,
        };
        let sizes_fit: bool = k.user_key.len() as u64 <= 0xffff_ffff && len as u64 <= 0xffff_ffff;
        proof {
            assert(op.key.len() == k.user_key@.len());
            assert(op.value.len() == len);
            let record = version_record(v);
            crate::codec::be_bytes_len(record.seq as nat, 8);
            crate::codec::be_bytes_len(1, 4);
            crate::codec::be_bytes_len(op.expires_at as nat, 8);
            crate::codec::be_bytes_len(op.key.len(), 4);
            crate::codec::be_bytes_len(op.value.len(), 4);
            assert(record.ops.skip(1) =~= Seq::<OpView>::empty());
            assert(record.ops[0] == op);
            reveal_with_fuel(crate::wal::ops_encoded, 2);
            assert(op.fits() ==> record.fits());
            let w = op_version(op, v.0.seq);
            if kind_fits && expiry_fits {
                assert(w.1.value == v.1.value);
                assert(w == v);
            }
        }
        if !(kind_fits && expiry_fits && sizes_fit) {
            assert(!storable(v));
            assert(!storable(s[i as int]));
            return false;
        }
        i = i + 1;
    }
    true
}

/// The bytes of a table's file.
pub fn table_bytes(pairs: &[(InternalKey, Entry)]) -> (b: Vec<u8>)
    requires
        forall|i: int| 0 <= i < pairs@.len() ==> storable(#[trigger] versions(pairs@)[i]),
    ensures
        b@ == stream(run_records(versions(pairs@))),
        b@.len() == table_size(versions(pairs@)),
{
    let ghost s = versions(pairs@);
    let ghost all = run_records(s);
    let mut b: Vec<u8> = Vec::new();
    let mut i: usize = 0;
    assert(all.skip(0) =~= all);
    assert(b@ + stream(all) =~= stream(all));
    while i < pairs.len()
        invariant
            i <= pairs@.len(),
            s == versions(pairs@),
            all == run_records(s),
            forall|j: int| 0 <= j < pairs@.len() ==> storable(#[trigger] s[j]),
            b@ + stream(all.skip(i as int)) == stream(all),
        decreases pairs.len() - i,
    {
        let k: &InternalKey = &pairs[i].0;
        let e: &Entry = &pairs[i].1;
        let ghost v = s[i as int];
        assert(v == (k@, e@));
        assert(storable(v));
        let (command, value): (WalCommand, Vec<u8>) = match &e.value {
            Some(x) => (WalCommand::Put, copy_bytes(x.as_slice())),
            None => (WalCommand::Del, Vec::new()),
        };
        let expires_at: u64 = match e.expires_at {
            Some(n) => n,
            None => 0,
        };
        let op = WalOp { command, expires_at, key: copy_bytes(k.user_key.as_slice()), value };
        assert(op@.value =~= version_op(v).value);
        assert(op@ == version_op(v));
        let mut ops: Vec<WalOp> = Vec::new();
        ops.push(op);
        let record = WalEntry { seq: k.seq, ops };
        assert(op_views(ops@) =~= seq![version_op(v)]);
        assert(record@ == version_record(v));
        let one: Vec<u8> = record.encode();
        proof {
            let rest = all.skip(i as int);
            assert(rest[0] == version_record(v));
            assert(rest.skip(1) =~= all.skip(i + 1));
            assert(b@ + (one@ + stream(all.skip(i + 1))) =~= b@ + one@ + stream(
                all.skip(i + 1),
            ));
        }
        append_bytes(&mut b, one.as_slice());
        i = i + 1;
    }
    assert(b@ + stream(all.skip(i as int)) =~= b@);
    proof {
        assert(b.len() <= u64::MAX);
        file_takes_table_size(s);
    }
    b
}

/// Reads a table's file.
pub fn read_table(bytes: &[u8]) -> (r: EngineResult<Vec<(InternalKey, Entry)>>)
    ensures
        match r {
            Ok(pairs) => table_run(bytes@) == Some(versions(pairs@)) && sorted(versions(pairs@)),
            Err(e) => table_run(bytes@) is None && (e matches EngineError::Io(m) && m@
                == "sstable: damaged file"@),
        },
{
    let ghost s = intact(bytes@);
    let (entries, outcome) = replay_segment_body(bytes);
    let clean: bool = match outcome {
        ReplayOutcome::Clean => true,
        _ => false,
    };
    if !clean {
        return Err(EngineError::Io(text_of("sstable: damaged file")));
    }
    let mut pairs: Vec<(InternalKey, Entry)> = Vec::new();
    let mut i: usize = 0;
    while i < entries.len()
        invariant
            i <= entries@.len(),
            s == intact(bytes@),
            wal_views(entries@) == s,
            ending(bytes@) is Clean,
            pairs@.len() == i,
            forall|j: int| 0 <= j < i ==> (#[trigger] s[j]).ops.len() == 1,
            forall|j: int|
                0 <= j < i ==> (#[trigger] pairs@[j]).0@ == versions_of(s)[j].0 && pairs@[j].1@
                    == versions_of(s)[j].1,
            sorted(versions(pairs@)),
        decreases entries.len() - i,
    {
        let e: &WalEntry = &entries[i];
        assert(s[i as int] == e@);
        if e.ops.len() != 1 {
            assert(!single(s));
            return Err(EngineError::Io(text_of("sstable: damaged file")));
        }
        assert(e@.ops[0] == e.ops@[0]@);
        let (key, entry) = e.ops[0].to_pair(e.seq);
        let ghost v = versions_of(s)[i as int];
        assert((key@, entry@) == v);
        let ghost was = versions(pairs@);
        if i > 0 && !pairs[i - 1].0.precedes(&key) {
            proof {
                assert(versions_of(s)[i - 1].0 == pairs@[i - 1].0@);
                if sorted(versions_of(s)) {
                    assert(versions_of(s)[i - 1].0.lt(versions_of(s)[i as int].0));
                }
            }
            return Err(EngineError::Io(text_of("sstable: damaged file")));
        }
        pairs.push((key, entry));
        proof {
            let now = versions(pairs@);
            assert(now =~= was.push(v));
            assert forall|a: int, b: int| 0 <= a < b < now.len() implies (#[trigger] now[a]).0.lt(
                (#[trigger] now[b]).0,
            ) by {
                if b == i {
                    if a < i - 1 {
                        assert(was[a].0.lt(was[i - 1].0));
                        crate::keys::key_lt_transitive(was[a].0, was[i - 1].0, v.0);
                    }
                } else {
                    assert(was[a].0.lt(was[b].0));
                }
            }
        }
        i = i + 1;
    }
    proof {
        assert(versions(pairs@) =~= versions_of(s));
    }
    Ok(pairs)
}

} // verus!
