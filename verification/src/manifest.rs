//! The manifest: the append-only record of the engine's state.
//!
//! A record is one byte of type, four bytes of payload length, the payload, and
//! four bytes of CRC-32 over what precedes them.

use vstd::prelude::*;
use crate::bytes::{append_bytes, copy_bytes, copy_range};
use crate::checksum::{crc32, crc32_of};
use crate::codec::{
    be_bytes, be_bytes_len, be_limits, be_value, be_value_of_bytes, get_be, length_field, put_be,
    put_length,
};
use crate::errors::{EngineError, EngineResult};
use crate::text::{hex_byte, text_of, text_with_hex_byte};

verus! {

pub const REC_SSTABLE_ADD: u8 = 0x01;

pub const REC_SSTABLE_REMOVE: u8 = 0x02;

pub const REC_SEQ_CHECKPOINT: u8 = 0x03;

pub const REC_WAL_TRUNCATE: u8 = 0x04;

/// The catalog entry of a table.
#[derive(Debug, PartialEq, Eq)]
pub struct SstableMeta {
    pub id: u64,
    pub level: u8,
    pub min_key: Vec<u8>,
    pub max_key: Vec<u8>,
    pub min_seq: u64,
    pub max_seq: u64,
    pub size_bytes: u64,
}

/// What a catalog entry holds.
pub struct MetaView {
    pub id: u64,
    pub level: u8,
    pub min_key: Seq<u8>,
    pub max_key: Seq<u8>,
    pub min_seq: u64,
    pub max_seq: u64,
    pub size_bytes: u64,
}

impl View for SstableMeta {
    type V = MetaView;

    open spec fn view(&self) -> MetaView {
        MetaView {
            id: self.id,
            level: self.level,
            min_key: self.min_key@,
            max_key: self.max_key@,
            min_seq: self.min_seq,
            max_seq: self.max_seq,
            size_bytes: self.size_bytes,
        }
    }
}

impl Clone for SstableMeta {
    fn clone(&self) -> (m: Self)
        ensures
            m@ == self@,
    {
        SstableMeta {
            id: self.id,
            level: self.level,
            min_key: copy_bytes(self.min_key.as_slice()),
            max_key: copy_bytes(self.max_key.as_slice()),
            min_seq: self.min_seq,
            max_seq: self.max_seq,
            size_bytes: self.size_bytes,
        }
    }
}

/// What a sequence of catalog entries holds.
pub open spec fn meta_views(s: Seq<SstableMeta>) -> Seq<MetaView> {
    Seq::new(s.len(), |i: int| s[i]@)
}

#[derive(Debug, PartialEq, Eq)]
pub enum ManifestRecord {
    SstableAdd(SstableMeta),
    SstableRemove { id: u64 },
    SeqCheckpoint { last_durable_seq: u64 },
    WalTruncate { up_to_segment_id: u64 },
}

/// What a record holds.
pub enum RecordView {
    SstableAdd(MetaView),
    SstableRemove { id: u64 },
    SeqCheckpoint { last_durable_seq: u64 },
    WalTruncate { up_to_segment_id: u64 },
}

impl View for ManifestRecord {
    type V = RecordView;

    open spec fn view(&self) -> RecordView {
        match *self {
            ManifestRecord::SstableAdd(m) => RecordView::SstableAdd(m@),
            ManifestRecord::SstableRemove { id } => RecordView::SstableRemove { id },
            ManifestRecord::SeqCheckpoint { last_durable_seq } => RecordView::SeqCheckpoint {
                last_durable_seq,
            },
            ManifestRecord::WalTruncate { up_to_segment_id } => RecordView::WalTruncate {
                up_to_segment_id,
            },
        }
    }
}

impl RecordView {
    /// The type byte of a record.
    pub open spec fn code(self) -> u8 {
        match self {
            RecordView::SstableAdd(_) => REC_SSTABLE_ADD,
            RecordView::SstableRemove { .. } => REC_SSTABLE_REMOVE,
            RecordView::SeqCheckpoint { .. } => REC_SEQ_CHECKPOINT,
            RecordView::WalTruncate { .. } => REC_WAL_TRUNCATE,
        }
    }

    /// The payload of a record.
    pub open spec fn payload(self) -> Seq<u8> {
        match self {
            RecordView::SstableAdd(m) => be_bytes(m.id as nat, 8) + seq![m.level] + be_bytes(
                length_field(m.min_key.len()),
                4,
            ) + m.min_key + be_bytes(length_field(m.max_key.len()), 4) + m.max_key + be_bytes(
                m.min_seq as nat,
                8,
            ) + be_bytes(m.max_seq as nat, 8) + be_bytes(m.size_bytes as nat, 8),
            RecordView::SstableRemove { id } => be_bytes(id as nat, 8),
            RecordView::SeqCheckpoint { last_durable_seq } => be_bytes(last_durable_seq as nat, 8),
            RecordView::WalTruncate { up_to_segment_id } => be_bytes(up_to_segment_id as nat, 8),
        }
    }

    /// The record as it stands in the manifest.
    pub open spec fn encoded(self) -> Seq<u8> {
        framed(self.code(), self.payload())
    }

    /// The lengths in the record fit their length fields.
    pub open spec fn fits(self) -> bool {
        match self {
            RecordView::SstableAdd(m) => m.min_key.len() + m.max_key.len() + 41 <= u32::MAX,
            _ => true,
        }
    }
}

/// A payload with its type, length and checksum.
pub open spec fn framed(code: u8, payload: Seq<u8>) -> Seq<u8> {
    let body = seq![code] + be_bytes(length_field(payload.len()), 4) + payload;
    body + be_bytes(crc32(body) as nat, 4)
}

/// The catalog entry that a payload stands for, if it is long enough.
pub open spec fn meta_decoded(p: Seq<u8>) -> Option<MetaView> {
    let n1 = be_value(p.subrange(9, 13)) as int;
    let at2 = 13 + n1;
    let n2 = be_value(p.subrange(at2, at2 + 4)) as int;
    let at3 = at2 + 4 + n2;
    if p.len() < 13 || p.len() < at2 + 4 || p.len() < at3 + 24 {
        None
    } else {
        Some(
            MetaView {
                id: be_value(p.subrange(0, 8)) as u64,
                level: p[8],
                min_key: p.subrange(13, at2),
                max_key: p.subrange(at2 + 4, at3),
                min_seq: be_value(p.subrange(at3, at3 + 8)) as u64,
                max_seq: be_value(p.subrange(at3 + 8, at3 + 16)) as u64,
                size_bytes: be_value(p.subrange(at3 + 16, at3 + 24)) as u64,
            },
        )
    }
}

/// What the front of a manifest holds.
pub enum Front {
    /// A record, and the number of bytes it takes.
    Record(RecordView, nat),
    /// Too few bytes for a record.
    Short,
    /// A record whose checksum does not match.
    BadChecksum,
    /// A record whose payload is too short for its type.
    ShortPayload,
    /// A record of a type that this build does not know.
    Unknown(u8),
}

/// What the front of `buf` holds.
pub open spec fn front(buf: Seq<u8>) -> Front {
    let len = be_value(buf.subrange(1, 5)) as int;
    let p = buf.subrange(5, 5 + len);
    let n = (len + 9) as nat;
    let number = be_value(p.subrange(0, 8)) as u64;
    if buf.len() < 5 || buf.len() < n {
        Front::Short
    } else if be_value(buf.subrange(5 + len, 9 + len)) != crc32(buf.subrange(0, 5 + len)) {
        Front::BadChecksum
    } else if buf[0] == REC_SSTABLE_ADD {
        match meta_decoded(p) {
            Some(m) => Front::Record(RecordView::SstableAdd(m), n),
            None => Front::ShortPayload,
        }
    } else if buf[0] != REC_SSTABLE_REMOVE && buf[0] != REC_SEQ_CHECKPOINT && buf[0]
        != REC_WAL_TRUNCATE {
        Front::Unknown(buf[0])
    } else if p.len() < 8 {
        Front::ShortPayload
    } else if buf[0] == REC_SSTABLE_REMOVE {
        Front::Record(RecordView::SstableRemove { id: number }, n)
    } else if buf[0] == REC_SEQ_CHECKPOINT {
        Front::Record(RecordView::SeqCheckpoint { last_durable_seq: number }, n)
    } else {
        Front::Record(RecordView::WalTruncate { up_to_segment_id: number }, n)
    }
}

/// The error that `decode_one` gives for a front that it refuses.
pub open spec fn front_error(f: Front, e: EngineError) -> bool {
    match f {
        Front::BadChecksum => e matches EngineError::Io(m) && m@ == "manifest: CRC mismatch"@,
        Front::ShortPayload => e matches EngineError::Io(m) && m@
            == "manifest: short record payload"@,
        Front::Unknown(t) => e matches EngineError::UnsupportedFormat(m) && m@
            == "manifest: unknown record type 0x"@ + hex_byte(t),
        _ => false,
    }
}

proof fn framed_layout(code: u8, payload: Seq<u8>, rest: Seq<u8>)
    requires
        payload.len() <= u32::MAX,
    ensures
        ({
            let buf = framed(code, payload) + rest;
            let len = payload.len() as int;
            &&& framed(code, payload).len() == payload.len() + 9
            &&& buf[0] == code
            &&& be_value(buf.subrange(1, 5)) == len
            &&& buf.subrange(5, 5 + len) == payload
            &&& be_value(buf.subrange(5 + len, 9 + len)) == crc32(buf.subrange(0, 5 + len))
        }),
{
    let buf = framed(code, payload) + rest;
    let len = payload.len() as int;
    let body = seq![code] + be_bytes(length_field(payload.len()), 4) + payload;
    be_limits();
    be_bytes_len(length_field(payload.len()), 4);
    be_value_of_bytes(length_field(payload.len()), 4);
    be_bytes_len(crc32(body) as nat, 4);
    be_value_of_bytes(crc32(body) as nat, 4);
    assert(buf.subrange(1, 5) =~= be_bytes(length_field(payload.len()), 4));
    assert(buf.subrange(5, 5 + len) =~= payload);
    assert(buf.subrange(0, 5 + len) =~= body);
    assert(buf.subrange(5 + len, 9 + len) =~= be_bytes(crc32(body) as nat, 4));
}

proof fn meta_round_trips(m: MetaView)
    requires
        m.min_key.len() + m.max_key.len() + 41 <= u32::MAX,
    ensures
        meta_decoded(RecordView::SstableAdd(m).payload()) == Some(m),
        RecordView::SstableAdd(m).payload().len() == m.min_key.len() + m.max_key.len() + 41,
{
    let p = RecordView::SstableAdd(m).payload();
    let k1 = length_field(m.min_key.len());
    let k2 = length_field(m.max_key.len());
    be_limits();
    be_bytes_len(m.id as nat, 8);
    be_bytes_len(k1, 4);
    be_bytes_len(k2, 4);
    be_bytes_len(m.min_seq as nat, 8);
    be_bytes_len(m.max_seq as nat, 8);
    be_bytes_len(m.size_bytes as nat, 8);
    be_value_of_bytes(m.id as nat, 8);
    be_value_of_bytes(k1, 4);
    be_value_of_bytes(k2, 4);
    be_value_of_bytes(m.min_seq as nat, 8);
    be_value_of_bytes(m.max_seq as nat, 8);
    be_value_of_bytes(m.size_bytes as nat, 8);
    let at2 = 13 + k1 as int;
    let at3 = at2 + 4 + k2 as int;
    assert(p.subrange(0, 8) =~= be_bytes(m.id as nat, 8));
    assert(p.subrange(9, 13) =~= be_bytes(k1, 4));
    assert(p.subrange(13, at2) =~= m.min_key);
    assert(p.subrange(at2, at2 + 4) =~= be_bytes(k2, 4));
    assert(p.subrange(at2 + 4, at3) =~= m.max_key);
    assert(p.subrange(at3, at3 + 8) =~= be_bytes(m.min_seq as nat, 8));
    assert(p.subrange(at3 + 8, at3 + 16) =~= be_bytes(m.max_seq as nat, 8));
    assert(p.subrange(at3 + 16, at3 + 24) =~= be_bytes(m.size_bytes as nat, 8));
}

/// A record that was written is read back, whatever follows it.
pub proof fn record_round_trips(r: RecordView, rest: Seq<u8>)
    requires
        r.fits(),
    ensures
        front(r.encoded() + rest) == Front::Record(r, r.encoded().len()),
{
    let p = r.payload();
    be_limits();
    match r {
        RecordView::SstableAdd(m) => {
            meta_round_trips(m);
            framed_layout(r.code(), p, rest);
        },
        RecordView::SstableRemove { id } => {
            be_bytes_len(id as nat, 8);
            be_value_of_bytes(id as nat, 8);
            framed_layout(r.code(), p, rest);
            assert(p.subrange(0, 8) =~= p);
        },
        RecordView::SeqCheckpoint { last_durable_seq } => {
            be_bytes_len(last_durable_seq as nat, 8);
            be_value_of_bytes(last_durable_seq as nat, 8);
            framed_layout(r.code(), p, rest);
            assert(p.subrange(0, 8) =~= p);
        },
        RecordView::WalTruncate { up_to_segment_id } => {
            be_bytes_len(up_to_segment_id as nat, 8);
            be_value_of_bytes(up_to_segment_id as nat, 8);
            framed_layout(r.code(), p, rest);
            assert(p.subrange(0, 8) =~= p);
        },
    }
}

/// A proper prefix of a record is recognised as unfinished.
pub proof fn torn_record_is_short(r: RecordView, n: int)
    requires
        r.fits(),
        0 <= n < r.encoded().len(),
    ensures
        front(r.encoded().take(n)) == Front::Short,
{
    let whole = r.encoded();
    let torn = whole.take(n);
    record_round_trips(r, Seq::empty());
    assert(whole + Seq::<u8>::empty() =~= whole);
    if n >= 5 {
        assert(torn.subrange(1, 5) =~= whole.subrange(1, 5));
    }
}

/// The state that a manifest describes.
pub struct StateView {
    pub live: Seq<MetaView>,
    pub last_durable_seq: u64,
    pub wal_truncated_up_to: u64,
}

pub open spec fn larger(a: u64, b: u64) -> u64 {
    if a >= b {
        a
    } else {
        b
    }
}

/// The state without any record.
pub open spec fn blank() -> StateView {
    StateView { live: Seq::empty(), last_durable_seq: 0, wal_truncated_up_to: 0 }
}

/// The entries of `s` other than those with this id.
pub open spec fn without_id(s: Seq<MetaView>, id: u64) -> Seq<MetaView> {
    s.filter(|m: MetaView| m.id != id)
}

/// The state after one more record.
pub open spec fn applied(st: StateView, r: RecordView) -> StateView {
    match r {
        RecordView::SstableAdd(m) => StateView {
            live: st.live.push(m),
            last_durable_seq: larger(st.last_durable_seq, m.max_seq),
            ..st
        },
        RecordView::SstableRemove { id } => StateView { live: without_id(st.live, id), ..st },
        RecordView::SeqCheckpoint { last_durable_seq } => StateView {
            last_durable_seq: larger(st.last_durable_seq, last_durable_seq),
            ..st
        },
        RecordView::WalTruncate { up_to_segment_id } => StateView {
            wal_truncated_up_to: larger(st.wal_truncated_up_to, up_to_segment_id),
            ..st
        },
    }
}

/// The state after all records of `rs`.
pub open spec fn applied_all(st: StateView, rs: Seq<RecordView>) -> StateView
    decreases rs.len(),
{
    if rs.len() == 0 {
        st
    } else {
        applied_all(applied(st, rs[0]), rs.skip(1))
    }
}

/// The records of `rs` as they stand in a manifest.
pub open spec fn encoded_all(rs: Seq<RecordView>) -> Seq<u8>
    decreases rs.len(),
{
    if rs.len() == 0 {
        Seq::empty()
    } else {
        rs[0].encoded() + encoded_all(rs.skip(1))
    }
}

pub proof fn front_record_len(buf: Seq<u8>)
    ensures
        front(buf) matches Front::Record(_, n) ==> 9 <= n <= buf.len(),
{
}

/// The state that the records in `buf` lead to from `st`, or the type byte of
/// the first record of an unknown type.
pub open spec fn replayed(buf: Seq<u8>, st: StateView) -> Result<StateView, u8>
    decreases buf.len(),
{
    if buf.len() == 0 {
        Ok(st)
    } else {
        match front(buf) {
            Front::Record(r, n) => if 0 < n <= buf.len() {
                replayed(buf.skip(n as int), applied(st, r))
            } else {
                Ok(st)
            },
            Front::Unknown(t) => Err(t),
            _ => Ok(st),
        }
    }
}

/// Replaying written records applies them in order, and goes on with what
/// follows them.
pub proof fn replay_applies_records_in_order(rs: Seq<RecordView>, tail: Seq<u8>, st: StateView)
    requires
        forall|i: int| 0 <= i < rs.len() ==> (#[trigger] rs[i]).fits(),
    ensures
        replayed(encoded_all(rs) + tail, st) == replayed(tail, applied_all(st, rs)),
    decreases rs.len(),
{
    if rs.len() == 0 {
        assert(encoded_all(rs) + tail =~= tail);
    } else {
        let rest = encoded_all(rs.skip(1)) + tail;
        let buf = encoded_all(rs) + tail;
        assert(rs[0].fits());
        assert(buf =~= rs[0].encoded() + rest);
        record_round_trips(rs[0], rest);
        front_record_len(buf);
        assert(buf.skip(rs[0].encoded().len() as int) =~= rest);
        replay_applies_records_in_order(rs.skip(1), tail, applied(st, rs[0]));
    }
}

/// A record that was cut off at the end of the manifest is left out, and the
/// records before it all count.
pub proof fn replay_tolerates_a_torn_tail(rs: Seq<RecordView>, torn: RecordView, n: int, st: StateView)
    requires
        forall|i: int| 0 <= i < rs.len() ==> (#[trigger] rs[i]).fits(),
        torn.fits(),
        0 <= n < torn.encoded().len(),
    ensures
        replayed(encoded_all(rs) + torn.encoded().take(n), st) == Ok::<StateView, u8>(
            applied_all(st, rs),
        ),
{
    replay_applies_records_in_order(rs, torn.encoded().take(n), st);
    torn_record_is_short(torn, n);
}

/// How many of some written records are whole within the first `n` bytes.
pub open spec fn whole_records(rs: Seq<RecordView>, n: int) -> int
    decreases rs.len(),
{
    if rs.len() == 0 || n < rs[0].encoded().len() {
        0
    } else {
        1 + whole_records(rs.skip(1), n - rs[0].encoded().len())
    }
}

/// An append of records that was cut off anywhere leaves the records that are whole, and
/// what the manifest held before.
pub proof fn torn_append_leaves_whole_records(
    past: Seq<RecordView>,
    rs: Seq<RecordView>,
    n: int,
    st: StateView,
)
    requires
        forall|i: int| 0 <= i < past.len() ==> (#[trigger] past[i]).fits(),
        forall|i: int| 0 <= i < rs.len() ==> (#[trigger] rs[i]).fits(),
        0 <= n <= encoded_all(rs).len(),
    ensures
        0 <= whole_records(rs, n) <= rs.len(),
        replayed(encoded_all(past) + encoded_all(rs).take(n), st) == Ok::<StateView, u8>(
            applied_all(applied_all(st, past), rs.take(whole_records(rs, n))),
        ),
{
    replay_applies_records_in_order(past, encoded_all(rs).take(n), st);
    torn_records(rs, n, applied_all(st, past));
}

proof fn torn_records(rs: Seq<RecordView>, n: int, st: StateView)
    requires
        forall|i: int| 0 <= i < rs.len() ==> (#[trigger] rs[i]).fits(),
        0 <= n <= encoded_all(rs).len(),
    ensures
        0 <= whole_records(rs, n) <= rs.len(),
        replayed(encoded_all(rs).take(n), st) == Ok::<StateView, u8>(
            applied_all(st, rs.take(whole_records(rs, n))),
        ),
    decreases rs.len(),
{
    let k = whole_records(rs, n);
    if rs.len() == 0 {
        assert(encoded_all(rs).take(n) =~= Seq::<u8>::empty());
    } else if n < rs[0].encoded().len() {
        assert(encoded_all(rs).take(n) =~= rs[0].encoded().take(n));
        assert(rs.take(k) =~= Seq::<RecordView>::empty());
        assert(rs[0].fits());
        torn_record_is_short(rs[0], n);
    } else {
        let m = n - rs[0].encoded().len();
        let rest = rs.skip(1);
        assert forall|i: int| 0 <= i < rest.len() implies (#[trigger] rest[i]).fits() by {
            assert(rs[i + 1].fits());
        }
        torn_records(rest, m, applied(st, rs[0]));
        let one = seq![rs[0]];
        assert(one.skip(1) =~= Seq::<RecordView>::empty());
        assert(encoded_all(one) =~= rs[0].encoded()) by {
            assert(encoded_all(one.skip(1)) =~= Seq::<u8>::empty());
        }
        assert(encoded_all(rs).take(n) =~= encoded_all(one) + encoded_all(rest).take(m));
        replay_applies_records_in_order(one, encoded_all(rest).take(m), st);
        assert(applied_all(st, one) == applied(st, rs[0])) by {
            assert(applied_all(applied(st, one[0]), one.skip(1)) == applied(st, one[0]));
        }
        assert(rs.take(k).skip(1) =~= rest.take(k - 1));
        assert(rs.take(k)[0] == rs[0]);
    }
}

/// A record of an unknown type after written records is refused, never skipped.
pub proof fn replay_refuses_unknown_types(rs: Seq<RecordView>, tail: Seq<u8>, t: u8, st: StateView)
    requires
        forall|i: int| 0 <= i < rs.len() ==> (#[trigger] rs[i]).fits(),
        front(tail) == Front::Unknown(t),
    ensures
        replayed(encoded_all(rs) + tail, st) == Err::<StateView, u8>(t),
{
    replay_applies_records_in_order(rs, tail, st);
}

impl ManifestRecord {
    fn payload(&self) -> (p: Vec<u8>)
        ensures
            p@ == self@.payload(),
    {
        let mut p: Vec<u8> = Vec::new();
        match self {
            ManifestRecord::SstableAdd(m) => {
                put_be(&mut p, m.id, 8);
                p.push(m.level);
                put_length(&mut p, m.min_key.len());
                append_bytes(&mut p, m.min_key.as_slice());
                put_length(&mut p, m.max_key.len());
                append_bytes(&mut p, m.max_key.as_slice());
                put_be(&mut p, m.min_seq, 8);
                put_be(&mut p, m.max_seq, 8);
                put_be(&mut p, m.size_bytes, 8);
            },
            ManifestRecord::SstableRemove { id } => {
                put_be(&mut p, *id, 8);
            },
            ManifestRecord::SeqCheckpoint { last_durable_seq } => {
                put_be(&mut p, *last_durable_seq, 8);
            },
            ManifestRecord::WalTruncate { up_to_segment_id } => {
                put_be(&mut p, *up_to_segment_id, 8);
            },
        }
        assert(p@ =~= self@.payload());
        p
    }

    fn type_byte(&self) -> (b: u8)
        ensures
            b == self@.code(),
    {
        match self {
            ManifestRecord::SstableAdd(_) => REC_SSTABLE_ADD,
            ManifestRecord::SstableRemove { .. } => REC_SSTABLE_REMOVE,
            ManifestRecord::SeqCheckpoint { .. } => REC_SEQ_CHECKPOINT,
            ManifestRecord::WalTruncate { .. } => REC_WAL_TRUNCATE,
        }
    }

    /// The record as it stands in the manifest.
    pub fn encode(&self) -> (buf: Vec<u8>)
        ensures
            buf@ == self@.encoded(),
    {
        let payload: Vec<u8> = self.payload();
        let mut buf: Vec<u8> = Vec::new();
        buf.push(self.type_byte());
        put_length(&mut buf, payload.len());
        append_bytes(&mut buf, payload.as_slice());
        assert(buf@ =~= seq![self@.code()] + be_bytes(length_field(payload@.len()), 4) + payload@);
        let crc: u32 = crc32_of(buf.as_slice());
        put_be(&mut buf, crc as u64, 4);
        buf
    }

    /// Reads the record at the front of `buf`, with the number of bytes it
    /// takes. `None` where there are too few bytes for a record.
    pub fn decode_one(buf: &[u8]) -> (r: EngineResult<Option<(ManifestRecord, usize)>>)
        ensures
            match r {
                Ok(Some((rec, n))) => front(buf@) == Front::Record(rec@, n as nat),
                Ok(None) => front(buf@) == Front::Short,
                Err(e) => front_error(front(buf@), e),
            },
    {
        if buf.len() < 5 {
            return Ok(None);
        }
        proof {
            be_limits();
        }
        let rtype: u8 = buf[0];
        let len: u64 = get_be(buf, 1, 4);
        if (buf.len() as u64) < len + 9 {
            return Ok(None);
        }
        let body_end: usize = 5 + len as usize;
        let total: usize = body_end + 4;
        let stored: u64 = get_be(buf, body_end, 4);
        let head: &[u8] = vstd::slice::slice_subrange(buf, 0, body_end);
        if crc32_of(head) as u64 != stored {
            return Err(EngineError::Io(text_of("manifest: CRC mismatch")));
        }
        let p: &[u8] = vstd::slice::slice_subrange(buf, 5, body_end);
        if rtype == REC_SSTABLE_ADD {
            return match decode_sstable_meta(p) {
                Some(m) => Ok(Some((ManifestRecord::SstableAdd(m), total))),
                None => Err(short()),
            };
        }
        if rtype != REC_SSTABLE_REMOVE && rtype != REC_SEQ_CHECKPOINT && rtype != REC_WAL_TRUNCATE {
            return Err(
                EngineError::UnsupportedFormat(
                    text_with_hex_byte("manifest: unknown record type 0x", rtype),
                ),
            );
        }
        if p.len() < 8 {
            return Err(short());
        }
        let number: u64 = get_be(p, 0, 8);
        let rec: ManifestRecord = if rtype == REC_SSTABLE_REMOVE {
            ManifestRecord::SstableRemove { id: number }
        } else if rtype == REC_SEQ_CHECKPOINT {
            ManifestRecord::SeqCheckpoint { last_durable_seq: number }
        } else {
            ManifestRecord::WalTruncate { up_to_segment_id: number }
        };
        Ok(Some((rec, total)))
    }
}

fn decode_sstable_meta(p: &[u8]) -> (r: Option<SstableMeta>)
    ensures
        match r {
            Some(m) => meta_decoded(p@) == Some(m@),
            None => meta_decoded(p@) is None,
        },
{
    proof {
        be_limits();
    }
    let n: u64 = p.len() as u64;
    if n < 13 {
        return None;
    }
    let id: u64 = get_be(p, 0, 8);
    let level: u8 = p[8];
    let n1: u64 = get_be(p, 9, 4);
    let at2: u64 = 13 + n1;
    if n < at2 + 4 {
        return None;
    }
    let n2: u64 = get_be(p, at2 as usize, 4);
    let at3: u64 = at2 + 4 + n2;
    if n < at3 + 24 {
        return None;
    }
    let min_key: Vec<u8> = copy_range(p, 13, at2 as usize);
    let max_key: Vec<u8> = copy_range(p, at2 as usize + 4, at3 as usize);
    let min_seq: u64 = get_be(p, at3 as usize, 8);
    let max_seq: u64 = get_be(p, at3 as usize + 8, 8);
    let size_bytes: u64 = get_be(p, at3 as usize + 16, 8);
    Some(SstableMeta { id, level, min_key, max_key, min_seq, max_seq, size_bytes })
}

fn short() -> (e: EngineError)
    ensures
        front_error(Front::ShortPayload, e),
{
    EngineError::Io(text_of("manifest: short record payload"))
}

/// The state after replaying a manifest.
#[derive(Debug)]
pub struct ManifestState {
    pub live_sstables: Vec<SstableMeta>,
    pub last_durable_seq: u64,
    pub wal_truncated_up_to: u64,
}

impl View for ManifestState {
    type V = StateView;

    open spec fn view(&self) -> StateView {
        StateView {
            live: meta_views(self.live_sstables@),
            last_durable_seq: self.last_durable_seq,
            wal_truncated_up_to: self.wal_truncated_up_to,
        }
    }
}

impl Default for ManifestState {
    fn default() -> (s: Self)
        ensures
            s@ == blank(),
    {
        let s = ManifestState {
            live_sstables: Vec::new(),
            last_durable_seq: 0,
            wal_truncated_up_to: 0,
        };
        assert(s@.live =~= Seq::<MetaView>::empty());
        s
    }
}

/// Replays a manifest. A short or damaged tail ends the replay with the state
/// so far; a record of an unknown type is refused.
pub fn replay(buf: &[u8]) -> (r: EngineResult<ManifestState>)
    ensures
        match r {
            Ok(s) => replayed(buf@, blank()) == Ok::<StateView, u8>(s@),
            Err(e) => replayed(buf@, blank()) matches Err(t) && front_error(Front::Unknown(t), e),
        },
{
    let mut state = ManifestState::default();
    let mut offset: usize = 0;
    assert(buf@.skip(0) =~= buf@);
    while offset < buf.len()
        invariant
            offset <= buf@.len(),
            replayed(buf@, blank()) == replayed(buf@.skip(offset as int), state@),
        ensures
            replayed(buf@, blank()) == Ok::<StateView, u8>(state@),
        decreases buf.len() - offset,
    {
        let rest: &[u8] = vstd::slice::slice_subrange(buf, offset, buf.len());
        assert(rest@ =~= buf@.skip(offset as int));
        proof {
            front_record_len(rest@);
        }
        match ManifestRecord::decode_one(rest) {
            Ok(Some((rec, n))) => {
                assert(rest@.skip(n as int) =~= buf@.skip(offset + n));
                apply(&mut state, rec);
                offset = offset + n;
            },
            Ok(None) => {
                break;
            },
            Err(EngineError::Io(_)) => {
                break;
            },
            Err(e) => {
                return Err(e);
            },
        }
    }
    Ok(state)
}

/// Applies one record.
pub fn apply(state: &mut ManifestState, rec: ManifestRecord)
    ensures
        final(state)@ == applied(old(state)@, rec@),
{
    match rec {
        ManifestRecord::SstableAdd(m) => {
            if m.max_seq > state.last_durable_seq {
                state.last_durable_seq = m.max_seq;
            }
            state.live_sstables.push(m);
            assert(state@.live =~= old(state)@.live.push(m@));
        },
        ManifestRecord::SstableRemove { id } => {
            let kept: Vec<SstableMeta> = metas_without(&state.live_sstables, id);
            state.live_sstables = kept;
        },
        ManifestRecord::SeqCheckpoint { last_durable_seq } => {
            if last_durable_seq > state.last_durable_seq {
                state.last_durable_seq = last_durable_seq;
            }
        },
        ManifestRecord::WalTruncate { up_to_segment_id } => {
            if up_to_segment_id > state.wal_truncated_up_to {
                state.wal_truncated_up_to = up_to_segment_id;
            }
        },
    }
}

/// The entries other than those with this id, in order.
fn metas_without(metas: &Vec<SstableMeta>, id: u64) -> (r: Vec<SstableMeta>)
    ensures
        meta_views(r@) == without_id(meta_views(metas@), id),
{
    let ghost all = meta_views(metas@);
    let mut r: Vec<SstableMeta> = Vec::new();
    let mut i: usize = 0;
    proof {
        reveal(Seq::filter);
        assert(all.take(0) =~= Seq::<MetaView>::empty());
        assert(meta_views(r@) =~= Seq::<MetaView>::empty());
    }
    while i < metas.len()
        invariant
            i <= metas@.len(),
            all == meta_views(metas@),
            meta_views(r@) == without_id(all.take(i as int), id),
        decreases metas.len() - i,
    {
        proof {
            reveal(Seq::filter);
            assert(all.take(i + 1).drop_last() =~= all.take(i as int));
            assert(all.take(i + 1).last() == all[i as int]);
        }
        let ghost before = r@;
        if metas[i].id != id {
            let m: SstableMeta = metas[i].clone();
            r.push(m);
            assert(meta_views(r@) =~= meta_views(before).push(all[i as int]));
        }
        i = i + 1;
    }
    assert(all.take(all.len() as int) =~= all);
    r
}

} // verus!
