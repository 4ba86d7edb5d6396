//! The write-ahead log as plain values: what its records and segments hold.

use vstd::prelude::*;
use crate::bytes::{append_bytes, copy_bytes, copy_range};
use crate::checksum::{crc32, crc32_of};
use crate::codec::{be_bytes, be_bytes_len, be_limits, be_value, be_value_of_bytes, get_be, put_be};
use crate::entry::{Entry, EntryView};
use crate::errors::{EngineError, EngineResult};
use crate::keys::{EntryKind, InternalKey, KeyView, WAL_SEGMENT_SIZE};
use crate::manifest::larger;
use crate::records::Version;
use crate::text::{hex_byte, padded, push_hex_byte, push_padded, text_of};

verus! {

#[derive(Debug, Clone, Copy, PartialEq, Eq, Structural)]
pub enum WalCommand {
    Put,
    Del,
}

/// One operation of a record.
#[derive(Debug, PartialEq, Eq)]
pub struct WalOp {
    pub command: WalCommand,
    /// Zero means no expiry.
    pub expires_at: u64,
    pub key: Vec<u8>,
    pub value: Vec<u8>,
}

/// What an operation holds.
pub struct OpView {
    pub command: WalCommand,
    pub expires_at: u64,
    pub key: Seq<u8>,
    pub value: Seq<u8>,
}

impl View for WalOp {
    type V = OpView;

    open spec fn view(&self) -> OpView {
        OpView {
            command: self.command,
            expires_at: self.expires_at,
            key: self.key@,
            value: self.value@,
        }
    }
}

/// The optional expiry that a stored number stands for.
pub open spec fn expiry(n: u64) -> Option<u64> {
    if n == 0 {
        None
    } else {
        Some(n)
    }
}

/// The version that an operation writes at a sequence number.
pub open spec fn op_version(op: OpView, seq: u64) -> Version {
    match op.command {
        WalCommand::Put => (
            KeyView { user_key: op.key, seq, kind: EntryKind::Value },
            EntryView { value: Some(op.value), expires_at: expiry(op.expires_at) },
        ),
        WalCommand::Del => (
            KeyView { user_key: op.key, seq, kind: EntryKind::Tombstone },
            EntryView { value: None, expires_at: None },
        ),
    }
}

impl WalOp {
    /// The pair that the operation writes at a sequence number.
    pub fn to_pair(&self, seq: u64) -> (p: (InternalKey, Entry))
        ensures
            (p.0@, p.1@) == op_version(self@, seq),
    {
        let key: Vec<u8> = copy_bytes(self.key.as_slice());
        match self.command {
            WalCommand::Put => {
                let expires_at: Option<u64> = if self.expires_at == 0 {
                    None
                } else {
                    Some(self.expires_at)
                };
                (
                    InternalKey::new(key, seq, EntryKind::Value),
                    Entry::value(copy_bytes(self.value.as_slice()), expires_at),
                )
            },
            WalCommand::Del => (
                InternalKey::new(key, seq, EntryKind::Tombstone),
                Entry::tombstone(),
            ),
        }
    }
}

impl Clone for WalOp {
    fn clone(&self) -> (o: Self)
        ensures
            o@ == self@,
    {
        WalOp {
            command: self.command,
            expires_at: self.expires_at,
            key: copy_bytes(self.key.as_slice()),
            value: copy_bytes(self.value.as_slice()),
        }
    }
}

/// What a list of operations holds.
pub open spec fn op_views(s: Seq<WalOp>) -> Seq<OpView> {
    Seq::new(s.len(), |i: int| s[i]@)
}

/// One record: operations that share a sequence number and stand or fall
/// together.
#[derive(Debug, PartialEq, Eq)]
pub struct WalEntry {
    pub seq: u64,
    pub ops: Vec<WalOp>,
}

/// What a record holds.
pub struct WalView {
    pub seq: u64,
    pub ops: Seq<OpView>,
}

impl View for WalEntry {
    type V = WalView;

    open spec fn view(&self) -> WalView {
        WalView { seq: self.seq, ops: op_views(self.ops@) }
    }
}

impl WalView {
    /// The versions that the record writes.
    pub open spec fn writes(self) -> Seq<Version> {
        Seq::new(self.ops.len(), |i: int| op_version(self.ops[i], self.seq))
    }
}

impl WalEntry {
    pub fn put(seq: u64, expires_at: u64, key: Vec<u8>, value: Vec<u8>) -> (e: Self)
        ensures
            e@ == (WalView {
                seq,
                ops: seq![
                    OpView { command: WalCommand::Put, expires_at, key: key@, value: value@ },
                ],
            }),
    {
        let mut ops: Vec<WalOp> = Vec::new();
        ops.push(WalOp { command: WalCommand::Put, expires_at, key, value });
        let e = WalEntry { seq, ops };
        assert(e@.ops =~= seq![
            OpView { command: WalCommand::Put, expires_at, key: key@, value: value@ },
        ]);
        e
    }

    pub fn del(seq: u64, key: Vec<u8>) -> (e: Self)
        ensures
            e@ == (WalView {
                seq,
                ops: seq![
                    OpView {
                        command: WalCommand::Del,
                        expires_at: 0,
                        key: key@,
                        value: Seq::empty(),
                    },
                ],
            }),
    {
        let mut ops: Vec<WalOp> = Vec::new();
        let value: Vec<u8> = Vec::new();
        ops.push(WalOp { command: WalCommand::Del, expires_at: 0, key, value });
        let e = WalEntry { seq, ops };
        assert(e@.ops =~= seq![
            OpView { command: WalCommand::Del, expires_at: 0, key: key@, value: Seq::empty() },
        ]);
        e
    }
}

impl Clone for WalEntry {
    fn clone(&self) -> (e: Self)
        ensures
            e@ == self@,
    {
        let mut ops: Vec<WalOp> = Vec::new();
        let mut i: usize = 0;
        while i < self.ops.len()
            invariant
                i <= self.ops@.len(),
                ops@.len() == i,
                forall|j: int| 0 <= j < i ==> (#[trigger] ops@[j])@ == self.ops@[j]@,
            decreases self.ops.len() - i,
        {
            ops.push(self.ops[i].clone());
            i = i + 1;
        }
        assert(op_views(ops@) =~= op_views(self.ops@));
        WalEntry { seq: self.seq, ops }
    }
}

/// What a list of records holds.
pub open spec fn wal_views(s: Seq<WalEntry>) -> Seq<WalView> {
    Seq::new(s.len(), |i: int| s[i]@)
}

/// How reading a segment ended.
#[derive(Debug, Clone, Copy, PartialEq, Eq, Structural)]
pub enum ReplayOutcome {
    Clean,
    /// The last record is incomplete.
    TornTail,
    /// A damaged record is followed by intact ones.
    Corruption,
}

/// A segment as it was read.
#[derive(Debug)]
pub struct WalSegment {
    pub id: u64,
    pub entries: Vec<WalEntry>,
    pub outcome: ReplayOutcome,
}

/// What a segment holds.
pub struct SegmentView {
    pub id: u64,
    pub entries: Seq<WalView>,
    pub outcome: ReplayOutcome,
}

impl View for WalSegment {
    type V = SegmentView;

    open spec fn view(&self) -> SegmentView {
        SegmentView { id: self.id, entries: wal_views(self.entries@), outcome: self.outcome }
    }
}

impl Clone for WalSegment {
    fn clone(&self) -> (s: Self)
        ensures
            s@ == self@,
    {
        let mut entries: Vec<WalEntry> = Vec::new();
        let mut i: usize = 0;
        while i < self.entries.len()
            invariant
                i <= self.entries@.len(),
                entries@.len() == i,
                forall|j: int| 0 <= j < i ==> (#[trigger] entries@[j])@ == self.entries@[j]@,
            decreases self.entries.len() - i,
        {
            entries.push(self.entries[i].clone());
            i = i + 1;
        }
        assert(wal_views(entries@) =~= wal_views(self.entries@));
        WalSegment { id: self.id, entries, outcome: self.outcome }
    }
}

/// What a list of segments holds.
pub open spec fn segment_views(s: Seq<WalSegment>) -> Seq<SegmentView> {
    Seq::new(s.len(), |i: int| s[i]@)
}

/// The largest sequence number of some records, zero for none.
pub open spec fn max_entry_seq(s: Seq<WalView>) -> u64
    decreases s.len(),
{
    if s.len() == 0 {
        0
    } else {
        larger(max_entry_seq(s.drop_last()), s.last().seq)
    }
}

/// The smallest sequence number of some records, if there are any.
pub open spec fn min_entry_seq(s: Seq<WalView>) -> Option<u64>
    decreases s.len(),
{
    if s.len() == 0 {
        None
    } else {
        match min_entry_seq(s.drop_last()) {
            Some(m) => if s.last().seq < m {
                Some(s.last().seq)
            } else {
                Some(m)
            },
            None => Some(s.last().seq),
        }
    }
}

/// The largest sequence number of some records, zero for none.
pub fn largest_seq(entries: &Vec<WalEntry>) -> (n: u64)
    ensures
        n == max_entry_seq(wal_views(entries@)),
{
    let ghost s = wal_views(entries@);
    let mut n: u64 = 0;
    let mut i: usize = 0;
    assert(s.take(0) =~= Seq::<WalView>::empty());
    while i < entries.len()
        invariant
            i <= entries@.len(),
            s == wal_views(entries@),
            n == max_entry_seq(s.take(i as int)),
        decreases entries.len() - i,
    {
        proof {
            assert(s.take(i + 1).drop_last() =~= s.take(i as int));
            assert(s.take(i + 1).last() == entries@[i as int]@);
        }
        if entries[i].seq > n {
            n = entries[i].seq;
        }
        i = i + 1;
    }
    assert(s.take(s.len() as int) =~= s);
    n
}

/// The smallest sequence number of some records, if there are any.
pub fn smallest_seq(entries: &Vec<WalEntry>) -> (r: Option<u64>)
    ensures
        r == min_entry_seq(wal_views(entries@)),
{
    let ghost s = wal_views(entries@);
    let mut r: Option<u64> = None;
    let mut i: usize = 0;
    assert(s.take(0) =~= Seq::<WalView>::empty());
    while i < entries.len()
        invariant
            i <= entries@.len(),
            s == wal_views(entries@),
            r == min_entry_seq(s.take(i as int)),
        decreases entries.len() - i,
    {
        proof {
            assert(s.take(i + 1).drop_last() =~= s.take(i as int));
            assert(s.take(i + 1).last() == entries@[i as int]@);
        }
        let q: u64 = entries[i].seq;
        r = match r {
            Some(m) => if q < m {
                Some(q)
            } else {
                Some(m)
            },
            None => Some(q),
        };
        i = i + 1;
    }
    assert(s.take(s.len() as int) =~= s);
    r
}

/// The name of a segment's file.
pub open spec fn segment_name(id: u64) -> Seq<char> {
    "wal-"@ + padded(id as nat, 8) + ".log"@
}

pub fn segment_filename(id: u64) -> (s: String)
    ensures
        s@ == segment_name(id),
{
    let mut s: String = text_of("wal-");
    push_padded(&mut s, id, 8);
    s.append(".log");
    s
}

pub const WAL_PUT: u8 = 0x01;

pub const WAL_DEL: u8 = 0x02;

/// The version of the segment format.
pub const WAL_FORMAT_VERSION: u8 = 0x02;

/// The length of a segment's header: the first sequence number and the version.
pub const SEGMENT_HEADER_LEN: usize = 9;

/// A segment's header.
pub open spec fn header_bytes(first_seq: u64) -> Seq<u8> {
    be_bytes(first_seq as nat, 8).push(WAL_FORMAT_VERSION)
}

/// A segment's header.
pub fn segment_header(first_seq: u64) -> (b: Vec<u8>)
    ensures
        b@ == header_bytes(first_seq),
{
    let mut b: Vec<u8> = Vec::new();
    put_be(&mut b, first_seq, 8);
    b.push(WAL_FORMAT_VERSION);
    assert(b@ =~= header_bytes(first_seq));
    b
}

/// A segment is sealed before a record that would take it over its size. An empty
/// segment is not.
pub open spec fn rolls(current: nat, added: nat) -> bool {
    current > 0 && current + added > WAL_SEGMENT_SIZE
}

/// Whether a segment is to be sealed before a record of `added` bytes.
pub fn should_roll(current: usize, added: usize) -> (r: bool)
    ensures
        r == rolls(current as nat, added as nat),
{
    current > 0 && (current > WAL_SEGMENT_SIZE || added > WAL_SEGMENT_SIZE - current)
}

impl WalCommand {
    pub open spec fn code(self) -> u8 {
        match self {
            WalCommand::Put => WAL_PUT,
            WalCommand::Del => WAL_DEL,
        }
    }
}

impl OpView {
    /// The operation as it stands in a record.
    pub open spec fn encoded(self) -> Seq<u8> {
        seq![self.command.code()] + be_bytes(self.expires_at as nat, 8) + be_bytes(
            self.key.len(),
            4,
        ) + be_bytes(self.value.len(), 4) + self.key + self.value
    }

    /// The lengths fit their length fields.
    pub open spec fn fits(self) -> bool {
        self.key.len() <= u32::MAX && self.value.len() <= u32::MAX
    }
}

/// Operations one after the other.
pub open spec fn ops_encoded(s: Seq<OpView>) -> Seq<u8>
    decreases s.len(),
{
    if s.len() == 0 {
        Seq::empty()
    } else {
        s[0].encoded() + ops_encoded(s.skip(1))
    }
}

impl WalView {
    /// The record without its frame.
    pub open spec fn payload(self) -> Seq<u8> {
        be_bytes(self.seq as nat, 8) + be_bytes(self.ops.len(), 4) + ops_encoded(self.ops)
    }

    /// The record as it stands in a segment: length, checksum and payload. One
    /// checksum covers all operations.
    pub open spec fn encoded(self) -> Seq<u8> {
        be_bytes(self.payload().len(), 8) + be_bytes(crc32(self.payload()) as nat, 4)
            + self.payload()
    }

    /// The lengths fit their length fields.
    pub open spec fn fits(self) -> bool {
        &&& self.ops.len() <= u32::MAX
        &&& forall|i: int| 0 <= i < self.ops.len() ==> (#[trigger] self.ops[i]).fits()
        &&& self.payload().len() <= u64::MAX
    }
}

/// The `n` operations that some bytes hold, if they hold just these.
pub open spec fn ops_decoded(p: Seq<u8>, n: nat) -> Option<Seq<OpView>>
    decreases n,
{
    if n == 0 {
        if p.len() == 0 {
            Some(Seq::empty())
        } else {
            None
        }
    } else {
        let k = be_value(p.subrange(9, 13)) as int;
        let v = be_value(p.subrange(13, 17)) as int;
        if p.len() < 17 || (p[0] != WAL_PUT && p[0] != WAL_DEL) || p.len() < 17 + k + v {
            None
        } else {
            match ops_decoded(p.skip(17 + k + v), (n - 1) as nat) {
                None => None,
                Some(rest) => Some(
                    seq![
                        OpView {
                            command: if p[0] == WAL_PUT {
                                WalCommand::Put
                            } else {
                                WalCommand::Del
                            },
                            expires_at: be_value(p.subrange(1, 9)) as u64,
                            key: p.subrange(17, 17 + k),
                            value: p.subrange(17 + k, 17 + k + v),
                        },
                    ] + rest,
                ),
            }
        }
    }
}

/// The record that a payload stands for.
pub open spec fn payload_decoded(p: Seq<u8>) -> Option<WalView> {
    if p.len() < 12 {
        None
    } else {
        match ops_decoded(p.skip(12), be_value(p.subrange(8, 12))) {
            None => None,
            Some(ops) => Some(WalView { seq: be_value(p.subrange(0, 8)) as u64, ops }),
        }
    }
}

/// What the front of a segment's body holds.
pub enum WalFront {
    /// A record, and the number of bytes it takes.
    Record(WalView, nat),
    /// Too few bytes for a record.
    Short,
    /// A record whose checksum or content is wrong.
    Damaged,
}

/// What the front of `buf` holds.
pub open spec fn wal_front(buf: Seq<u8>) -> WalFront {
    let len = be_value(buf.subrange(0, 8)) as int;
    let p = buf.subrange(12, 12 + len);
    if buf.len() < 12 || buf.len() < 12 + len {
        WalFront::Short
    } else if be_value(buf.subrange(8, 12)) != crc32(p) {
        WalFront::Damaged
    } else {
        match payload_decoded(p) {
            Some(e) => WalFront::Record(e, (12 + len) as nat),
            None => WalFront::Damaged,
        }
    }
}

proof fn op_round_trips(op: OpView, rest: Seq<u8>)
    requires
        op.fits(),
    ensures
        ({
            let p = op.encoded() + rest;
            let k = op.key.len() as int;
            let v = op.value.len() as int;
            &&& op.encoded().len() == 17 + k + v
            &&& p[0] == op.command.code()
            &&& be_value(p.subrange(1, 9)) == op.expires_at
            &&& be_value(p.subrange(9, 13)) == k
            &&& be_value(p.subrange(13, 17)) == v
            &&& p.subrange(17, 17 + k) == op.key
            &&& p.subrange(17 + k, 17 + k + v) == op.value
            &&& p.skip(17 + k + v) == rest
        }),
{
    let p = op.encoded() + rest;
    let k = op.key.len() as int;
    let v = op.value.len() as int;
    be_limits();
    be_bytes_len(op.expires_at as nat, 8);
    be_bytes_len(op.key.len(), 4);
    be_bytes_len(op.value.len(), 4);
    be_value_of_bytes(op.expires_at as nat, 8);
    be_value_of_bytes(op.key.len(), 4);
    be_value_of_bytes(op.value.len(), 4);
    assert(p.subrange(1, 9) =~= be_bytes(op.expires_at as nat, 8));
    assert(p.subrange(9, 13) =~= be_bytes(op.key.len(), 4));
    assert(p.subrange(13, 17) =~= be_bytes(op.value.len(), 4));
    assert(p.subrange(17, 17 + k) =~= op.key);
    assert(p.subrange(17 + k, 17 + k + v) =~= op.value);
    assert(p.skip(17 + k + v) =~= rest);
}

proof fn ops_round_trip(s: Seq<OpView>)
    requires
        forall|i: int| 0 <= i < s.len() ==> (#[trigger] s[i]).fits(),
    ensures
        ops_decoded(ops_encoded(s), s.len()) == Some(s),
    decreases s.len(),
{
    if s.len() > 0 {
        let t = s.skip(1);
        assert forall|i: int| 0 <= i < t.len() implies (#[trigger] t[i]).fits() by {
            assert(t[i] == s[i + 1]);
        }
        ops_round_trip(t);
        op_round_trips(s[0], ops_encoded(t));
        assert(s =~= seq![s[0]] + t);
    } else {
        assert(s =~= Seq::<OpView>::empty());
    }
}

/// A record that was written is read back, whatever follows it.
pub proof fn wal_record_round_trips(e: WalView, rest: Seq<u8>)
    requires
        e.fits(),
    ensures
        wal_front(e.encoded() + rest) == WalFront::Record(e, e.encoded().len()),
{
    let buf = e.encoded() + rest;
    let p = e.payload();
    let len = p.len() as int;
    be_limits();
    be_bytes_len(p.len(), 8);
    be_bytes_len(crc32(p) as nat, 4);
    be_value_of_bytes(p.len(), 8);
    be_value_of_bytes(crc32(p) as nat, 4);
    be_bytes_len(e.seq as nat, 8);
    be_bytes_len(e.ops.len(), 4);
    be_value_of_bytes(e.seq as nat, 8);
    be_value_of_bytes(e.ops.len(), 4);
    assert(buf.subrange(0, 8) =~= be_bytes(p.len(), 8));
    assert(buf.subrange(8, 12) =~= be_bytes(crc32(p) as nat, 4));
    assert(buf.subrange(12, 12 + len) =~= p);
    assert(p.subrange(0, 8) =~= be_bytes(e.seq as nat, 8));
    assert(p.subrange(8, 12) =~= be_bytes(e.ops.len(), 4));
    assert(p.skip(12) =~= ops_encoded(e.ops));
    ops_round_trip(e.ops);
}

/// A proper prefix of a record is recognised as unfinished: a torn batch gives none
/// of its operations.
pub proof fn torn_wal_record_is_short(e: WalView, n: int)
    requires
        e.fits(),
        0 <= n < e.encoded().len(),
    ensures
        wal_front(e.encoded().take(n)) == WalFront::Short,
{
    let whole = e.encoded();
    let torn = whole.take(n);
    wal_record_round_trips(e, Seq::empty());
    assert(whole + Seq::<u8>::empty() =~= whole);
    if n >= 12 {
        assert(torn.subrange(0, 8) =~= whole.subrange(0, 8));
    }
}

/// The records at the front of a segment's body, up to the first that is unfinished
/// or damaged.
pub open spec fn intact(buf: Seq<u8>) -> Seq<WalView>
    decreases buf.len(),
{
    match wal_front(buf) {
        WalFront::Record(e, n) => if 0 < n <= buf.len() {
            seq![e] + intact(buf.skip(n as int))
        } else {
            Seq::empty()
        },
        _ => Seq::empty(),
    }
}

/// What follows the records at the front of a segment's body.
pub open spec fn leftover(buf: Seq<u8>) -> Seq<u8>
    decreases buf.len(),
{
    match wal_front(buf) {
        WalFront::Record(e, n) => if 0 < n <= buf.len() {
            leftover(buf.skip(n as int))
        } else {
            buf
        },
        _ => buf,
    }
}

/// A record starts somewhere behind the first byte.
pub open spec fn record_follows(buf: Seq<u8>) -> bool {
    exists|p: int| 0 < p < buf.len() && #[trigger] record_at(buf, p)
}

/// A record starts at `p`.
pub open spec fn record_at(buf: Seq<u8>, p: int) -> bool {
    wal_front(buf.skip(p)) is Record
}

/// How reading a segment's body ends: cleanly, at a torn end, or at damage that is
/// followed by a record.
pub open spec fn ending(buf: Seq<u8>) -> ReplayOutcome {
    let rest = leftover(buf);
    if rest.len() == 0 {
        ReplayOutcome::Clean
    } else if record_follows(rest) {
        ReplayOutcome::Corruption
    } else {
        ReplayOutcome::TornTail
    }
}

/// Records one after the other.
pub open spec fn stream(s: Seq<WalView>) -> Seq<u8>
    decreases s.len(),
{
    if s.len() == 0 {
        Seq::empty()
    } else {
        s[0].encoded() + stream(s.skip(1))
    }
}

/// What was written before a crash reads back: of a body that ends within a record,
/// all whole records and nothing of the torn one.
pub proof fn replay_gives_whole_records(s: Seq<WalView>, torn: WalView, n: int)
    requires
        forall|i: int| 0 <= i < s.len() ==> (#[trigger] s[i]).fits(),
        torn.fits(),
        0 <= n < torn.encoded().len(),
    ensures
        intact(stream(s) + torn.encoded().take(n)) == s,
        leftover(stream(s) + torn.encoded().take(n)) == torn.encoded().take(n),
        n == 0 ==> ending(stream(s) + torn.encoded().take(n)) is Clean,
    decreases s.len(),
{
    let end = torn.encoded().take(n);
    let buf = stream(s) + end;
    if s.len() == 0 {
        torn_wal_record_is_short(torn, n);
        assert(buf =~= end);
        assert(s =~= Seq::<WalView>::empty());
    } else {
        let t = s.skip(1);
        assert forall|i: int| 0 <= i < t.len() implies (#[trigger] t[i]).fits() by {
            assert(t[i] == s[i + 1]);
        }
        let e = s[0];
        let rest = stream(t) + end;
        assert(buf =~= e.encoded() + rest);
        wal_record_round_trips(e, rest);
        be_bytes_len(e.payload().len(), 8);
        be_bytes_len(crc32(e.payload()) as nat, 4);
        assert(buf.skip(e.encoded().len() as int) =~= rest);
        replay_gives_whole_records(t, torn, n);
        assert(s =~= seq![e] + t);
    }
}

impl WalOp {
    /// Appends the operation as it stands in a record.
    fn write_to(&self, b: &mut Vec<u8>)
        requires
            self@.fits(),
        ensures
            final(b)@ == old(b)@ + self@.encoded(),
    {
        let ghost start = b@;
        match self.command {
            WalCommand::Put => b.push(WAL_PUT),
            WalCommand::Del => b.push(WAL_DEL),
        }
        put_be(b, self.expires_at, 8);
        put_be(b, self.key.len() as u64, 4);
        put_be(b, self.value.len() as u64, 4);
        append_bytes(b, self.key.as_slice());
        append_bytes(b, self.value.as_slice());
        assert(b@ =~= start + self@.encoded());
    }
}

impl WalEntry {
    /// The record as it stands in a segment.
    pub fn encode(&self) -> (b: Vec<u8>)
        requires
            self@.fits(),
        ensures
            b@ == self@.encoded(),
    {
        let ghost ops = self@.ops;
        let mut p: Vec<u8> = Vec::new();
        put_be(&mut p, self.seq, 8);
        put_be(&mut p, self.ops.len() as u64, 4);
        let ghost head = p@;
        let mut i: usize = 0;
        assert(ops.skip(0) =~= ops);
        assert(p@ + ops_encoded(ops.skip(0)) =~= head + ops_encoded(ops));
        while i < self.ops.len()
            invariant
                i <= self.ops@.len(),
                ops == self@.ops,
                self@.fits(),
                p@ + ops_encoded(ops.skip(i as int)) == head + ops_encoded(ops),
            decreases self.ops.len() - i,
        {
            let ghost before = p@;
            proof {
                assert(ops[i as int] == self.ops@[i as int]@);
                assert(ops.skip(i as int)[0] == ops[i as int]);
                assert(ops.skip(i as int).skip(1) =~= ops.skip(i + 1));
                assert(ops[i as int].fits());
            }
            self.ops[i].write_to(&mut p);
            assert(before + (ops[i as int].encoded() + ops_encoded(ops.skip(i + 1))) =~= p@
                + ops_encoded(ops.skip(i + 1)));
            i = i + 1;
        }
        assert(ops.skip(ops.len() as int) =~= Seq::<OpView>::empty());
        assert(p@ =~= self@.payload());
        let mut b: Vec<u8> = Vec::new();
        put_be(&mut b, p.len() as u64, 8);
        put_be(&mut b, crc32_of(p.as_slice()) as u64, 4);
        append_bytes(&mut b, p.as_slice());
        assert(b@ =~= self@.encoded());
        b
    }

    /// Reads the record at the front of `buf`, with the number of bytes it takes.
    /// `Ok(None)` where there are too few bytes for a record.
    pub fn decode_one(buf: &[u8]) -> (r: EngineResult<Option<(WalEntry, usize)>>)
        ensures
            match r {
                Ok(Some((e, n))) => wal_front(buf@) == WalFront::Record(e@, n as nat),
                Ok(None) => wal_front(buf@) == WalFront::Short,
                Err(e) => wal_front(buf@) == WalFront::Damaged && (e matches EngineError::Io(m)
                    && m@ == "WAL: damaged record"@),
            },
    {
        if buf.len() < 12 {
            return Ok(None);
        }
        proof {
            be_limits();
        }
        let len: u64 = get_be(buf, 0, 8);
        if (buf.len() - 12) as u64 >= len {
            let end: usize = 12 + len as usize;
            let stored: u64 = get_be(buf, 8, 4);
            let p: &[u8] = vstd::slice::slice_subrange(buf, 12, end);
            if crc32_of(p) as u64 != stored {
                return Err(EngineError::Io(text_of("WAL: damaged record")));
            }
            match decode_payload(p) {
                Some(e) => Ok(Some((e, end))),
                None => Err(EngineError::Io(text_of("WAL: damaged record"))),
            }
        } else {
            Ok(None)
        }
    }
}

fn decode_payload(p: &[u8]) -> (r: Option<WalEntry>)
    ensures
        match r {
            Some(e) => payload_decoded(p@) == Some(e@),
            None => payload_decoded(p@) is None,
        },
{
    if p.len() < 12 {
        return None;
    }
    proof {
        be_limits();
    }
    let seq: u64 = get_be(p, 0, 8);
    let count: u64 = get_be(p, 8, 4);
    let total: usize = p.len();
    let ghost want = ops_decoded(p@.skip(12), count as nat);
    let mut ops: Vec<WalOp> = Vec::new();
    let mut at: usize = 12;
    let mut left: u64 = count;
    assert(op_views(ops@) =~= Seq::<OpView>::empty());
    proof {
        match want {
            Some(w) => assert(op_views(ops@) + w =~= w),
            None => {},
        }
    }
    while left > 0
        invariant
            12 <= at <= total == p@.len(),
            count == be_value(p@.subrange(8, 12)),
            want == ops_decoded(p@.skip(12), count as nat),
            match ops_decoded(p@.skip(at as int), left as nat) {
                Some(rest) => want == Some(op_views(ops@) + rest),
                None => want is None,
            },
        decreases left,
    {
        let ghost rest = p@.skip(at as int);
        proof {
            be_limits();
        }
        if total - at < 17 {
            return None;
        }
        proof {
            assert(rest.subrange(1, 9) =~= p@.subrange(at + 1, at + 9));
            assert(rest.subrange(9, 13) =~= p@.subrange(at + 9, at + 13));
            assert(rest.subrange(13, 17) =~= p@.subrange(at + 13, at + 17));
        }
        let code: u8 = p[at];
        if code != WAL_PUT && code != WAL_DEL {
            return None;
        }
        let expires_at: u64 = get_be(p, at + 1, 8);
        let k: u64 = get_be(p, at + 9, 4);
        let v: u64 = get_be(p, at + 13, 4);
        if ((total - at - 17) as u64) < k + v {
            return None;
        }
        let mid: usize = at + 17 + k as usize;
        let end: usize = mid + v as usize;
        let command: WalCommand = if code == WAL_PUT {
            WalCommand::Put
        } else {
            WalCommand::Del
        };
        let op = WalOp {
            command,
            expires_at,
            key: copy_range(p, at + 17, mid),
            value: copy_range(p, mid, end),
        };
        let ghost ov = op@;
        let ghost before = op_views(ops@);
        ops.push(op);
        proof {
            assert(op_views(ops@) =~= before.push(ov));
            assert(rest.subrange(17, 17 + k as int) =~= p@.subrange(at + 17, mid as int));
            assert(rest.subrange(17 + k as int, 17 + k + v) =~= p@.subrange(
                mid as int,
                end as int,
            ));
            assert(rest.skip(17 + k + v) =~= p@.skip(end as int));
            match ops_decoded(p@.skip(end as int), (left - 1) as nat) {
                Some(r) => assert(before + (seq![ov] + r) =~= op_views(ops@) + r),
                None => {},
            }
        }
        at = end;
        left = left - 1;
    }
    if at != total {
        return None;
    }
    assert(op_views(ops@) + Seq::<OpView>::empty() =~= op_views(ops@));
    Some(WalEntry { seq, ops })
}

/// Reads a segment's body: the records at its front and how reading ended.
pub fn replay_segment_body(body: &[u8]) -> (r: (Vec<WalEntry>, ReplayOutcome))
    ensures
        wal_views(r.0@) == intact(body@),
        r.1 == ending(body@),
{
    let total: usize = body.len();
    let mut entries: Vec<WalEntry> = Vec::new();
    let mut at: usize = 0;
    assert(body@.skip(0) =~= body@);
    assert(wal_views(entries@) + intact(body@) =~= intact(body@));
    let mut going: bool = true;
    while going
        invariant
            at <= total == body@.len(),
            wal_views(entries@) + intact(body@.skip(at as int)) == intact(body@),
            leftover(body@.skip(at as int)) == leftover(body@),
            !going ==> !(wal_front(body@.skip(at as int)) is Record),
        decreases total - at, if going { 1int } else { 0int },
    {
        let rest: &[u8] = vstd::slice::slice_subrange(body, at, total);
        let ghost s = body@.skip(at as int);
        assert(rest@ =~= s);
        match WalEntry::decode_one(rest) {
            Ok(Some((e, n))) => {
                let ghost ev = e@;
                let ghost before = wal_views(entries@);
                entries.push(e);
                proof {
                    assert(wal_views(entries@) =~= before.push(ev));
                    assert(s.skip(n as int) =~= body@.skip(at + n));
                    assert(before + (seq![ev] + intact(s.skip(n as int))) =~= wal_views(entries@)
                        + intact(body@.skip(at + n)));
                }
                at = at + n;
            },
            _ => {
                going = false;
            },
        }
    }
    let ghost rest = body@.skip(at as int);
    assert(intact(rest) =~= Seq::<WalView>::empty());
    assert(wal_views(entries@) + intact(rest) =~= wal_views(entries@));
    assert(leftover(rest) == rest);
    if at == total {
        return (entries, ReplayOutcome::Clean);
    }
    let mut p: usize = at + 1;
    while p < total
        invariant
            at < p <= total == body@.len(),
            rest == body@.skip(at as int),
            rest == leftover(body@),
            wal_views(entries@) == intact(body@),
            forall|q: int| 0 < q < p - at ==> !#[trigger] record_at(rest, q),
        decreases total - p,
    {
        let tail: &[u8] = vstd::slice::slice_subrange(body, p, total);
        assert(tail@ =~= rest.skip(p - at));
        let found: bool = match WalEntry::decode_one(tail) {
            Ok(Some(_)) => true,
            _ => false,
        };
        assert(found == record_at(rest, p - at));
        if found {
            return (entries, ReplayOutcome::Corruption);
        }
        p = p + 1;
    }
    (entries, ReplayOutcome::TornTail)
}

/// What reading a segment's file gives, or why it is refused. A file that is too
/// short for a header holds nothing.
pub open spec fn segment_read(id: u64, buf: Seq<u8>) -> Result<SegmentView, Seq<char>> {
    if buf.len() < SEGMENT_HEADER_LEN {
        Ok(SegmentView { id, entries: Seq::empty(), outcome: ReplayOutcome::Clean })
    } else if buf[8] != WAL_FORMAT_VERSION {
        Err(
            "WAL: unsupported segment format version 0x"@ + hex_byte(buf[8]) + " (expected 0x"@
                + hex_byte(WAL_FORMAT_VERSION) + ")"@,
        )
    } else {
        let body = buf.skip(SEGMENT_HEADER_LEN as int);
        Ok(SegmentView { id, entries: intact(body), outcome: ending(body) })
    }
}

/// Reads a segment's file.
pub fn read_segment(id: u64, buf: &[u8]) -> (r: EngineResult<WalSegment>)
    ensures
        match r {
            Ok(s) => segment_read(id, buf@) == Ok::<SegmentView, Seq<char>>(s@),
            Err(e) => segment_read(id, buf@) matches Err(m) && (e matches EngineError::Io(t) && t@
                == m),
        },
{
    if buf.len() < SEGMENT_HEADER_LEN {
        let s = WalSegment { id, entries: Vec::new(), outcome: ReplayOutcome::Clean };
        assert(s@.entries =~= Seq::<WalView>::empty());
        return Ok(s);
    }
    if buf[8] != WAL_FORMAT_VERSION {
        let mut t: String = text_of("WAL: unsupported segment format version 0x");
        push_hex_byte(&mut t, buf[8]);
        t.append(" (expected 0x");
        push_hex_byte(&mut t, WAL_FORMAT_VERSION);
        t.append(")");
        return Err(EngineError::Io(t));
    }
    let body: &[u8] = vstd::slice::slice_subrange(buf, SEGMENT_HEADER_LEN, buf.len());
    assert(body@ =~= buf@.skip(SEGMENT_HEADER_LEN as int));
    let (entries, outcome) = replay_segment_body(body);
    Ok(WalSegment { id, entries, outcome })
}

/// The length to which a file with a torn end is cut back.
pub fn intact_len(buf: &[u8]) -> (n: usize)
    requires
        buf@.len() >= SEGMENT_HEADER_LEN,
    ensures
        n == buf@.len() - leftover(buf@.skip(SEGMENT_HEADER_LEN as int)).len(),
        SEGMENT_HEADER_LEN <= n <= buf@.len(),
{
    let total: usize = buf.len();
    let ghost body = buf@.skip(SEGMENT_HEADER_LEN as int);
    let mut at: usize = SEGMENT_HEADER_LEN;
    let mut going: bool = true;
    while going
        invariant
            SEGMENT_HEADER_LEN <= at <= total == buf@.len(),
            body == buf@.skip(SEGMENT_HEADER_LEN as int),
            leftover(buf@.skip(at as int)) == leftover(body),
            !going ==> !(wal_front(buf@.skip(at as int)) is Record),
        decreases total - at, if going { 1int } else { 0int },
    {
        let rest: &[u8] = vstd::slice::slice_subrange(buf, at, total);
        let ghost s = buf@.skip(at as int);
        assert(rest@ =~= s);
        match WalEntry::decode_one(rest) {
            Ok(Some((_, n))) => {
                assert(s.skip(n as int) =~= buf@.skip(at + n));
                at = at + n;
            },
            _ => {
                going = false;
            },
        }
    }
    at
}

} // verus!
