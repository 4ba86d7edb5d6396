//! Bytes on the disk and on the wire, place by place.

use vstd::prelude::*;
use crate::bloom::{any_hits, bit_at, built_from, hits, key_position, BloomView};
use crate::change_log::TokenView;
use crate::checksum::crc32;
use crate::codec::{be_bytes, be_bytes_len, be_value};
use crate::errors::{EngineError, Status};
use crate::frame::{
    envelope, request_fault, request_header_fault, response_header_fault, Command, KeyPayloadView,
    PutView,
};
use crate::laws::reads::numbers_are_written_most_significant_first;
use crate::manifest::{applied, front, Front, MetaView, RecordView, StateView};
use crate::records::Version;
use crate::sstable::{filters_run, run_hits};
use crate::wal::{
    header_bytes, intact, leftover, payload_decoded, record_at, segment_read, wal_front, OpView,
    ReplayOutcome, WalCommand, WalFront, WalView,
};
use crate::bloom::xxh3_64;

verus! {

/// The number in four bytes from a place on.
pub open spec fn n4(b: Seq<u8>, at: int) -> int {
    b[at] * 0x100_0000 + b[at + 1] * 0x1_0000 + b[at + 2] * 0x100 + b[at + 3]
}

/// The number in eight bytes from a place on.
pub open spec fn n8(b: Seq<u8>, at: int) -> int {
    b[at] * 0x100_0000_0000_0000 + b[at + 1] * 0x1_0000_0000_0000 + b[at + 2] * 0x100_0000_0000
        + b[at + 3] * 0x1_0000_0000 + b[at + 4] * 0x100_0000 + b[at + 5] * 0x1_0000 + b[at + 6]
        * 0x100 + b[at + 7]
}

proof fn part4(b: Seq<u8>, at: int)
    requires
        0 <= at,
        at + 4 <= b.len(),
    ensures
        be_value(b.subrange(at, at + 4)) == n4(b, at),
        0 <= n4(b, at) < 0x1_0000_0000,
{
    numbers_are_written_most_significant_first(0, b.subrange(at, at + 4));
}

proof fn part8(b: Seq<u8>, at: int)
    requires
        0 <= at,
        at + 8 <= b.len(),
    ensures
        be_value(b.subrange(at, at + 8)) == n8(b, at),
        0 <= n8(b, at) < 0x1_0000_0000_0000_0000,
{
    numbers_are_written_most_significant_first(0, b.subrange(at, at + 8));
}

proof fn wrote4(b: Seq<u8>, at: int, n: nat)
    requires
        0 <= at,
        at + 4 <= b.len(),
        n < 0x1_0000_0000,
        b.subrange(at, at + 4) == be_bytes(n, 4),
    ensures
        n4(b, at) == n,
{
    part4(b, at);
    numbers_are_written_most_significant_first(n, b);
}

proof fn wrote8(b: Seq<u8>, at: int, n: nat)
    requires
        0 <= at,
        at + 8 <= b.len(),
        n < 0x1_0000_0000_0000_0000,
        b.subrange(at, at + 8) == be_bytes(n, 8),
    ensures
        n8(b, at) == n,
{
    part8(b, at);
    numbers_are_written_most_significant_first(n, b);
}

/// The byte that stands for each command.
pub open spec fn command_byte(c: Command, b: int) -> bool {
    &&& b == 0x01 <==> c == Command::Put
    &&& b == 0x02 <==> c == Command::Get
    &&& b == 0x03 <==> c == Command::Del
    &&& b == 0x10 <==> c == Command::Begin
    &&& b == 0x11 <==> c == Command::Commit
    &&& b == 0x12 <==> c == Command::Rollback
    &&& b == 0x20 <==> c == Command::Query
    &&& b == 0x21 <==> c == Command::DocPut
    &&& b == 0x22 <==> c == Command::DocDel
    &&& b == 0x23 <==> c == Command::Find
    &&& b == 0x24 <==> c == Command::Update
    &&& b == 0x25 <==> c == Command::Delete
    &&& b == 0x26 <==> c == Command::Count
    &&& b == 0x30 <==> c == Command::IndexDef
    &&& b == 0x31 <==> c == Command::SchemaDef
    &&& b == 0x40 <==> c == Command::SessionInit
    &&& b == 0x41 <==> c == Command::SetContext
    &&& b == 0x42 <==> c == Command::AdminDropTenant
    &&& b == 0xf0 <==> c == Command::Ping
    &&& b == 0xf1 <==> c == Command::Stats
}

/// Every command has its byte, and belongs to the plain keys and values, to the documents or
/// to neither.
pub proof fn commands_have_their_bytes(c: Command)
    ensures
        command_byte(c, c.code() as int),
        c.kv() <==> (c.code() <= 0x03 || 0x40 <= c.code() <= 0x42 || c.code() >= 0xf0),
        c.document() <==> 0x20 <= c.code() <= 0x30,
{
}

/// The byte that a reply carries for each error.
pub proof fn errors_have_their_status(e: EngineError)
    ensures
        e is NotFound ==> e.wire_status().code() == 1,
        e is Other ==> e.wire_status().code() == 2,
        e is Conflict ==> e.wire_status().code() == 3,
        e is Io || e is Locked ==> e.wire_status().code() == 4,
        e is InvalidKey ==> e.wire_status().code() == 5,
        e is InvalidValue ==> e.wire_status().code() == 6,
        e is EngineBusy ==> e.wire_status().code() == 7,
        e is Protocol ==> e.wire_status().code() == 8,
        e is PolicyRejected ==> e.wire_status().code() == 9,
        e is UnsupportedFormat ==> e.wire_status().code() == 10,
        e is Unauthorized ==> e.wire_status().code() == 11,
        e is Forbidden ==> e.wire_status().code() == 12,
        Status::Okay.code() == 0,
{
}

/// A message is a version byte, the byte of its command or status, its payload's length in
/// four bytes, and the payload.
pub proof fn messages_on_the_wire(code: u8, payload: Seq<u8>)
    requires
        payload.len() < 0x1_0000_0000,
    ensures
        ({
            let b = envelope(code, payload);
            &&& b.len() == 6 + payload.len()
            &&& b[0] == 1
            &&& b[1] == code
            &&& n4(b, 2) == payload.len()
            &&& forall|i: int| 0 <= i < payload.len() ==> #[trigger] b[6 + i] == payload[i]
        }),
{
    let b = envelope(code, payload);
    be_bytes_len(payload.len(), 4);
    assert(b.subrange(2, 6) =~= be_bytes(payload.len(), 4));
    wrote4(b, 2, payload.len());
}

/// Bytes are read as a request where they begin with the version, a command and no more
/// payload than there is, and as a response likewise with a status.
pub proof fn messages_that_are_read(b: Seq<u8>)
    ensures
        request_header_fault(b) is None <==> b.len() >= 6 && b[0] == 1 && exists|c: Command|
            #[trigger] command_byte(c, b[1] as int),
        request_fault(b) is None <==> request_header_fault(b) is None && b.len() >= 6 + n4(b, 2),
        response_header_fault(b) is None <==> b.len() >= 6 && b[0] == 1 && b[1] <= 12,
        b.len() >= 6 ==> crate::frame::payload_len(b) == n4(b, 2),
{
    if b.len() >= 6 {
        part4(b, 2);
        if exists|c: Command| #[trigger] command_byte(c, b[1] as int) {
            let c = choose|c: Command| #[trigger] command_byte(c, b[1] as int);
            assert(c.code() == b[1]);
        }
        if exists|c: Command| c.code() == b[1] {
            let c = choose|c: Command| c.code() == b[1];
            assert(command_byte(c, b[1] as int));
        }
        if b[1] <= 12 {
            assert(exists|s: Status| s.code() == b[1]) by {
                let s = if b[1] == 0 {
                    Status::Okay
                } else if b[1] == 1 {
                    Status::NotFound
                } else if b[1] == 2 {
                    Status::Error
                } else if b[1] == 3 {
                    Status::Conflict
                } else if b[1] == 4 {
                    Status::IoError
                } else if b[1] == 5 {
                    Status::InvalidKey
                } else if b[1] == 6 {
                    Status::InvalidValue
                } else if b[1] == 7 {
                    Status::EngineBusy
                } else if b[1] == 8 {
                    Status::ProtocolError
                } else if b[1] == 9 {
                    Status::PolicyRejected
                } else if b[1] == 10 {
                    Status::UnsupportedFormat
                } else if b[1] == 11 {
                    Status::Unauthorized
                } else {
                    Status::Forbidden
                };
                assert(s.code() == b[1]);
            }
        }
    }
}

/// A put on the wire: sixteen bytes of routing, the transaction and the expiry in eight each,
/// the lengths of key and value in four each, and both. It is read where it is just that
/// long.
pub proof fn puts_on_the_wire(p: Seq<u8>)
    ensures
        match PutView::decoded(p) {
            Ok(v) => {
                &&& p.len() == 40 + n4(p, 32) + n4(p, 36)
                &&& v.routing_key == p.subrange(0, 16)
                &&& v.txid == n8(p, 16)
                &&& v.expires_at == n8(p, 24)
                &&& v.key == p.subrange(40, 40 + n4(p, 32))
                &&& v.value == p.subrange(40 + n4(p, 32), p.len() as int)
            },
            Err(_) => p.len() < 40 || p.len() != 40 + n4(p, 32) + n4(p, 36),
        },
        match KeyPayloadView::decoded(p) {
            Ok(v) => {
                &&& p.len() == 28 + n4(p, 24)
                &&& v.routing_key == p.subrange(0, 16)
                &&& v.snapshot_seq == n8(p, 16)
                &&& v.key == p.subrange(28, p.len() as int)
            },
            Err(_) => p.len() < 28 || p.len() != 28 + n4(p, 24),
        },
{
    if p.len() >= 28 {
        part8(p, 16);
        part4(p, 24);
    }
    if p.len() >= 40 {
        part8(p, 24);
        part4(p, 32);
        part4(p, 36);
    }
}

/// Payloads are written as they are read.
pub proof fn payloads_are_written_as_they_are_read(v: PutView, k: KeyPayloadView)
    requires
        v.routing_key.len() == 16,
        v.txid < 0x1_0000_0000_0000_0000,
        v.expires_at < 0x1_0000_0000_0000_0000,
        v.key.len() < 0x1_0000_0000,
        v.value.len() < 0x1_0000_0000,
        k.routing_key.len() == 16,
        k.snapshot_seq < 0x1_0000_0000_0000_0000,
        k.key.len() < 0x1_0000_0000,
    ensures
        ({
            let p = v.encoded();
            &&& p.len() == 40 + v.key.len() + v.value.len()
            &&& p.subrange(0, 16) == v.routing_key
            &&& n8(p, 16) == v.txid
            &&& n8(p, 24) == v.expires_at
            &&& n4(p, 32) == v.key.len()
            &&& n4(p, 36) == v.value.len()
            &&& p.subrange(40, 40 + v.key.len() as int) == v.key
            &&& p.subrange(40 + v.key.len() as int, p.len() as int) == v.value
        }),
        ({
            let p = k.encoded();
            &&& p.len() == 28 + k.key.len()
            &&& p.subrange(0, 16) == k.routing_key
            &&& n8(p, 16) == k.snapshot_seq
            &&& n4(p, 24) == k.key.len()
            &&& p.subrange(28, p.len() as int) == k.key
        }),
{
    be_bytes_len(v.txid, 8);
    be_bytes_len(v.expires_at, 8);
    be_bytes_len(v.key.len(), 4);
    be_bytes_len(v.value.len(), 4);
    be_bytes_len(k.snapshot_seq, 8);
    be_bytes_len(k.key.len(), 4);
    let p = v.encoded();
    assert(p.subrange(0, 16) =~= v.routing_key);
    assert(p.subrange(16, 24) =~= be_bytes(v.txid, 8));
    assert(p.subrange(24, 32) =~= be_bytes(v.expires_at, 8));
    assert(p.subrange(32, 36) =~= be_bytes(v.key.len(), 4));
    assert(p.subrange(36, 40) =~= be_bytes(v.value.len(), 4));
    assert(p.subrange(40, 40 + v.key.len() as int) =~= v.key);
    assert(p.subrange(40 + v.key.len() as int, p.len() as int) =~= v.value);
    wrote8(p, 16, v.txid);
    wrote8(p, 24, v.expires_at);
    wrote4(p, 32, v.key.len());
    wrote4(p, 36, v.value.len());
    let r = k.encoded();
    assert(r.subrange(0, 16) =~= k.routing_key);
    assert(r.subrange(16, 24) =~= be_bytes(k.snapshot_seq, 8));
    assert(r.subrange(24, 28) =~= be_bytes(k.key.len(), 4));
    assert(r.subrange(28, r.len() as int) =~= k.key);
    wrote8(r, 16, k.snapshot_seq);
    wrote4(r, 24, k.key.len());
}

/// An operation in the log: one for a put and two for a deletion, the expiry in eight bytes,
/// the lengths of key and value in four each, and both.
pub proof fn operations_in_the_log(op: OpView)
    requires
        op.key.len() < 0x1_0000_0000,
        op.value.len() < 0x1_0000_0000,
    ensures
        ({
            let p = op.encoded();
            &&& p.len() == 17 + op.key.len() + op.value.len()
            &&& op.command == WalCommand::Put ==> p[0] == 1
            &&& op.command == WalCommand::Del ==> p[0] == 2
            &&& n8(p, 1) == op.expires_at
            &&& n4(p, 9) == op.key.len()
            &&& n4(p, 13) == op.value.len()
            &&& p.subrange(17, 17 + op.key.len() as int) == op.key
            &&& p.subrange(17 + op.key.len() as int, p.len() as int) == op.value
        }),
{
    be_bytes_len(op.expires_at as nat, 8);
    be_bytes_len(op.key.len(), 4);
    be_bytes_len(op.value.len(), 4);
    let p = op.encoded();
    assert(p.subrange(1, 9) =~= be_bytes(op.expires_at as nat, 8));
    assert(p.subrange(9, 13) =~= be_bytes(op.key.len(), 4));
    assert(p.subrange(13, 17) =~= be_bytes(op.value.len(), 4));
    assert(p.subrange(17, 17 + op.key.len() as int) =~= op.key);
    assert(p.subrange(17 + op.key.len() as int, p.len() as int) =~= op.value);
    wrote8(p, 1, op.expires_at as nat);
    wrote4(p, 9, op.key.len());
    wrote4(p, 13, op.value.len());
}

/// A record in the log: the length of what follows the checksum in eight bytes, the checksum
/// in four, the record's number in eight, the number of its operations in four, and the
/// operations one after the other. The checksum covers all that follows it.
pub proof fn records_in_the_log(e: WalView)
    requires
        e.fits(),
        e.ops.len() < 0x1_0000_0000,
        e.payload().len() < 0x1_0000_0000_0000_0000,
    ensures
        ({
            let b = e.encoded();
            &&& b.len() >= 24
            &&& n8(b, 0) == b.len() - 12
            &&& n4(b, 8) == crc32(b.skip(12))
            &&& n8(b, 12) == e.seq
            &&& n4(b, 20) == e.ops.len()
            &&& e.ops.len() == 0 ==> b.len() == 24
            &&& e.ops.len() > 0 ==> b.skip(24).take(e.ops[0].encoded().len() as int)
                == e.ops[0].encoded()
            &&& e.ops.len() == 1 ==> b.skip(24) == e.ops[0].encoded()
        }),
{
    let b = e.encoded();
    let p = e.payload();
    be_bytes_len(p.len(), 8);
    be_bytes_len(crc32(p) as nat, 4);
    be_bytes_len(e.seq as nat, 8);
    be_bytes_len(e.ops.len(), 4);
    assert(b.subrange(0, 8) =~= be_bytes(p.len(), 8));
    assert(b.subrange(8, 12) =~= be_bytes(crc32(p) as nat, 4));
    assert(b.subrange(12, 20) =~= be_bytes(e.seq as nat, 8));
    assert(b.subrange(20, 24) =~= be_bytes(e.ops.len(), 4));
    assert(b.skip(12) =~= p);
    wrote8(b, 0, p.len());
    wrote4(b, 8, crc32(p) as nat);
    wrote8(b, 12, e.seq as nat);
    wrote4(b, 20, e.ops.len());
    let rest = crate::wal::ops_encoded(e.ops);
    assert(b.skip(24) =~= rest);
    if e.ops.len() > 0 {
        assert(rest.take(e.ops[0].encoded().len() as int) =~= e.ops[0].encoded());
    }
    if e.ops.len() == 1 {
        assert(e.ops.skip(1) =~= Seq::<OpView>::empty());
        assert(crate::wal::ops_encoded(e.ops.skip(1)) =~= Seq::<u8>::empty());
        assert(rest =~= e.ops[0].encoded());
    }
}

/// A record is read from the log only where it is whole and its checksum is right. It is
/// short where it reaches beyond the bytes that there are, and else damaged.
pub proof fn records_that_are_read(b: Seq<u8>)
    ensures
        wal_front(b) is Short <==> b.len() < 12 || b.len() < 12 + n8(b, 0),
        wal_front(b) matches WalFront::Record(e, n) ==> {
            &&& n == 12 + n8(b, 0)
            &&& n <= b.len()
            &&& n4(b, 8) == crc32(b.subrange(12, n as int))
            &&& n >= 24
            &&& e.seq == n8(b, 12)
            &&& e.ops.len() == n4(b, 20)
        },
        !(wal_front(b) is Short) && n4(b, 8) != crc32(b.subrange(12, 12 + n8(b, 0))) ==> wal_front(
            b,
        ) is Damaged,
{
    if b.len() >= 12 {
        part8(b, 0);
        part4(b, 8);
        let p = b.subrange(12, 12 + n8(b, 0));
        if b.len() >= 12 + n8(b, 0) && p.len() >= 12 {
            part8(p, 0);
            part4(p, 8);
            assert(n8(p, 0) == n8(b, 12));
            assert(n4(p, 8) == n4(b, 20));
            if payload_decoded(p) is Some {
                ops_count(p.skip(12), n4(p, 8) as nat);
            }
        }
    }
}

proof fn ops_count(p: Seq<u8>, n: nat)
    ensures
        crate::wal::ops_decoded(p, n) matches Some(s) ==> s.len() == n,
    decreases n,
{
    if n > 0 {
        let k = be_value(p.subrange(9, 13)) as int;
        let v = be_value(p.subrange(13, 17)) as int;
        ops_count(p.skip(17 + k + v), (n - 1) as nat);
    }
}

/// A segment of the log: the first number that it may hold in eight bytes and the format's
/// version, two, and then records. Its records are those that can be read from the front on.
/// It ends clean where nothing is left, is corrupt where a record can be read further on in
/// what is left, and else is torn.
pub proof fn segments_of_the_log(id: u64, first_seq: u64, b: Seq<u8>)
    ensures
        header_bytes(first_seq).len() == 9,
        n8(header_bytes(first_seq), 0) == first_seq,
        header_bytes(first_seq)[8] == 2,
        b.len() >= 9 && b[8] != 2 ==> segment_read(id, b) is Err,
        b.len() < 9 || b[8] == 2 ==> segment_read(id, b) is Ok,
        segment_read(id, b) matches Ok(s) ==> s.id == id && (b.len() < 9 ==> s.entries.len() == 0),
        b.len() >= 9 && b[8] == 2 ==> ({
            let s = segment_read(id, b)->Ok_0;
            let rest = leftover(b.skip(9));
            &&& s.entries == intact(b.skip(9))
            &&& s.outcome == ReplayOutcome::Clean <==> rest.len() == 0
            &&& s.outcome == ReplayOutcome::Corruption <==> exists|p: int|
                0 < p < rest.len() && (#[trigger] wal_front(rest.skip(p))) is Record
        }),
{
    let h = header_bytes(first_seq);
    be_bytes_len(first_seq as nat, 8);
    assert(h.subrange(0, 8) =~= be_bytes(first_seq as nat, 8));
    wrote8(h, 0, first_seq as nat);
    if b.len() >= 9 && b[8] == 2 {
        let rest = leftover(b.skip(9));
        if exists|p: int| 0 < p < rest.len() && (#[trigger] wal_front(rest.skip(p))) is Record {
            let p = choose|p: int|
                0 < p < rest.len() && (#[trigger] wal_front(rest.skip(p))) is Record;
            assert(record_at(rest, p));
        }
        if exists|p: int| 0 < p < rest.len() && #[trigger] record_at(rest, p) {
            let p = choose|p: int| 0 < p < rest.len() && #[trigger] record_at(rest, p);
            assert(wal_front(rest.skip(p)) is Record);
        }
    }
}

/// Reading a segment's body takes one record after the other off its front, until no whole
/// one is there.
pub proof fn bodies_are_read_record_by_record(b: Seq<u8>)
    ensures
        wal_front(b) matches WalFront::Record(e, n) ==> {
            &&& intact(b).len() > 0
            &&& intact(b)[0] == e
            &&& intact(b).skip(1) == intact(b.skip(n as int))
            &&& leftover(b) == leftover(b.skip(n as int))
        },
        !(wal_front(b) is Record) ==> intact(b).len() == 0 && leftover(b) == b,
{
    records_that_are_read(b);
    if let WalFront::Record(e, n) = wal_front(b) {
        assert(intact(b).skip(1) =~= intact(b.skip(n as int)));
    }
}

/// An entry of the manifest: its type, the length of its payload in four bytes, the payload,
/// and in four bytes the checksum of all before it.
pub proof fn entries_of_the_manifest(r: RecordView)
    requires
        r.payload().len() < 0x1_0000_0000,
    ensures
        ({
            let b = r.encoded();
            let n = r.payload().len() as int;
            &&& b.len() == 9 + n
            &&& r is SstableAdd ==> b[0] == 1
            &&& r is SstableRemove ==> b[0] == 2
            &&& r is SeqCheckpoint ==> b[0] == 3
            &&& r is WalTruncate ==> b[0] == 4
            &&& n4(b, 1) == n
            &&& b.subrange(5, 5 + n) == r.payload()
            &&& n4(b, 5 + n) == crc32(b.subrange(0, 5 + n))
        }),
        match r {
            RecordView::SstableAdd(_) => true,
            RecordView::SstableRemove { id } => r.payload().len() == 8 && n8(r.payload(), 0) == id,
            RecordView::SeqCheckpoint { last_durable_seq } => r.payload().len() == 8 && n8(
                r.payload(),
                0,
            ) == last_durable_seq,
            RecordView::WalTruncate { up_to_segment_id } => r.payload().len() == 8 && n8(
                r.payload(),
                0,
            ) == up_to_segment_id,
        },
{
    let b = r.encoded();
    let p = r.payload();
    let n = p.len() as int;
    be_bytes_len(p.len(), 4);
    let body = seq![r.code()] + be_bytes(crate::codec::length_field(p.len()), 4) + p;
    be_bytes_len(crc32(body) as nat, 4);
    assert(b.subrange(1, 5) =~= be_bytes(p.len(), 4));
    assert(b.subrange(5, 5 + n) =~= p);
    assert(b.subrange(0, 5 + n) =~= body);
    assert(b.subrange(5 + n, 9 + n) =~= be_bytes(crc32(body) as nat, 4));
    wrote4(b, 1, p.len());
    wrote4(b, 5 + n, crc32(body) as nat);
    match r {
        RecordView::SstableAdd(_) => {},
        RecordView::SstableRemove { id } => {
            be_bytes_len(id as nat, 8);
            assert(p.subrange(0, 8) =~= p);
            wrote8(p, 0, id as nat);
        },
        RecordView::SeqCheckpoint { last_durable_seq } => {
            be_bytes_len(last_durable_seq as nat, 8);
            assert(p.subrange(0, 8) =~= p);
            wrote8(p, 0, last_durable_seq as nat);
        },
        RecordView::WalTruncate { up_to_segment_id } => {
            be_bytes_len(up_to_segment_id as nat, 8);
            assert(p.subrange(0, 8) =~= p);
            wrote8(p, 0, up_to_segment_id as nat);
        },
    }
}

/// The description of a table in the manifest: its number in eight bytes, its level in one,
/// the smallest and the largest key, each behind its length in four, and the smallest and
/// largest sequence number and the size in eight each.
pub proof fn tables_in_the_manifest(m: MetaView)
    requires
        m.min_key.len() < 0x1_0000_0000,
        m.max_key.len() < 0x1_0000_0000,
    ensures
        ({
            let p = RecordView::SstableAdd(m).payload();
            let a = 13 + m.min_key.len() as int;
            let c = a + 4 + m.max_key.len();
            &&& p.len() == c + 24
            &&& n8(p, 0) == m.id
            &&& p[8] == m.level
            &&& n4(p, 9) == m.min_key.len()
            &&& p.subrange(13, a) == m.min_key
            &&& n4(p, a) == m.max_key.len()
            &&& p.subrange(a + 4, c) == m.max_key
            &&& n8(p, c) == m.min_seq
            &&& n8(p, c + 8) == m.max_seq
            &&& n8(p, c + 16) == m.size_bytes
        }),
{
    let p = RecordView::SstableAdd(m).payload();
    let a = 13 + m.min_key.len() as int;
    let c = a + 4 + m.max_key.len();
    be_bytes_len(m.id as nat, 8);
    be_bytes_len(m.min_key.len(), 4);
    be_bytes_len(m.max_key.len(), 4);
    be_bytes_len(m.min_seq as nat, 8);
    be_bytes_len(m.max_seq as nat, 8);
    be_bytes_len(m.size_bytes as nat, 8);
    assert(p.subrange(0, 8) =~= be_bytes(m.id as nat, 8));
    assert(p.subrange(9, 13) =~= be_bytes(m.min_key.len(), 4));
    assert(p.subrange(13, a) =~= m.min_key);
    assert(p.subrange(a, a + 4) =~= be_bytes(m.max_key.len(), 4));
    assert(p.subrange(a + 4, c) =~= m.max_key);
    assert(p.subrange(c, c + 8) =~= be_bytes(m.min_seq as nat, 8));
    assert(p.subrange(c + 8, c + 16) =~= be_bytes(m.max_seq as nat, 8));
    assert(p.subrange(c + 16, c + 24) =~= be_bytes(m.size_bytes as nat, 8));
    wrote8(p, 0, m.id as nat);
    wrote4(p, 9, m.min_key.len());
    wrote4(p, a, m.max_key.len());
    wrote8(p, c, m.min_seq as nat);
    wrote8(p, c + 8, m.max_seq as nat);
    wrote8(p, c + 16, m.size_bytes as nat);
}

/// An entry is read from the manifest only where it is whole and its checksum is right; one
/// of an unknown type is told apart from a damaged one.
pub proof fn entries_that_are_read(b: Seq<u8>)
    ensures
        front(b) is Short <==> b.len() < 5 || b.len() < 9 + n4(b, 1),
        !(front(b) is Short) ==> (front(b) is BadChecksum <==> n4(b, 5 + n4(b, 1)) != crc32(
            b.subrange(0, 5 + n4(b, 1)),
        )),
        !(front(b) is Short) && !(front(b) is BadChecksum) ==> (front(b) is Unknown <==> b[0] == 0
            || b[0] > 4),
        front(b) matches Front::Unknown(t) ==> t == b[0],
        front(b) matches Front::Record(r, n) ==> {
            &&& n == 9 + n4(b, 1)
            &&& r is SstableAdd <==> b[0] == 1
            &&& r matches RecordView::SstableRemove { id } ==> b[0] == 2 && id == n8(b, 5)
            &&& r matches RecordView::SeqCheckpoint { last_durable_seq } ==> b[0] == 3
                && last_durable_seq == n8(b, 5)
            &&& r matches RecordView::WalTruncate { up_to_segment_id } ==> b[0] == 4
                && up_to_segment_id == n8(b, 5)
        },
{
    if b.len() >= 5 {
        part4(b, 1);
        let n = n4(b, 1);
        if b.len() >= 9 + n {
            part4(b, 5 + n);
            let p = b.subrange(5, 5 + n);
            if n >= 8 {
                part8(p, 0);
                assert(n8(p, 0) == n8(b, 5));
            }
        }
    }
}

/// What the entries of the manifest do: one adds a table at the end, one takes the tables of
/// a number out, and one raises each of two marks.
pub proof fn entries_change_the_catalog(st: StateView, r: RecordView, m: MetaView)
    ensures
        match r {
            RecordView::SstableAdd(x) => {
                &&& applied(st, r).live == st.live.push(x)
                &&& applied(st, r).last_durable_seq >= st.last_durable_seq
                &&& applied(st, r).last_durable_seq >= x.max_seq
                &&& applied(st, r).last_durable_seq == st.last_durable_seq || applied(
                    st,
                    r,
                ).last_durable_seq == x.max_seq
                &&& applied(st, r).wal_truncated_up_to == st.wal_truncated_up_to
            },
            RecordView::SstableRemove { id } => {
                &&& applied(st, r).live.contains(m) <==> st.live.contains(m) && m.id != id
                &&& applied(st, r).last_durable_seq == st.last_durable_seq
                &&& applied(st, r).wal_truncated_up_to == st.wal_truncated_up_to
            },
            RecordView::SeqCheckpoint { last_durable_seq } => {
                &&& applied(st, r).live == st.live
                &&& applied(st, r).last_durable_seq >= last_durable_seq
                &&& applied(st, r).last_durable_seq >= st.last_durable_seq
                &&& applied(st, r).last_durable_seq == st.last_durable_seq || applied(
                    st,
                    r,
                ).last_durable_seq == last_durable_seq
                &&& applied(st, r).wal_truncated_up_to == st.wal_truncated_up_to
            },
            RecordView::WalTruncate { up_to_segment_id } => {
                &&& applied(st, r).live == st.live
                &&& applied(st, r).wal_truncated_up_to >= up_to_segment_id
                &&& applied(st, r).wal_truncated_up_to >= st.wal_truncated_up_to
                &&& applied(st, r).wal_truncated_up_to == st.wal_truncated_up_to || applied(
                    st,
                    r,
                ).wal_truncated_up_to == up_to_segment_id
                &&& applied(st, r).last_durable_seq == st.last_durable_seq
            },
        },
{
    if let RecordView::SstableRemove { id } = r {
        let s = st.live;
        let f = applied(st, r).live;
        filtered(s, id, m);
    }
}

proof fn filtered(s: Seq<MetaView>, id: u64, m: MetaView)
    ensures
        s.filter(|x: MetaView| x.id != id).contains(m) <==> s.contains(m) && m.id != id,
    decreases s.len(),
{
    reveal(Seq::filter);
    let p = |x: MetaView| x.id != id;
    if s.len() > 0 {
        let init = s.drop_last();
        filtered(init, id, m);
        let a = init.filter(p);
        let b = s.filter(p);
        if s.contains(m) {
            let i = choose|i: int| 0 <= i < s.len() && s[i] == m;
            if i < init.len() {
                assert(init[i] == m);
            }
        }
        if init.contains(m) {
            let i = choose|i: int| 0 <= i < init.len() && init[i] == m;
            assert(s[i] == m);
        }
        if a.contains(m) {
            let i = choose|i: int| 0 <= i < a.len() && a[i] == m;
            assert(b[i] == m);
        }
        if b.contains(m) {
            let i = choose|i: int| 0 <= i < b.len() && b[i] == m;
            if i < a.len() {
                assert(a[i] == m);
            }
        }
        if p(s.last()) {
            assert(b[b.len() - 1] == s.last());
        }
        assert(s[s.len() - 1] == s.last());
    }
}

/// A resume token: a version byte of one, sixteen bytes of the database, the length of the
/// tenant's prefix in two, the prefix, the collection in four, the number in eight, the
/// operation's place in four, and the checksum of all before it in four.
pub proof fn tokens_are_read_back(b: Seq<u8>)
    ensures
        match TokenView::decoded(b) {
            Ok(t) => {
                let p = b[17] * 0x100 + b[18];
                &&& b[0] == 1
                &&& b.len() >= 39 + p
                &&& n4(b, b.len() - 4) == crc32(b.take(b.len() - 4))
                &&& t.database_id == b.subrange(1, 17)
                &&& t.tenant_prefix == b.subrange(19, 19 + p)
                &&& t.collection_id == n4(b, 19 + p)
                &&& t.seq == n8(b, 23 + p)
                &&& t.op_ordinal == n4(b, 31 + p)
            },
            Err(_) => {
                ||| b.len() < 39
                ||| b[0] != 1
                ||| n4(b, b.len() - 4) != crc32(b.take(b.len() - 4))
                ||| b.len() < 39 + b[17] * 0x100 + b[18]
            },
        },
{
    if b.len() >= 39 {
        let n = b.len() - 4;
        part4(b, n);
        let w = b.subrange(17, 19);
        numbers_are_written_most_significant_first(0, w);
        let p = be_value(w) as int;
        assert(p == b[17] * 0x100 + b[18]);
        if n >= 19 + p + 16 {
            part4(b, 19 + p);
            part8(b, 23 + p);
            part4(b, 31 + p);
        }
    }
}

/// A token is written as it is read.
pub proof fn tokens_are_written(t: TokenView)
    requires
        t.database_id.len() == 16,
        t.tenant_prefix.len() < 0x1_0000,
    ensures
        ({
            let b = t.encoded();
            let p = t.tenant_prefix.len() as int;
            &&& b.len() == 39 + p
            &&& b[0] == 1
            &&& b.subrange(1, 17) == t.database_id
            &&& b[17] * 0x100 + b[18] == p
            &&& b.subrange(19, 19 + p) == t.tenant_prefix
            &&& n4(b, 19 + p) == t.collection_id
            &&& n8(b, 23 + p) == t.seq
            &&& n4(b, 31 + p) == t.op_ordinal
            &&& n4(b, 35 + p) == crc32(b.take(35 + p))
        }),
{
    let b = t.encoded();
    let p = t.tenant_prefix.len() as int;
    be_bytes_len(t.tenant_prefix.len(), 2);
    be_bytes_len(t.collection_id as nat, 4);
    be_bytes_len(t.seq as nat, 8);
    be_bytes_len(t.op_ordinal as nat, 4);
    be_bytes_len(crc32(t.body()) as nat, 4);
    numbers_are_written_most_significant_first(t.tenant_prefix.len(), b.subrange(17, 19));
    assert(b.subrange(1, 17) =~= t.database_id);
    assert(b.subrange(17, 19) =~= be_bytes(t.tenant_prefix.len(), 2));
    assert(b.subrange(19, 19 + p) =~= t.tenant_prefix);
    assert(b.subrange(19 + p, 23 + p) =~= be_bytes(t.collection_id as nat, 4));
    assert(b.subrange(23 + p, 31 + p) =~= be_bytes(t.seq as nat, 8));
    assert(b.subrange(31 + p, 35 + p) =~= be_bytes(t.op_ordinal as nat, 4));
    assert(b.take(35 + p) =~= t.body());
    assert(b.subrange(35 + p, 39 + p) =~= be_bytes(crc32(t.body()) as nat, 4));
    wrote4(b, 19 + p, t.collection_id as nat);
    wrote8(b, 23 + p, t.seq as nat);
    wrote4(b, 31 + p, t.op_ordinal as nat);
    wrote4(b, 35 + p, crc32(t.body()) as nat);
}

/// One of the places of a key in a filter: the first hash and `i` times the second, in 64
/// bits, over the number of bits.
pub open spec fn place(key: Seq<u8>, i: int, num_bits: nat) -> int {
    ((xxh3_64(key, 0) + i * xxh3_64(key, 0x9E37_79B9_7F4A_7C15)) % 0x1_0000_0000_0000_0000) % (
    num_bits as int)
}

/// The bit of a filter at a place is set where the place is one of a key's seven, and only
/// there.
pub proof fn filters_set_seven_bits_for_a_key(b: BloomView, keys: Seq<Vec<u8>>, p: int)
    requires
        built_from(b, keys),
        0 <= p < b.bits.len() * 8,
    ensures
        (b.bits[p / 8] & (1u8 << ((p % 8) as u8)) != 0) <==> exists|k: int, i: int|
            0 <= k < keys.len() && 0 <= i < 7 && p == #[trigger] place(keys[k]@, i, b.num_bits),
{
    assert(bit_at(b.bits, p) == any_hits(keys, b.num_bits, p));
    if any_hits(keys, b.num_bits, p) {
        let k = choose|k: int| 0 <= k < keys.len() && #[trigger] hits(keys[k]@, 7, b.num_bits, p);
        let i = choose|i: int| 0 <= i < 7 && #[trigger] key_position(keys[k]@, i, b.num_bits) == p;
        assert(p == place(keys[k]@, i, b.num_bits));
    }
    if exists|k: int, i: int|
        0 <= k < keys.len() && 0 <= i < 7 && p == #[trigger] place(keys[k]@, i, b.num_bits) {
        let (k, i) = choose|k: int, i: int|
            0 <= k < keys.len() && 0 <= i < 7 && p == #[trigger] place(keys[k]@, i, b.num_bits);
        assert(key_position(keys[k]@, i, b.num_bits) == p);
        assert(hits(keys[k]@, 7, b.num_bits, p));
    }
}

/// A filter may hold a key where all seven of its bits are set, and only there.
pub proof fn filters_hold_keys_whose_bits_are_set(b: BloomView, key: Seq<u8>)
    requires
        b.num_bits > 0,
    ensures
        b.may_hold(key) <==> forall|i: int|
            0 <= i < 7 ==> b.bits[#[trigger] place(key, i, b.num_bits) / 8] & (1u8 << ((place(
                key,
                i,
                b.num_bits,
            ) % 8) as u8)) != 0,
{
    assert forall|i: int| #[trigger] place(key, i, b.num_bits) == key_position(
        key,
        i,
        b.num_bits,
    ) by {}
    if b.may_hold(key) {
        assert forall|i: int| 0 <= i < 7 implies b.bits[#[trigger] place(key, i, b.num_bits) / 8] & (
        1u8 << ((place(key, i, b.num_bits) % 8) as u8)) != 0 by {
            assert(bit_at(b.bits, key_position(key, i, b.num_bits)));
        }
    }
    if forall|i: int|
        0 <= i < 7 ==> b.bits[#[trigger] place(key, i, b.num_bits) / 8] & (1u8 << ((place(
            key,
            i,
            b.num_bits,
        ) % 8) as u8)) != 0 {
        assert forall|i: int| 0 <= i < 7 implies bit_at(
            b.bits,
            #[trigger] key_position(key, i, b.num_bits),
        ) by {
            let q = place(key, i, b.num_bits);
        }
    }
}

/// The filter of a table has ten bits for each version, at least 64, and each is set where
/// it is one of the seven of some version's key; and only there.
pub proof fn filters_of_tables(b: BloomView, s: Seq<Version>, p: int)
    requires
        filters_run(b, s),
        0 <= p < 8 * b.bits.len(),
    ensures
        b.num_bits == 64 || b.num_bits == 10 * s.len(),
        b.num_bits >= 64 && b.num_bits >= 10 * s.len(),
        b.num_bits <= 8 * b.bits.len() < b.num_bits + 8,
        bit_at(b.bits, p) <==> exists|k: int|
            0 <= k < s.len() && #[trigger] hits(s[k].0.user_key, 7, b.num_bits, p),
{
    assert(bit_at(b.bits, p) == run_hits(s, b.num_bits, p));
}

} // verus!
