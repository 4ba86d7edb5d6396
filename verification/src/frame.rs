//! The wire envelope: one byte of protocol version, one byte of command or
//! status, four bytes of payload length, then the payload.
//!
//! The engine owns the byte layout and the numbering. It interprets neither the
//! document commands nor the session and admin commands.

use vstd::prelude::*;
use vstd::string::StringSliceAdditionalSpecFns;
use crate::bytes::{append_bytes, copy_bytes, copy_range};
use crate::codec::{
    be_bytes, be_bytes_len, be_limits, be_value, be_value_of_bytes, get_be, length_field, put_be,
    put_length,
};
use crate::errors::{EngineError, Status};
use crate::text::{hex_byte, text_of, text_with_hex_byte};

verus! {

pub const PROTO_VERSION: u8 = 0x01;

pub const ENVELOPE_HEADER_LEN: usize = 6;

/// The length of a PUT payload without its key and value.
pub const PUT_FIXED_LEN: usize = 40;

/// The length of a GET or DEL payload without its key.
pub const KEY_FIXED_LEN: usize = 28;

/// A command of the wire protocol. The numbering is frozen.
#[derive(Debug, Clone, Copy, PartialEq, Eq, Structural)]
pub enum Command {
    Put,
    Get,
    Del,
    Begin,
    Commit,
    Rollback,
    Query,
    /// Document upsert.
    DocPut,
    /// Document delete.
    DocDel,
    /// Filtered find.
    Find,
    /// Filtered partial update.
    Update,
    /// Filtered delete.
    Delete,
    /// Filtered count or distinct.
    Count,
    IndexDef,
    SchemaDef,
    /// Session set-up, defined by the caller.
    SessionInit,
    /// Routing context of a connection, defined by the caller.
    SetContext,
    /// Drops the data of a tenant.
    AdminDropTenant,
    Ping,
    Stats,
}

impl Command {
    /// The wire byte of a command.
    pub open spec fn code(self) -> u8 {
        match self {
            Command::Put => 0x01,
            Command::Get => 0x02,
            Command::Del => 0x03,
            Command::Begin => 0x10,
            Command::Commit => 0x11,
            Command::Rollback => 0x12,
            Command::Query => 0x20,
            Command::DocPut => 0x21,
            Command::DocDel => 0x22,
            Command::Find => 0x23,
            Command::Update => 0x24,
            Command::Delete => 0x25,
            Command::Count => 0x26,
            Command::IndexDef => 0x30,
            Command::SchemaDef => 0x31,
            Command::SessionInit => 0x40,
            Command::SetContext => 0x41,
            Command::AdminDropTenant => 0x42,
            Command::Ping => 0xF0,
            Command::Stats => 0xF1,
        }
    }

    /// Handled by the key-value dispatcher.
    pub open spec fn kv(self) -> bool {
        self == Command::Put || self == Command::Get || self == Command::Del || self
            == Command::SessionInit || self == Command::SetContext || self
            == Command::AdminDropTenant || self == Command::Ping || self == Command::Stats
    }

    /// Handled by the document layer.
    pub open spec fn document(self) -> bool {
        self == Command::Query || self == Command::DocPut || self == Command::DocDel || self
            == Command::Find || self == Command::Update || self == Command::Delete || self
            == Command::Count || self == Command::IndexDef
    }

    pub fn as_u8(self) -> (b: u8)
        ensures
            b == self.code(),
    {
        match self {
            Command::Put => 0x01,
            Command::Get => 0x02,
            Command::Del => 0x03,
            Command::Begin => 0x10,
            Command::Commit => 0x11,
            Command::Rollback => 0x12,
            Command::Query => 0x20,
            Command::DocPut => 0x21,
            Command::DocDel => 0x22,
            Command::Find => 0x23,
            Command::Update => 0x24,
            Command::Delete => 0x25,
            Command::Count => 0x26,
            Command::IndexDef => 0x30,
            Command::SchemaDef => 0x31,
            Command::SessionInit => 0x40,
            Command::SetContext => 0x41,
            Command::AdminDropTenant => 0x42,
            Command::Ping => 0xF0,
            Command::Stats => 0xF1,
        }
    }

    /// The command with wire byte `b`, if there is one.
    pub fn from_u8(b: u8) -> (r: Option<Command>)
        ensures
            match r {
                Some(c) => c.code() == b,
                None => forall|c: Command| c.code() != b,
            },
    {
        match b {
            0x01 => Some(Command::Put),
            0x02 => Some(Command::Get),
            0x03 => Some(Command::Del),
            0x10 => Some(Command::Begin),
            0x11 => Some(Command::Commit),
            0x12 => Some(Command::Rollback),
            0x20 => Some(Command::Query),
            0x21 => Some(Command::DocPut),
            0x22 => Some(Command::DocDel),
            0x23 => Some(Command::Find),
            0x24 => Some(Command::Update),
            0x25 => Some(Command::Delete),
            0x26 => Some(Command::Count),
            0x30 => Some(Command::IndexDef),
            0x31 => Some(Command::SchemaDef),
            0x40 => Some(Command::SessionInit),
            0x41 => Some(Command::SetContext),
            0x42 => Some(Command::AdminDropTenant),
            0xF0 => Some(Command::Ping),
            0xF1 => Some(Command::Stats),
            _ => None,
        }
    }

    /// Raw key-value, session and control commands.
    pub fn is_kv_command(self) -> (r: bool)
        ensures
            r == self.kv(),
    {
        matches!(
            self,
            Command::Put
                | Command::Get
                | Command::Del
                | Command::SessionInit
                | Command::SetContext
                | Command::AdminDropTenant
                | Command::Ping
                | Command::Stats
        )
    }

    /// Commands of the document layer.
    pub fn is_document_command(self) -> (r: bool)
        ensures
            r == self.document(),
    {
        matches!(
            self,
            Command::Query
                | Command::DocPut
                | Command::DocDel
                | Command::Find
                | Command::Update
                | Command::Delete
                | Command::Count
                | Command::IndexDef
        )
    }
}

/// Distinct commands have distinct wire bytes, so a byte that was written from
/// a command reads back as that command.
pub proof fn command_codes_are_distinct(a: Command, b: Command)
    ensures
        a.code() == b.code() ==> a == b,
{
}

/// No command belongs to both dispatchers.
pub proof fn command_classes_are_disjoint(c: Command)
    ensures
        !(c.kv() && c.document()),
{
}

/// `e` is the protocol error with message `m`.
pub open spec fn is_protocol_error(e: EngineError, m: Seq<char>) -> bool {
    e matches EngineError::Protocol(t) && t@ == m
}

/// An envelope on the wire.
pub open spec fn envelope(code: u8, payload: Seq<u8>) -> Seq<u8> {
    seq![PROTO_VERSION, code] + be_bytes(length_field(payload.len()), 4) + payload
}

/// The length field of an envelope.
pub open spec fn payload_len(header: Seq<u8>) -> nat {
    be_value(header.subrange(2, 6))
}

/// Why a request header is refused, or `None` where it is accepted.
pub open spec fn request_header_fault(header: Seq<u8>) -> Option<Seq<char>> {
    if header.len() < ENVELOPE_HEADER_LEN {
        Some("short header"@)
    } else if header[0] != PROTO_VERSION {
        Some("unsupported protocol version 0x"@ + hex_byte(header[0]))
    } else if forall|c: Command| c.code() != header[1] {
        Some("unknown command 0x"@ + hex_byte(header[1]))
    } else {
        None
    }
}

/// Why a response header is refused, or `None` where it is accepted.
pub open spec fn response_header_fault(header: Seq<u8>) -> Option<Seq<char>> {
    if header.len() < ENVELOPE_HEADER_LEN {
        Some("short response header"@)
    } else if header[0] != PROTO_VERSION {
        Some("bad response version"@)
    } else if forall|s: Status| s.code() != header[1] {
        Some("unknown status"@)
    } else {
        None
    }
}

/// Why a request is refused, or `None` where it is accepted.
pub open spec fn request_fault(buf: Seq<u8>) -> Option<Seq<char>> {
    match request_header_fault(buf) {
        Some(m) => Some(m),
        None => if buf.len() - ENVELOPE_HEADER_LEN < payload_len(buf) {
            Some("truncated payload"@)
        } else {
            None
        },
    }
}

proof fn envelope_layout(code: u8, payload: Seq<u8>)
    ensures
        envelope(code, payload).len() == ENVELOPE_HEADER_LEN + payload.len(),
        envelope(code, payload)[0] == PROTO_VERSION,
        envelope(code, payload)[1] == code,
        payload_len(envelope(code, payload)) == length_field(payload.len()),
        envelope(code, payload).skip(ENVELOPE_HEADER_LEN as int) == payload,
{
    let n = length_field(payload.len());
    be_bytes_len(n, 4);
    be_limits();
    be_value_of_bytes(n, 4);
    assert(envelope(code, payload).subrange(2, 6) =~= be_bytes(n, 4));
    assert(envelope(code, payload).skip(6) =~= payload);
}

/// A request envelope.
#[derive(Debug, PartialEq, Eq)]
pub struct RequestEnvelope {
    pub command: Command,
    pub payload: Vec<u8>,
}

/// An encoded request decodes to the same command and payload, where the
/// payload's length fits the length field.
pub proof fn request_round_trips(command: Command, payload: Seq<u8>)
    requires
        payload.len() <= u32::MAX,
    ensures
        request_fault(envelope(command.code(), payload)) is None,
        payload_len(envelope(command.code(), payload)) == payload.len(),
        envelope(command.code(), payload).subrange(
            ENVELOPE_HEADER_LEN as int,
            ENVELOPE_HEADER_LEN + payload.len(),
        ) == payload,
{
    envelope_layout(command.code(), payload);
    let buf = envelope(command.code(), payload);
    assert(command.code() == buf[1]);
    assert(buf.subrange(6, 6 + payload.len() as int) =~= buf.skip(6));
}

/// An encoded response has a header that reads back as its status and length,
/// where the payload's length fits the length field.
pub proof fn response_round_trips(status: Status, payload: Seq<u8>)
    requires
        payload.len() <= u32::MAX,
    ensures
        response_header_fault(envelope(status.code(), payload)) is None,
        envelope(status.code(), payload)[1] == status.code(),
        payload_len(envelope(status.code(), payload)) == payload.len(),
        envelope(status.code(), payload).skip(ENVELOPE_HEADER_LEN as int) == payload,
{
    envelope_layout(status.code(), payload);
    assert(status.code() == envelope(status.code(), payload)[1]);
}

impl RequestEnvelope {
    pub fn new(command: Command, payload: Vec<u8>) -> (r: Self)
        ensures
            r.command == command,
            r.payload@ == payload@,
    {
        RequestEnvelope { command, payload }
    }

    /// The envelope on the wire.
    pub fn encode(&self) -> (buf: Vec<u8>)
        ensures
            buf@ == envelope(self.command.code(), self.payload@),
    {
        encode_envelope(self.command.as_u8(), self.payload.as_slice())
    }

    /// Reads the command and the payload length from a header.
    pub fn parse_header(header: &[u8]) -> (r: Result<(Command, usize), EngineError>)
        ensures
            match r {
                Ok((c, n)) => {
                    &&& request_header_fault(header@) is None
                    &&& c.code() == header@[1]
                    &&& n == payload_len(header@)
                },
                Err(e) => request_header_fault(header@) matches Some(m) && is_protocol_error(e, m),
            },
    {
        if header.len() < ENVELOPE_HEADER_LEN {
            return Err(EngineError::Protocol(text_of("short header")));
        }
        if header[0] != PROTO_VERSION {
            return Err(
                EngineError::Protocol(
                    text_with_hex_byte("unsupported protocol version 0x", header[0]),
                ),
            );
        }
        match Command::from_u8(header[1]) {
            Some(c) => {
                proof {
                    be_limits();
                }
                let n: u64 = get_be(header, 2, 4);
                Ok((c, n as usize))
            },
            None => Err(EngineError::Protocol(text_with_hex_byte("unknown command 0x", header[1]))),
        }
    }

    /// Decodes a header and its payload.
    pub fn decode(buf: &[u8]) -> (r: Result<RequestEnvelope, EngineError>)
        ensures
            match r {
                Ok(q) => {
                    &&& request_fault(buf@) is None
                    &&& q.command.code() == buf@[1]
                    &&& q.payload@ == buf@.subrange(
                        ENVELOPE_HEADER_LEN as int,
                        ENVELOPE_HEADER_LEN + payload_len(buf@),
                    )
                },
                Err(e) => request_fault(buf@) matches Some(m) && is_protocol_error(e, m),
            },
    {
        let (command, len) = match Self::parse_header(buf) {
            Ok(h) => h,
            Err(e) => {
                return Err(e);
            },
        };
        let room: usize = buf.len() - ENVELOPE_HEADER_LEN;
        if room < len {
            return Err(EngineError::Protocol(text_of("truncated payload")));
        }
        let payload: Vec<u8> = copy_range(buf, ENVELOPE_HEADER_LEN, ENVELOPE_HEADER_LEN + len);
        Ok(RequestEnvelope { command, payload })
    }
}

/// An envelope with the given code byte.
fn encode_envelope(code: u8, payload: &[u8]) -> (buf: Vec<u8>)
    ensures
        buf@ == envelope(code, payload@),
{
    let mut buf: Vec<u8> = Vec::new();
    buf.push(PROTO_VERSION);
    buf.push(code);
    put_length(&mut buf, payload.len());
    append_bytes(&mut buf, payload);
    assert(buf@ =~= envelope(code, payload@));
    buf
}

/// A response envelope.
#[derive(Debug, PartialEq, Eq)]
pub struct ResponseEnvelope {
    pub status: Status,
    pub payload: Vec<u8>,
}

impl ResponseEnvelope {
    pub fn new(status: Status, payload: Vec<u8>) -> (r: Self)
        ensures
            r.status == status,
            r.payload@ == payload@,
    {
        ResponseEnvelope { status, payload }
    }

    pub fn ok(payload: Vec<u8>) -> (r: Self)
        ensures
            r.status == Status::Okay,
            r.payload@ == payload@,
    {
        ResponseEnvelope::new(Status::Okay, payload)
    }

    pub fn not_found() -> (r: Self)
        ensures
            r.status == Status::NotFound,
            r.payload@ == Seq::<u8>::empty(),
    {
        ResponseEnvelope::new(Status::NotFound, Vec::new())
    }

    pub fn error(status: Status, msg: &str) -> (r: Self)
        ensures
            r.status == status,
            r.payload@ == msg.spec_bytes(),
    {
        ResponseEnvelope::new(status, copy_bytes(msg.as_bytes()))
    }

    /// The envelope on the wire.
    pub fn encode(&self) -> (buf: Vec<u8>)
        ensures
            buf@ == envelope(self.status.code(), self.payload@),
    {
        encode_envelope(self.status.as_u8(), self.payload.as_slice())
    }

    /// Reads the status and the payload length from a header.
    pub fn parse_header(header: &[u8]) -> (r: Result<(Status, usize), EngineError>)
        ensures
            match r {
                Ok((s, n)) => {
                    &&& response_header_fault(header@) is None
                    &&& s.code() == header@[1]
                    &&& n == payload_len(header@)
                },
                Err(e) => response_header_fault(header@) matches Some(m) && is_protocol_error(e, m),
            },
    {
        if header.len() < ENVELOPE_HEADER_LEN {
            return Err(EngineError::Protocol(text_of("short response header")));
        }
        if header[0] != PROTO_VERSION {
            return Err(EngineError::Protocol(text_of("bad response version")));
        }
        match Status::from_u8(header[1]) {
            Some(s) => {
                proof {
                    be_limits();
                }
                let n: u64 = get_be(header, 2, 4);
                Ok((s, n as usize))
            },
            None => Err(EngineError::Protocol(text_of("unknown status"))),
        }
    }
}

/// A PUT payload. The engine does not interpret `routing_key`.
#[derive(Debug, PartialEq, Eq)]
pub struct PutPayload {
    pub routing_key: [u8; 16],
    /// Reserved, zero for now.
    pub txid: u64,
    /// Zero means no expiry.
    pub expires_at: u64,
    pub key: Vec<u8>,
    pub value: Vec<u8>,
}

/// What a PUT payload holds.
pub struct PutView {
    pub routing_key: Seq<u8>,
    pub txid: nat,
    pub expires_at: nat,
    pub key: Seq<u8>,
    pub value: Seq<u8>,
}

impl View for PutPayload {
    type V = PutView;

    open spec fn view(&self) -> PutView {
        PutView {
            routing_key: self.routing_key@,
            txid: self.txid as nat,
            expires_at: self.expires_at as nat,
            key: self.key@,
            value: self.value@,
        }
    }
}

impl PutView {
    /// The payload on the wire.
    pub open spec fn encoded(self) -> Seq<u8> {
        self.routing_key + be_bytes(self.txid, 8) + be_bytes(self.expires_at, 8) + be_bytes(
            length_field(self.key.len()),
            4,
        ) + be_bytes(length_field(self.value.len()), 4) + self.key + self.value
    }

    /// The payload that `p` stands for, or why it is refused.
    pub open spec fn decoded(p: Seq<u8>) -> Result<PutView, Seq<char>> {
        let key_len = be_value(p.subrange(32, 36));
        let value_len = be_value(p.subrange(36, 40));
        if p.len() < PUT_FIXED_LEN {
            Err("PUT payload too short"@)
        } else if p.len() != PUT_FIXED_LEN + key_len + value_len {
            Err("PUT payload length mismatch"@)
        } else {
            Ok(
                PutView {
                    routing_key: p.subrange(0, 16),
                    txid: be_value(p.subrange(16, 24)),
                    expires_at: be_value(p.subrange(24, 32)),
                    key: p.subrange(40, 40 + key_len as int),
                    value: p.subrange(40 + key_len as int, p.len() as int),
                },
            )
        }
    }
}

/// An encoded PUT payload decodes to itself, where the lengths fit the length
/// fields.
pub proof fn put_payload_round_trips(p: PutView)
    requires
        p.routing_key.len() == 16,
        p.txid <= u64::MAX,
        p.expires_at <= u64::MAX,
        p.key.len() <= u32::MAX,
        p.value.len() <= u32::MAX,
    ensures
        PutView::decoded(p.encoded()) == Ok::<PutView, Seq<char>>(p),
{
    let kl = length_field(p.key.len());
    let vl = length_field(p.value.len());
    be_limits();
    be_bytes_len(p.txid, 8);
    be_bytes_len(p.expires_at, 8);
    be_bytes_len(kl, 4);
    be_bytes_len(vl, 4);
    be_value_of_bytes(p.txid, 8);
    be_value_of_bytes(p.expires_at, 8);
    be_value_of_bytes(kl, 4);
    be_value_of_bytes(vl, 4);
    let b = p.encoded();
    assert(b.subrange(0, 16) =~= p.routing_key);
    assert(b.subrange(16, 24) =~= be_bytes(p.txid, 8));
    assert(b.subrange(24, 32) =~= be_bytes(p.expires_at, 8));
    assert(b.subrange(32, 36) =~= be_bytes(kl, 4));
    assert(b.subrange(36, 40) =~= be_bytes(vl, 4));
    assert(b.subrange(40, 40 + kl as int) =~= p.key);
    assert(b.subrange(40 + kl as int, b.len() as int) =~= p.value);
}

/// The first sixteen bytes of a buffer.
fn routing_key_of(p: &[u8]) -> (r: [u8; 16])
    requires
        p@.len() >= 16,
    ensures
        r@ == p@.subrange(0, 16),
{
    let mut r: [u8; 16] = [0u8; 16];
    let mut i: usize = 0;
    while i < 16
        invariant
            i <= 16,
            p@.len() >= 16,
            r@.len() == 16,
            forall|j: int| 0 <= j < i ==> #[trigger] r@[j] == p@[j],
        decreases 16 - i,
    {
        r[i] = p[i];
        i = i + 1;
    }
    assert(r@ =~= p@.subrange(0, 16));
    r
}

impl PutPayload {
    /// The payload on the wire.
    pub fn encode(&self) -> (buf: Vec<u8>)
        ensures
            buf@ == self@.encoded(),
    {
        let mut buf: Vec<u8> = copy_bytes(self.routing_key.as_slice());
        put_be(&mut buf, self.txid, 8);
        put_be(&mut buf, self.expires_at, 8);
        put_length(&mut buf, self.key.len());
        put_length(&mut buf, self.value.len());
        append_bytes(&mut buf, self.key.as_slice());
        append_bytes(&mut buf, self.value.as_slice());
        buf
    }

    /// Reads a payload from the wire.
    pub fn decode(p: &[u8]) -> (r: Result<PutPayload, EngineError>)
        ensures
            match r {
                Ok(q) => PutView::decoded(p@) == Ok::<PutView, Seq<char>>(q@),
                Err(e) => PutView::decoded(p@) matches Err(m) && is_protocol_error(e, m),
            },
    {
        let n: usize = p.len();
        if n < PUT_FIXED_LEN {
            return Err(EngineError::Protocol(text_of("PUT payload too short")));
        }
        proof {
            be_limits();
        }
        let routing_key: [u8; 16] = routing_key_of(p);
        let txid: u64 = get_be(p, 16, 8);
        let expires_at: u64 = get_be(p, 24, 8);
        let key_len: u64 = get_be(p, 32, 4);
        let value_len: u64 = get_be(p, 36, 4);
        if n as u64 != PUT_FIXED_LEN as u64 + key_len + value_len {
            return Err(EngineError::Protocol(text_of("PUT payload length mismatch")));
        }
        let at: usize = PUT_FIXED_LEN + key_len as usize;
        let key: Vec<u8> = copy_range(p, PUT_FIXED_LEN, at);
        let value: Vec<u8> = copy_range(p, at, n);
        Ok(PutPayload { routing_key, txid, expires_at, key, value })
    }
}

/// A GET or DEL payload. The engine does not interpret `routing_key`.
#[derive(Debug, PartialEq, Eq)]
pub struct KeyPayload {
    pub routing_key: [u8; 16],
    /// Reserved, zero for now.
    pub snapshot_seq: u64,
    pub key: Vec<u8>,
}

/// What a GET or DEL payload holds.
pub struct KeyPayloadView {
    pub routing_key: Seq<u8>,
    pub snapshot_seq: nat,
    pub key: Seq<u8>,
}

impl View for KeyPayload {
    type V = KeyPayloadView;

    open spec fn view(&self) -> KeyPayloadView {
        KeyPayloadView {
            routing_key: self.routing_key@,
            snapshot_seq: self.snapshot_seq as nat,
            key: self.key@,
        }
    }
}

impl KeyPayloadView {
    /// The payload on the wire.
    pub open spec fn encoded(self) -> Seq<u8> {
        self.routing_key + be_bytes(self.snapshot_seq, 8) + be_bytes(
            length_field(self.key.len()),
            4,
        ) + self.key
    }

    /// The payload that `p` stands for, or why it is refused.
    pub open spec fn decoded(p: Seq<u8>) -> Result<KeyPayloadView, Seq<char>> {
        if p.len() < KEY_FIXED_LEN {
            Err("key payload too short"@)
        } else if p.len() != KEY_FIXED_LEN + be_value(p.subrange(24, 28)) {
            Err("key payload length mismatch"@)
        } else {
            Ok(
                KeyPayloadView {
                    routing_key: p.subrange(0, 16),
                    snapshot_seq: be_value(p.subrange(16, 24)),
                    key: p.subrange(28, p.len() as int),
                },
            )
        }
    }
}

/// An encoded GET or DEL payload decodes to itself, where the key's length fits
/// the length field.
pub proof fn key_payload_round_trips(p: KeyPayloadView)
    requires
        p.routing_key.len() == 16,
        p.snapshot_seq <= u64::MAX,
        p.key.len() <= u32::MAX,
    ensures
        KeyPayloadView::decoded(p.encoded()) == Ok::<KeyPayloadView, Seq<char>>(p),
{
    let kl = length_field(p.key.len());
    be_limits();
    be_bytes_len(p.snapshot_seq, 8);
    be_bytes_len(kl, 4);
    be_value_of_bytes(p.snapshot_seq, 8);
    be_value_of_bytes(kl, 4);
    let b = p.encoded();
    assert(b.subrange(0, 16) =~= p.routing_key);
    assert(b.subrange(16, 24) =~= be_bytes(p.snapshot_seq, 8));
    assert(b.subrange(24, 28) =~= be_bytes(kl, 4));
    assert(b.subrange(28, b.len() as int) =~= p.key);
}

impl KeyPayload {
    /// The payload on the wire.
    pub fn encode(&self) -> (buf: Vec<u8>)
        ensures
            buf@ == self@.encoded(),
    {
        let mut buf: Vec<u8> = copy_bytes(self.routing_key.as_slice());
        put_be(&mut buf, self.snapshot_seq, 8);
        put_length(&mut buf, self.key.len());
        append_bytes(&mut buf, self.key.as_slice());
        buf
    }

    /// Reads a payload from the wire.
    pub fn decode(p: &[u8]) -> (r: Result<KeyPayload, EngineError>)
        ensures
            match r {
                Ok(q) => KeyPayloadView::decoded(p@) == Ok::<KeyPayloadView, Seq<char>>(q@),
                Err(e) => KeyPayloadView::decoded(p@) matches Err(m) && is_protocol_error(e, m),
            },
    {
        let n: usize = p.len();
        if n < KEY_FIXED_LEN {
            return Err(EngineError::Protocol(text_of("key payload too short")));
        }
        proof {
            be_limits();
        }
        let routing_key: [u8; 16] = routing_key_of(p);
        let snapshot_seq: u64 = get_be(p, 16, 8);
        let key_len: u64 = get_be(p, 24, 4);
        if n as u64 != KEY_FIXED_LEN as u64 + key_len {
            return Err(EngineError::Protocol(text_of("key payload length mismatch")));
        }
        let key: Vec<u8> = copy_range(p, KEY_FIXED_LEN, n);
        Ok(KeyPayload { routing_key, snapshot_seq, key })
    }
}

} // verus!
