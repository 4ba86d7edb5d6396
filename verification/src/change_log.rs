//! The retained archive of log segments from which change streams are served.
//!
//! A sealed segment is recorded in the archive's manifest before the live segment
//! may be unlinked. The archive serves the resumption of document change streams;
//! it is distinct from the shipping of segments to an operator.

use vstd::prelude::*;
use crate::bytes::{append_bytes, copy_bytes, copy_range, has_prefix, starts_with};
use crate::checksum::{crc32, crc32_of, sha256, sha256_of};
use crate::codec::{be_bytes, be_bytes_len, be_limits, be_value, be_value_of_bytes, get_be, put_be};
use crate::errors::{EngineError, EngineResult};
use crate::laws::changes::{pruning_drops_what_is_too_old_or_too_much, size_adds_up};
use crate::manifest::larger;
use crate::shipping::{hex_digit, hex_digit_value};
use crate::stable_sort::{
    arranged, arranging_adds_nothing, arranging_sorts, in_order, inserted, inserted_at, part,
    part_joins, part_of_arranged,
};
use crate::text::{
    chars_of, decimal, digit_char, hex, hex_text, push_decimal, text_of, text_with_number,
};
use crate::wal::{
    ending, intact, replay_segment_body, SEGMENT_HEADER_LEN, WAL_FORMAT_VERSION,
};
use crate::wal::{
    largest_seq, max_entry_seq, min_entry_seq, segment_filename, segment_name, segment_views,
    smallest_seq, wal_views, OpView, ReplayOutcome, SegmentView, WalCommand, WalEntry, WalOp,
    WalSegment, WalView,
};

verus! {

/// The name of the catalog's file, without its extension.
pub const MANIFEST_NAME: &'static str = "manifest";

pub const TOKEN_VERSION: u8 = 1;

/// Where the archive lies and how long it is kept. A limit of zero means none.
#[derive(Debug)]
pub struct ChangeLogConfig {
    pub archive_dir: String,
    pub retention_secs: u64,
    pub retention_bytes: u64,
}

/// One archived segment.
#[derive(Debug, PartialEq, Eq)]
pub struct ArchiveSegment {
    pub segment_id: u64,
    pub min_seq: u64,
    pub max_seq: u64,
    pub sealed_unix_ms: u64,
    pub size_bytes: u64,
    pub file_name: String,
}

/// What is recorded of an archived segment.
pub struct ArchiveView {
    pub segment_id: u64,
    pub min_seq: u64,
    pub max_seq: u64,
    pub sealed_unix_ms: u64,
    pub size_bytes: u64,
    pub file_name: Seq<char>,
}

impl View for ArchiveSegment {
    type V = ArchiveView;

    open spec fn view(&self) -> ArchiveView {
        ArchiveView {
            segment_id: self.segment_id,
            min_seq: self.min_seq,
            max_seq: self.max_seq,
            sealed_unix_ms: self.sealed_unix_ms,
            size_bytes: self.size_bytes,
            file_name: self.file_name@,
        }
    }
}

impl Clone for ArchiveSegment {
    fn clone(&self) -> (s: Self)
        ensures
            s@ == self@,
    {
        ArchiveSegment {
            segment_id: self.segment_id,
            min_seq: self.min_seq,
            max_seq: self.max_seq,
            sealed_unix_ms: self.sealed_unix_ms,
            size_bytes: self.size_bytes,
            file_name: text_of(self.file_name.as_str()),
        }
    }
}

pub open spec fn archive_views(s: Seq<ArchiveSegment>) -> Seq<ArchiveView> {
    Seq::new(s.len(), |i: int| s[i]@)
}

/// The catalog of the archive.
#[derive(Debug, PartialEq, Eq)]
pub struct ChangeLogManifest {
    /// The database's stable identity in hexadecimal digits, which resume tokens
    /// carry.
    pub database_id_hex: String,
    pub segments: Vec<ArchiveSegment>,
}

/// What a catalog holds.
pub struct CatalogView {
    pub database_id_hex: Seq<char>,
    pub segments: Seq<ArchiveView>,
}

impl View for ChangeLogManifest {
    type V = CatalogView;

    open spec fn view(&self) -> CatalogView {
        CatalogView {
            database_id_hex: self.database_id_hex@,
            segments: archive_views(self.segments@),
        }
    }
}

impl Clone for ChangeLogManifest {
    fn clone(&self) -> (m: Self)
        ensures
            m@ == self@,
    {
        let mut segments: Vec<ArchiveSegment> = Vec::new();
        let mut i: usize = 0;
        while i < self.segments.len()
            invariant
                i <= self.segments@.len(),
                segments@.len() == i,
                forall|j: int| 0 <= j < i ==> (#[trigger] segments@[j])@ == self.segments@[j]@,
            decreases self.segments.len() - i,
        {
            segments.push(self.segments[i].clone());
            i = i + 1;
        }
        assert(archive_views(segments@) =~= archive_views(self.segments@));
        ChangeLogManifest { database_id_hex: text_of(self.database_id_hex.as_str()), segments }
    }
}

/// The smallest of the first sequence numbers.
pub open spec fn earliest(s: Seq<ArchiveView>) -> Option<u64>
    decreases s.len(),
{
    if s.len() == 0 {
        None
    } else {
        match earliest(s.drop_last()) {
            Some(m) => if s.last().min_seq < m {
                Some(s.last().min_seq)
            } else {
                Some(m)
            },
            None => Some(s.last().min_seq),
        }
    }
}

/// The largest of the last sequence numbers.
pub open spec fn latest(s: Seq<ArchiveView>) -> Option<u64>
    decreases s.len(),
{
    if s.len() == 0 {
        None
    } else {
        match latest(s.drop_last()) {
            Some(m) => Some(larger(m, s.last().max_seq)),
            None => Some(s.last().max_seq),
        }
    }
}

/// The bytes of all segments.
pub open spec fn archived_bytes(s: Seq<ArchiveView>) -> nat
    decreases s.len(),
{
    if s.len() == 0 {
        0
    } else {
        archived_bytes(s.drop_last()) + s.last().size_bytes as nat
    }
}

proof fn archived_bytes_split(s: Seq<ArchiveView>, k: int)
    requires
        0 <= k <= s.len(),
    ensures
        archived_bytes(s) == archived_bytes(s.take(k)) + archived_bytes(s.skip(k)),
    decreases s.len(),
{
    if k == s.len() {
        assert(s.take(k) =~= s);
        assert(s.skip(k) =~= Seq::<ArchiveView>::empty());
    } else {
        archived_bytes_split(s.drop_last(), k);
        assert(s.drop_last().take(k) =~= s.take(k));
        assert(s.skip(k).drop_last() =~= s.drop_last().skip(k));
        assert(s.skip(k).last() == s.last());
    }
}

/// A segment of the given number is recorded.
pub open spec fn has_segment(s: Seq<ArchiveView>, id: u64) -> bool {
    exists|i: int| 0 <= i < s.len() && (#[trigger] s[i]).segment_id == id
}

/// What two hexadecimal digits stand for. A plus sign may take the place of the
/// first.
pub open spec fn hex_pair(a: char, b: char) -> Option<u8> {
    match hex_digit(b) {
        None => None,
        Some(y) => if a == '+' {
            Some(y as u8)
        } else {
            match hex_digit(a) {
                None => None,
                Some(x) => Some((16 * x + y) as u8),
            }
        },
    }
}

/// The sixteen bytes that thirty-two hexadecimal digits stand for.
pub open spec fn id_of_hex(s: Seq<char>) -> Option<Seq<u8>> {
    if s.len() == 32 && forall|i: int| 0 <= i < 16 ==> (#[trigger] hex_pair(s[2 * i], s[2 * i + 1])) is Some {
        Some(Seq::new(16, |i: int| hex_pair(s[2 * i], s[2 * i + 1])->0))
    } else {
        None
    }
}

pub proof fn hex_text_at(s: Seq<u8>, i: int)
    requires
        0 <= i < s.len(),
    ensures
        hex(s).len() == 2 * s.len(),
        hex(s)[2 * i] == digit_char((s[i] / 16) as nat),
        hex(s)[2 * i + 1] == digit_char((s[i] % 16) as nat),
    decreases s.len(),
{
    hex_len(s);
    hex_len(s.drop_last());
    if i < s.len() - 1 {
        hex_text_at(s.drop_last(), i);
    }
}

proof fn hex_len(s: Seq<u8>)
    ensures
        hex(s).len() == 2 * s.len(),
    decreases s.len(),
{
    if s.len() > 0 {
        hex_len(s.drop_last());
    }
}

proof fn hex_digit_of_digit(d: nat)
    requires
        d < 16,
    ensures
        hex_digit(digit_char(d)) == Some(d),
        digit_char(d) != '+',
{
}

/// An identity that was written in hexadecimal digits reads back as it was.
pub proof fn database_id_reads_back(id: Seq<u8>)
    requires
        id.len() == 16,
    ensures
        id_of_hex(hex(id)) == Some(id),
{
    let s = hex(id);
    hex_len(id);
    assert forall|i: int| 0 <= i < 16 implies (#[trigger] hex_pair(s[2 * i], s[2 * i + 1])) == Some(
        id[i],
    ) by {
        hex_text_at(id, i);
        hex_digit_of_digit((id[i] / 16) as nat);
        hex_digit_of_digit((id[i] % 16) as nat);
    }
    assert(id_of_hex(s)->0 =~= id);
}

/// Reads sixteen bytes from thirty-two hexadecimal digits.
fn hex_decode_16(s: &str) -> (r: EngineResult<[u8; 16]>)
    ensures
        match r {
            Ok(id) => id_of_hex(s@) == Some(id@),
            Err(e) => id_of_hex(s@) is None && (e matches EngineError::Io(t) && t@
                == "change_log: bad database_id hex"@),
        },
{
    let c: Vec<char> = chars_of(s);
    if c.len() != 32 {
        return Err(EngineError::Io(text_of("change_log: bad database_id hex")));
    }
    let mut id: [u8; 16] = [0u8; 16];
    let mut i: usize = 0;
    while i < 16
        invariant
            i <= 16,
            c@.len() == 32,
            c@ == s@,
            id@.len() == 16,
            forall|j: int|
                0 <= j < i ==> (#[trigger] hex_pair(s@[2 * j], s@[2 * j + 1])) == Some(id@[j]),
        decreases 16 - i,
    {
        let a: char = c[2 * i];
        let b: char = c[2 * i + 1];
        let lo: Option<u64> = hex_digit_value(b);
        let hi: Option<u64> = if a == '+' {
            Some(0)
        } else {
            hex_digit_value(a)
        };
        match (hi, lo) {
            (Some(x), Some(y)) => {
                id[i] = (16 * x + y) as u8;
                assert(hex_pair(s@[2 * i as int], s@[2 * i as int + 1]) == Some(id@[i as int]));
            },
            _ => {
                assert(hex_pair(s@[2 * i as int], s@[2 * i as int + 1]) is None);
                return Err(EngineError::Io(text_of("change_log: bad database_id hex")));
            },
        }
        i = i + 1;
    }
    assert(id_of_hex(s@)->0 =~= id@);
    Ok(id)
}

impl ChangeLogManifest {
    /// An empty catalog for a database.
    pub fn new(database_id: [u8; 16]) -> (m: Self)
        ensures
            m@ == (CatalogView { database_id_hex: hex(database_id@), segments: Seq::empty() }),
    {
        let m = ChangeLogManifest {
            database_id_hex: hex_text(database_id.as_slice()),
            segments: Vec::new(),
        };
        assert(m@.segments =~= Seq::<ArchiveView>::empty());
        m
    }

    /// The database's identity.
    pub fn database_id(&self) -> (r: EngineResult<[u8; 16]>)
        ensures
            match r {
                Ok(id) => id_of_hex(self@.database_id_hex) == Some(id@),
                Err(e) => id_of_hex(self@.database_id_hex) is None && (e matches EngineError::Io(t)
                    && t@ == "change_log: bad database_id hex"@),
            },
    {
        hex_decode_16(self.database_id_hex.as_str())
    }

    /// The first sequence number that the archive reaches back to.
    pub fn earliest_seq(&self) -> (r: Option<u64>)
        ensures
            r == earliest(self@.segments),
    {
        let ghost s = self@.segments;
        let mut r: Option<u64> = None;
        let mut i: usize = 0;
        assert(s.take(0) =~= Seq::<ArchiveView>::empty());
        while i < self.segments.len()
            invariant
                i <= self.segments@.len(),
                s == self@.segments,
                r == earliest(s.take(i as int)),
            decreases self.segments.len() - i,
        {
            proof {
                assert(s.take(i + 1).drop_last() =~= s.take(i as int));
                assert(s.take(i + 1).last() == self.segments@[i as int]@);
            }
            let q: u64 = self.segments[i].min_seq;
            r = match r {
                Some(m) => if q < m {
                    Some(q)
                } else {
                    Some(m)
                },
                None => Some(q),
            };
            i = i + 1;
        }
        assert(s.take(s.len() as int) =~= s);
        r
    }

    /// The last sequence number that the archive holds.
    pub fn latest_seq(&self) -> (r: Option<u64>)
        ensures
            r == latest(self@.segments),
    {
        let ghost s = self@.segments;
        let mut r: Option<u64> = None;
        let mut i: usize = 0;
        assert(s.take(0) =~= Seq::<ArchiveView>::empty());
        while i < self.segments.len()
            invariant
                i <= self.segments@.len(),
                s == self@.segments,
                r == latest(s.take(i as int)),
            decreases self.segments.len() - i,
        {
            proof {
                assert(s.take(i + 1).drop_last() =~= s.take(i as int));
                assert(s.take(i + 1).last() == self.segments@[i as int]@);
            }
            let q: u64 = self.segments[i].max_seq;
            r = match r {
                Some(m) => if q > m {
                    Some(q)
                } else {
                    Some(m)
                },
                None => Some(q),
            };
            i = i + 1;
        }
        assert(s.take(s.len() as int) =~= s);
        r
    }

    /// The bytes of all archived segments.
    pub fn total_bytes(&self) -> (n: u64)
        requires
            archived_bytes(self@.segments) <= u64::MAX,
        ensures
            n == archived_bytes(self@.segments),
    {
        let ghost s = self@.segments;
        let mut n: u64 = 0;
        let mut i: usize = 0;
        assert(s.take(0) =~= Seq::<ArchiveView>::empty());
        while i < self.segments.len()
            invariant
                i <= self.segments@.len(),
                s == self@.segments,
                archived_bytes(s) <= u64::MAX,
                n == archived_bytes(s.take(i as int)),
            decreases self.segments.len() - i,
        {
            proof {
                assert(s.take(i + 1).drop_last() =~= s.take(i as int));
                assert(s.take(i + 1).last() == self.segments@[i as int]@);
                archived_bytes_split(s, i + 1);
            }
            n = n + self.segments[i].size_bytes;
            i = i + 1;
        }
        assert(s.take(s.len() as int) =~= s);
        n
    }

    /// Whether a segment is recorded.
    pub fn contains_segment(&self, segment_id: u64) -> (r: bool)
        ensures
            r == has_segment(self@.segments, segment_id),
    {
        let mut i: usize = 0;
        while i < self.segments.len()
            invariant
                i <= self.segments@.len(),
                forall|j: int|
                    0 <= j < i ==> (#[trigger] self@.segments[j]).segment_id != segment_id,
            decreases self.segments.len() - i,
        {
            assert(self@.segments[i as int] == self.segments@[i as int]@);
            if self.segments[i].segment_id == segment_id {
                return true;
            }
            i = i + 1;
        }
        false
    }
}

/// Whether the archive holds a segment, so that the live segment may be unlinked.
pub fn is_archived(manifest: &ChangeLogManifest, segment_id: u64) -> (r: bool)
    ensures
        r == has_segment(manifest@.segments, segment_id),
{
    manifest.contains_segment(segment_id)
}

/// A position in the changes of a collection, bound to a database and a tenant.
#[derive(Debug, PartialEq, Eq)]
pub struct ResumeToken {
    pub database_id: [u8; 16],
    pub tenant_prefix: Vec<u8>,
    pub collection_id: u32,
    pub seq: u64,
    pub op_ordinal: u32,
}

/// What a token holds.
pub struct TokenView {
    pub database_id: Seq<u8>,
    pub tenant_prefix: Seq<u8>,
    pub collection_id: u32,
    pub seq: u64,
    pub op_ordinal: u32,
}

impl View for ResumeToken {
    type V = TokenView;

    open spec fn view(&self) -> TokenView {
        TokenView {
            database_id: self.database_id@,
            tenant_prefix: self.tenant_prefix@,
            collection_id: self.collection_id,
            seq: self.seq,
            op_ordinal: self.op_ordinal,
        }
    }
}

impl Clone for ResumeToken {
    fn clone(&self) -> (t: Self)
        ensures
            t@ == self@,
    {
        ResumeToken {
            database_id: self.database_id,
            tenant_prefix: copy_bytes(self.tenant_prefix.as_slice()),
            collection_id: self.collection_id,
            seq: self.seq,
            op_ordinal: self.op_ordinal,
        }
    }
}

impl TokenView {
    /// A token's bytes without their checksum.
    pub open spec fn body(self) -> Seq<u8> {
        seq![TOKEN_VERSION] + self.database_id + be_bytes(
            self.tenant_prefix.len() % 0x1_0000,
            2,
        ) + self.tenant_prefix + be_bytes(self.collection_id as nat, 4) + be_bytes(
            self.seq as nat,
            8,
        ) + be_bytes(self.op_ordinal as nat, 4)
    }

    /// A token's bytes.
    pub open spec fn encoded(self) -> Seq<u8> {
        self.body() + be_bytes(crc32(self.body()) as nat, 4)
    }

    /// The token that some bytes stand for, or why they are refused.
    pub open spec fn decoded(b: Seq<u8>) -> Result<TokenView, Seq<char>> {
        let n = b.len() - 4;
        let p = be_value(b.subrange(17, 19)) as int;
        if b.len() < 39 {
            Err("resume token truncated"@)
        } else if b[0] != TOKEN_VERSION {
            Err("unsupported resume token version "@ + decimal(b[0] as nat))
        } else if crc32(b.take(n)) != be_value(b.subrange(n, n + 4)) {
            Err("resume token checksum mismatch"@)
        } else if n < 19 + p + 16 {
            Err("resume token truncated"@)
        } else {
            Ok(
                TokenView {
                    database_id: b.subrange(1, 17),
                    tenant_prefix: b.subrange(19, 19 + p),
                    collection_id: be_value(b.subrange(19 + p, 23 + p)) as u32,
                    seq: be_value(b.subrange(23 + p, 31 + p)) as u64,
                    op_ordinal: be_value(b.subrange(31 + p, 35 + p)) as u32,
                },
            )
        }
    }
}

/// An encoded token decodes to itself, where the length of its prefix fits the
/// length field.
pub proof fn resume_token_round_trips(t: TokenView)
    requires
        t.database_id.len() == 16,
        t.tenant_prefix.len() <= u16::MAX,
    ensures
        TokenView::decoded(t.encoded()) == Ok::<TokenView, Seq<char>>(t),
{
    let b = t.encoded();
    let body = t.body();
    let p = t.tenant_prefix.len() as int;
    be_limits();
    be_bytes_len(p as nat % 0x1_0000, 2);
    be_bytes_len(t.collection_id as nat, 4);
    be_bytes_len(t.seq as nat, 8);
    be_bytes_len(t.op_ordinal as nat, 4);
    be_bytes_len(crc32(body) as nat, 4);
    be_value_of_bytes(p as nat % 0x1_0000, 2);
    be_value_of_bytes(t.collection_id as nat, 4);
    be_value_of_bytes(t.seq as nat, 8);
    be_value_of_bytes(t.op_ordinal as nat, 4);
    be_value_of_bytes(crc32(body) as nat, 4);
    let n = b.len() - 4;
    assert(b.take(n) =~= body);
    assert(b.subrange(n, n + 4) =~= be_bytes(crc32(body) as nat, 4));
    assert(b.subrange(1, 17) =~= t.database_id);
    assert(b.subrange(17, 19) =~= be_bytes(p as nat % 0x1_0000, 2));
    assert(b.subrange(19, 19 + p) =~= t.tenant_prefix);
    assert(b.subrange(19 + p, 23 + p) =~= be_bytes(t.collection_id as nat, 4));
    assert(b.subrange(23 + p, 31 + p) =~= be_bytes(t.seq as nat, 8));
    assert(b.subrange(31 + p, 35 + p) =~= be_bytes(t.op_ordinal as nat, 4));
}

/// The sixteen bytes of a buffer from `at`.
fn sixteen_at(b: &[u8], at: usize) -> (r: [u8; 16])
    requires
        at + 16 <= b@.len(),
    ensures
        r@ == b@.subrange(at as int, at + 16),
{
    let n: usize = b.len();
    let mut r: [u8; 16] = [0u8; 16];
    let mut i: usize = 0;
    while i < 16
        invariant
            i <= 16,
            at + 16 <= n == b@.len(),
            r@.len() == 16,
            forall|j: int| 0 <= j < i ==> #[trigger] r@[j] == b@[at + j],
        decreases 16 - i,
    {
        r[i] = b[at + i];
        i = i + 1;
    }
    assert(r@ =~= b@.subrange(at as int, at + 16));
    r
}

impl ResumeToken {
    /// The token's bytes.
    pub fn encode(&self) -> (b: Vec<u8>)
        ensures
            b@ == self@.encoded(),
    {
        let mut b: Vec<u8> = Vec::new();
        b.push(TOKEN_VERSION);
        append_bytes(&mut b, self.database_id.as_slice());
        put_be(&mut b, self.tenant_prefix.len() as u64 % 0x1_0000, 2);
        append_bytes(&mut b, self.tenant_prefix.as_slice());
        put_be(&mut b, self.collection_id as u64, 4);
        put_be(&mut b, self.seq, 8);
        put_be(&mut b, self.op_ordinal as u64, 4);
        assert(b@ =~= self@.body());
        let crc: u32 = crc32_of(b.as_slice());
        put_be(&mut b, crc as u64, 4);
        b
    }

    /// Reads a token.
    pub fn decode(bytes: &[u8]) -> (r: EngineResult<ResumeToken>)
        ensures
            match r {
                Ok(t) => TokenView::decoded(bytes@) == Ok::<TokenView, Seq<char>>(t@),
                Err(e) => TokenView::decoded(bytes@) matches Err(m) && (
                e matches EngineError::Protocol(t) && t@ == m),
            },
    {
        let len: usize = bytes.len();
        if len < 39 {
            return Err(EngineError::Protocol(text_of("resume token truncated")));
        }
        if bytes[0] != TOKEN_VERSION {
            let text: String = text_with_number(
                "unsupported resume token version ",
                bytes[0] as u64,
                "",
            );
            proof {
                reveal_strlit("");
                assert(text@ =~= "unsupported resume token version "@ + decimal(bytes@[0] as nat));
            }
            return Err(EngineError::Protocol(text));
        }
        proof {
            be_limits();
        }
        let n: usize = len - 4;
        let body: &[u8] = vstd::slice::slice_subrange(bytes, 0, n);
        assert(body@ =~= bytes@.take(n as int));
        let actual: u64 = get_be(bytes, n, 4);
        if crc32_of(body) as u64 != actual {
            return Err(EngineError::Protocol(text_of("resume token checksum mismatch")));
        }
        let database_id: [u8; 16] = sixteen_at(bytes, 1);
        let p: usize = get_be(bytes, 17, 2) as usize;
        if n < 19 + p + 16 {
            return Err(EngineError::Protocol(text_of("resume token truncated")));
        }
        let tenant_prefix: Vec<u8> = copy_range(bytes, 19, 19 + p);
        let collection_id: u32 = get_be(bytes, 19 + p, 4) as u32;
        let seq: u64 = get_be(bytes, 23 + p, 8);
        let op_ordinal: u32 = get_be(bytes, 31 + p, 4) as u32;
        Ok(ResumeToken { database_id, tenant_prefix, collection_id, seq, op_ordinal })
    }
}

#[derive(Debug, Clone, Copy, PartialEq, Eq, Structural)]
pub enum LogicalChangeKind {
    Upsert,
    Delete,
}

/// One change of a document's body.
#[derive(Debug, PartialEq, Eq)]
pub struct LogicalChange {
    pub seq: u64,
    pub op_ordinal: u32,
    pub collection_id: u32,
    pub doc_id: Vec<u8>,
    pub kind: LogicalChangeKind,
    /// The stored value with its kind byte, empty for a deletion.
    pub stored_value: Vec<u8>,
}

/// What a change holds.
pub struct ChangeView {
    pub seq: u64,
    pub op_ordinal: u32,
    pub collection_id: u32,
    pub doc_id: Seq<u8>,
    pub kind: LogicalChangeKind,
    pub stored_value: Seq<u8>,
}

impl View for LogicalChange {
    type V = ChangeView;

    open spec fn view(&self) -> ChangeView {
        ChangeView {
            seq: self.seq,
            op_ordinal: self.op_ordinal,
            collection_id: self.collection_id,
            doc_id: self.doc_id@,
            kind: self.kind,
            stored_value: self.stored_value@,
        }
    }
}

pub open spec fn change_views(s: Seq<LogicalChange>) -> Seq<ChangeView> {
    Seq::new(s.len(), |i: int| s[i]@)
}

/// The key is that of a document's body in the tenant's collection: the prefix,
/// the letter `d`, the collection's number and the document's identity.
pub open spec fn doc_body_key(key: Seq<u8>, tenant_prefix: Seq<u8>, collection_id: u32) -> bool {
    let n = tenant_prefix.len() as int;
    &&& key.len() >= n + 5
    &&& has_prefix(key, tenant_prefix)
    &&& key[n] == 100
    &&& be_value(key.subrange(n + 1, n + 5)) == collection_id
}

/// Whether a key is that of a document's body in the tenant's collection.
pub fn is_doc_body_key(key: &[u8], tenant_prefix: &[u8], collection_id: u32) -> (r: bool)
    ensures
        r == doc_body_key(key@, tenant_prefix@, collection_id),
{
    let n: usize = tenant_prefix.len();
    if key.len() < 5 || key.len() - 5 < n {
        return false;
    }
    if !starts_with(key, tenant_prefix) {
        return false;
    }
    if key[n] != 100 {
        return false;
    }
    get_be(key, n + 1, 4) == collection_id as u64
}

/// Which changes a stream asks for: those of a tenant's collection strictly after
/// a position.
pub struct ChangeQuery {
    pub tenant_prefix: Seq<u8>,
    pub collection_id: u32,
    pub after_seq: u64,
    pub after_ord: u32,
}

impl ChangeQuery {
    /// The position comes strictly after the one that the stream has reached.
    pub open spec fn is_after(self, seq: u64, ord: u32) -> bool {
        seq > self.after_seq || (seq == self.after_seq && ord > self.after_ord)
    }

    /// What an operation means to the stream.
    pub open spec fn change(self, op: OpView, seq: u64, ord: u32) -> Option<ChangeView> {
        if self.is_after(seq, ord) && doc_body_key(
            op.key,
            self.tenant_prefix,
            self.collection_id,
        ) {
            Some(
                ChangeView {
                    seq,
                    op_ordinal: ord,
                    collection_id: self.collection_id,
                    doc_id: op.key.skip(self.tenant_prefix.len() as int + 5),
                    kind: match op.command {
                        WalCommand::Put => LogicalChangeKind::Upsert,
                        WalCommand::Del => LogicalChangeKind::Delete,
                    },
                    stored_value: match op.command {
                        WalCommand::Put => op.value,
                        WalCommand::Del => Seq::empty(),
                    },
                },
            )
        } else {
            None
        }
    }

    /// The changes of the first `n` operations of a record.
    pub open spec fn of_ops(self, e: WalView, n: int) -> Seq<ChangeView>
        decreases n,
    {
        if n <= 0 {
            Seq::empty()
        } else {
            match self.change(e.ops[n - 1], e.seq, (n - 1) as u32) {
                Some(c) => self.of_ops(e, n - 1).push(c),
                None => self.of_ops(e, n - 1),
            }
        }
    }

    /// The changes of the first `n` records.
    pub open spec fn of_entries(self, es: Seq<WalView>, n: int) -> Seq<ChangeView>
        decreases n,
    {
        if n <= 0 {
            Seq::empty()
        } else {
            self.of_entries(es, n - 1) + self.of_ops(es[n - 1], es[n - 1].ops.len() as int)
        }
    }

    /// The changes of the first `n` archived segments, or the number of the first
    /// damaged one. Segments that end before the position are passed over.
    pub open spec fn of_segments(
        self,
        recorded: Seq<ArchiveView>,
        read: Seq<SegmentView>,
        n: int,
    ) -> Result<Seq<ChangeView>, u64>
        decreases n,
    {
        if n <= 0 {
            Ok(Seq::empty())
        } else {
            match self.of_segments(recorded, read, n - 1) {
                Err(id) => Err(id),
                Ok(s) => if recorded[n - 1].max_seq < self.after_seq {
                    Ok(s)
                } else if read[n - 1].outcome is Corruption {
                    Err(recorded[n - 1].segment_id)
                } else {
                    Ok(
                        s + self.of_entries(
                            read[n - 1].entries,
                            read[n - 1].entries.len() as int,
                        ),
                    )
                },
            }
        }
    }

    /// The changes of the archive and then of the live segment.
    pub open spec fn of_all(
        self,
        recorded: Seq<ArchiveView>,
        read: Seq<SegmentView>,
        live: Seq<WalView>,
    ) -> Result<Seq<ChangeView>, u64> {
        match self.of_segments(recorded, read, recorded.len() as int) {
            Err(id) => Err(id),
            Ok(s) => Ok(s + self.of_entries(live, live.len() as int)),
        }
    }

    /// Every change is one that the stream asks for.
    pub open spec fn admits(self, s: Seq<ChangeView>) -> bool {
        forall|i: int|
            0 <= i < s.len() ==> self.is_after((#[trigger] s[i]).seq, s[i].op_ordinal)
                && s[i].collection_id == self.collection_id
    }

    proof fn ops_are_admitted(self, e: WalView, n: int)
        ensures
            self.admits(self.of_ops(e, n)),
        decreases n,
    {
        if n > 0 {
            self.ops_are_admitted(e, n - 1);
        }
    }

    proof fn entries_are_admitted(self, es: Seq<WalView>, n: int)
        ensures
            self.admits(self.of_entries(es, n)),
        decreases n,
    {
        if n > 0 {
            self.entries_are_admitted(es, n - 1);
            self.ops_are_admitted(es[n - 1], es[n - 1].ops.len() as int);
        }
    }

    proof fn segments_are_admitted(
        self,
        recorded: Seq<ArchiveView>,
        read: Seq<SegmentView>,
        n: int,
    )
        ensures
            self.of_segments(recorded, read, n) matches Ok(s) ==> self.admits(s),
        decreases n,
    {
        if n > 0 {
            self.segments_are_admitted(recorded, read, n - 1);
            self.entries_are_admitted(read[n - 1].entries, read[n - 1].entries.len() as int);
        }
    }

    proof fn damage_stops(self, recorded: Seq<ArchiveView>, read: Seq<SegmentView>, k: int, n: int)
        requires
            0 < k <= n,
            self.of_segments(recorded, read, k) is Err,
        ensures
            self.of_segments(recorded, read, n) == self.of_segments(recorded, read, k),
        decreases n,
    {
        if k < n {
            self.damage_stops(recorded, read, k, n - 1);
        }
    }
}

/// The order of changes: by sequence number, then by ordinal.
pub open spec fn change_rank() -> spec_fn(ChangeView) -> nat {
    |c: ChangeView| c.seq as nat * 0x1_0000_0000 + c.op_ordinal as nat
}

/// A stream's changes come in the order of their positions, and each lies strictly
/// after the position that the stream has reached.
pub proof fn changes_resume_in_order(
    q: ChangeQuery,
    recorded: Seq<ArchiveView>,
    read: Seq<SegmentView>,
    live: Seq<WalView>,
)
    requires
        q.of_all(recorded, read, live) is Ok,
    ensures
        ({
            let s = arranged(q.of_all(recorded, read, live)->Ok_0, change_rank());
            in_order(s, change_rank()) && q.admits(s)
        }),
{
    let raw = q.of_all(recorded, read, live)->Ok_0;
    let s = arranged(raw, change_rank());
    q.segments_are_admitted(recorded, read, recorded.len() as int);
    q.entries_are_admitted(live, live.len() as int);
    assert(q.admits(raw));
    arranging_sorts(raw, change_rank());
    assert forall|i: int| 0 <= i < s.len() implies q.is_after((#[trigger] s[i]).seq, s[i].op_ordinal)
        && s[i].collection_id == q.collection_id by {
        arranging_adds_nothing(raw, change_rank(), i);
        let j = choose|j: int| 0 <= j < raw.len() && raw[j] == s[i];
        assert(q.is_after(raw[j].seq, raw[j].op_ordinal));
    }
}

/// The query asks for the same collection from a position that is not before that of
/// `earlier`.
pub open spec fn resumes(q: ChangeQuery, earlier: ChangeQuery) -> bool {
    &&& q.tenant_prefix == earlier.tenant_prefix
    &&& q.collection_id == earlier.collection_id
    &&& !q.is_after(earlier.after_seq, earlier.after_ord)
}

/// The changes after the position of a query.
pub open spec fn changes_after(s: Seq<ChangeView>, q: ChangeQuery) -> Seq<ChangeView> {
    part(s, |c: ChangeView| q.is_after(c.seq, c.op_ordinal))
}

/// The archive's catalog bounds the sequence numbers of its segments.
pub open spec fn bounds_segments(recorded: Seq<ArchiveView>, read: Seq<SegmentView>) -> bool {
    &&& read.len() == recorded.len()
    &&& forall|i: int, j: int|
        #![trigger read[i].entries[j]]
        0 <= i < read.len() && 0 <= j < read[i].entries.len() ==> read[i].entries[j].seq
            <= recorded[i].max_seq
}

proof fn ops_resume(q: ChangeQuery, p: ChangeQuery, e: WalView, n: int)
    requires
        resumes(q, p),
    ensures
        q.of_ops(e, n) == changes_after(p.of_ops(e, n), q),
        e.seq < q.after_seq ==> q.of_ops(e, n).len() == 0,
    decreases n,
{
    if n > 0 {
        ops_resume(q, p, e, n - 1);
        let before = p.of_ops(e, n - 1);
        match p.change(e.ops[n - 1], e.seq, (n - 1) as u32) {
            Some(c) => {
                assert(before.push(c).drop_last() =~= before);
            },
            None => {},
        }
    }
}

proof fn entries_resume(q: ChangeQuery, p: ChangeQuery, es: Seq<WalView>, n: int)
    requires
        resumes(q, p),
        0 <= n <= es.len(),
    ensures
        q.of_entries(es, n) == changes_after(p.of_entries(es, n), q),
        (forall|j: int| 0 <= j < n ==> (#[trigger] es[j]).seq < q.after_seq) ==> q.of_entries(
            es,
            n,
        ).len() == 0,
    decreases n,
{
    if n > 0 {
        let e = es[n - 1];
        entries_resume(q, p, es, n - 1);
        ops_resume(q, p, e, e.ops.len() as int);
        part_joins(
            p.of_entries(es, n - 1),
            p.of_ops(e, e.ops.len() as int),
            |c: ChangeView| q.is_after(c.seq, c.op_ordinal),
        );
        if forall|j: int| 0 <= j < n ==> (#[trigger] es[j]).seq < q.after_seq {
            assert(es[n - 1].seq < q.after_seq);
        }
    }
}

proof fn segments_resume(
    q: ChangeQuery,
    p: ChangeQuery,
    recorded: Seq<ArchiveView>,
    read: Seq<SegmentView>,
    n: int,
)
    requires
        resumes(q, p),
        bounds_segments(recorded, read),
        0 <= n <= recorded.len(),
        p.of_segments(recorded, read, n) is Ok,
    ensures
        q.of_segments(recorded, read, n) == Ok::<Seq<ChangeView>, u64>(
            changes_after(p.of_segments(recorded, read, n)->Ok_0, q),
        ),
    decreases n,
{
    if n > 0 {
        segments_resume(q, p, recorded, read, n - 1);
        let es = read[n - 1].entries;
        if recorded[n - 1].max_seq >= p.after_seq {
            entries_resume(q, p, es, es.len() as int);
            part_joins(
                p.of_segments(recorded, read, n - 1)->Ok_0,
                p.of_entries(es, es.len() as int),
                |c: ChangeView| q.is_after(c.seq, c.op_ordinal),
            );
            if recorded[n - 1].max_seq < q.after_seq {
                assert forall|j: int| 0 <= j < es.len() implies (#[trigger] es[j]).seq
                    < q.after_seq by {
                    assert(read[n - 1].entries[j].seq <= recorded[n - 1].max_seq);
                }
                let s = changes_after(p.of_segments(recorded, read, n - 1)->Ok_0, q);
                assert(s + q.of_entries(es, es.len() as int) =~= s);
            }
        }
    }
}

/// A stream that resumes at a later position gets exactly the changes after it of what
/// it would have got from the earlier position, in the same order. So nothing is lost or
/// repeated between the two.
pub proof fn resuming_continues_the_stream(
    q: ChangeQuery,
    earlier: ChangeQuery,
    recorded: Seq<ArchiveView>,
    read: Seq<SegmentView>,
    live: Seq<WalView>,
)
    requires
        resumes(q, earlier),
        bounds_segments(recorded, read),
        earlier.of_all(recorded, read, live) is Ok,
    ensures
        q.of_all(recorded, read, live) is Ok,
        arranged(q.of_all(recorded, read, live)->Ok_0, change_rank()) == changes_after(
            arranged(earlier.of_all(recorded, read, live)->Ok_0, change_rank()),
            q,
        ),
{
    let n = recorded.len() as int;
    let keep = |c: ChangeView| q.is_after(c.seq, c.op_ordinal);
    segments_resume(q, earlier, recorded, read, n);
    entries_resume(q, earlier, live, live.len() as int);
    part_joins(
        earlier.of_segments(recorded, read, n)->Ok_0,
        earlier.of_entries(live, live.len() as int),
        keep,
    );
    part_of_arranged(earlier.of_all(recorded, read, live)->Ok_0, change_rank(), keep);
}

/// Some record of the log holds, at the ordinal of the change, the operation that the
/// change tells of.
pub open spec fn tells_of(q: ChangeQuery, es: Seq<WalView>, c: ChangeView) -> bool {
    exists|k: int, i: int|
        #![trigger es[k].ops[i]]
        0 <= k < es.len() && 0 <= i < es[k].ops.len() && q.change(es[k].ops[i], es[k].seq, i as u32)
            == Some(c)
}

proof fn ops_told(q: ChangeQuery, e: WalView, n: int, c: ChangeView)
    requires
        0 <= n <= e.ops.len(),
    ensures
        q.of_ops(e, n).contains(c) <==> exists|i: int|
            0 <= i < n && q.change(#[trigger] e.ops[i], e.seq, i as u32) == Some(c),
    decreases n,
{
    if n > 0 {
        ops_told(q, e, n - 1, c);
        let before = q.of_ops(e, n - 1);
        let now = q.of_ops(e, n);
        if before.contains(c) {
            let j = choose|j: int| 0 <= j < before.len() && before[j] == c;
            assert(now[j] == c);
        }
        if now.contains(c) && !before.contains(c) {
            let j = choose|j: int| 0 <= j < now.len() && now[j] == c;
            if j < before.len() {
                assert(before[j] == c);
            }
            assert(q.change(e.ops[n - 1], e.seq, (n - 1) as u32) == Some(c));
        }
        if q.change(e.ops[n - 1], e.seq, (n - 1) as u32) == Some(c) {
            assert(now[now.len() - 1] == c);
        }
        if exists|i: int| 0 <= i < n && q.change(#[trigger] e.ops[i], e.seq, i as u32) == Some(c) {
            let i = choose|i: int|
                0 <= i < n && q.change(#[trigger] e.ops[i], e.seq, i as u32) == Some(c);
            if i < n - 1 {
                assert(q.change(e.ops[i], e.seq, i as u32) == Some(c));
                assert(before.contains(c));
            }
        }
    }
}

/// The changes of some records tell of just the operations on the collection's documents
/// after the position, each under the ordinal that it has among all operations of its
/// record.
pub proof fn changes_tell_of_operations(q: ChangeQuery, es: Seq<WalView>, c: ChangeView)
    ensures
        q.of_entries(es, es.len() as int).contains(c) <==> tells_of(q, es, c),
    decreases es.len(),
{
    if es.len() == 0 {
    } else {
        let front = es.drop_last();
        let e = es.last();
        let n = es.len() as int;
        changes_tell_of_operations(q, front, c);
        entries_take(q, es, front, n - 1);
        ops_told(q, e, e.ops.len() as int, c);
        let a = q.of_entries(es, n - 1);
        let b = q.of_ops(e, e.ops.len() as int);
        let s = q.of_entries(es, n);
        assert(s.contains(c) <==> a.contains(c) || b.contains(c)) by {
            if a.contains(c) {
                let j = choose|j: int| 0 <= j < a.len() && a[j] == c;
                assert(s[j] == c);
            }
            if b.contains(c) {
                let j = choose|j: int| 0 <= j < b.len() && b[j] == c;
                assert(s[a.len() + j] == c);
            }
            if s.contains(c) {
                let j = choose|j: int| 0 <= j < s.len() && s[j] == c;
                if j < a.len() {
                    assert(a[j] == c);
                } else {
                    assert(b[j - a.len()] == c);
                }
            }
        }
        if tells_of(q, front, c) {
            let (k, i) = choose|k: int, i: int|
                #![trigger front[k].ops[i]]
                0 <= k < front.len() && 0 <= i < front[k].ops.len() && q.change(
                    front[k].ops[i],
                    front[k].seq,
                    i as u32,
                ) == Some(c);
            assert(es[k].ops[i] == front[k].ops[i]);
        }
        if b.contains(c) {
            let i = choose|i: int|
                0 <= i < e.ops.len() && q.change(#[trigger] e.ops[i], e.seq, i as u32) == Some(c);
            assert(es[n - 1].ops[i] == e.ops[i]);
        }
        if tells_of(q, es, c) {
            let (k, i) = choose|k: int, i: int|
                #![trigger es[k].ops[i]]
                0 <= k < es.len() && 0 <= i < es[k].ops.len() && q.change(
                    es[k].ops[i],
                    es[k].seq,
                    i as u32,
                ) == Some(c);
            if k < n - 1 {
                assert(front[k].ops[i] == es[k].ops[i]);
            } else {
                assert(e.ops[i] == es[k].ops[i]);
            }
        }
    }
}

proof fn entries_take(q: ChangeQuery, a: Seq<WalView>, b: Seq<WalView>, n: int)
    requires
        0 <= n <= a.len(),
        n <= b.len(),
        forall|i: int| 0 <= i < n ==> #[trigger] a[i] == b[i],
    ensures
        q.of_entries(a, n) == q.of_entries(b, n),
    decreases n,
{
    if n > 0 {
        entries_take(q, a, b, n - 1);
        assert(a[n - 1] == b[n - 1]);
    }
}

/// Puts a change in its place among changes that are in order.
fn place_change(out: &mut Vec<LogicalChange>, c: LogicalChange)
    ensures
        change_views(final(out)@) == inserted(change_views(old(out)@), c@, change_rank()),
{
    let ghost s = change_views(out@);
    let mut p: usize = out.len();
    let mut placed: bool = false;
    while p > 0 && !placed
        invariant
            p <= out@.len(),
            s == change_views(out@),
            forall|i: int| p <= i < s.len() ==> change_rank()(#[trigger] s[i]) > change_rank()(c@),
            placed ==> p > 0 && change_rank()(s[p - 1]) <= change_rank()(c@),
        decreases p, if placed { 0int } else { 1int },
    {
        assert(s[p - 1] == out@[p - 1]@);
        let later: bool = out[p - 1].seq > c.seq || (out[p - 1].seq == c.seq && out[p
            - 1].op_ordinal > c.op_ordinal);
        assert(later == (change_rank()(s[p - 1]) > change_rank()(c@)));
        if later {
            p = p - 1;
        } else {
            placed = true;
        }
    }
    out.insert(p, c);
    proof {
        inserted_at(s, c@, change_rank(), p as int);
        assert(change_views(out@) =~= s.insert(p as int, c@));
    }
}

/// Adds the changes of a record, in their places.
fn take_entry(
    out: &mut Vec<LogicalChange>,
    e: &WalEntry,
    tenant_prefix: &[u8],
    collection_id: u32,
    after_seq: u64,
    after_ord: u32,
    Ghost(raw): Ghost<Seq<ChangeView>>,
)
    requires
        change_views(old(out)@) == arranged(raw, change_rank()),
    ensures
        ({
            let q = ChangeQuery {
                tenant_prefix: tenant_prefix@,
                collection_id,
                after_seq,
                after_ord,
            };
            change_views(final(out)@) == arranged(
                raw + q.of_ops(e@, e@.ops.len() as int),
                change_rank(),
            )
        }),
{
    let ghost q = ChangeQuery {
        tenant_prefix: tenant_prefix@,
        collection_id,
        after_seq,
        after_ord,
    };
    let mut i: usize = 0;
    assert(raw + q.of_ops(e@, 0) =~= raw);
    while i < e.ops.len()
        invariant
            i <= e.ops@.len(),
            q == (ChangeQuery {
                tenant_prefix: tenant_prefix@,
                collection_id,
                after_seq,
                after_ord,
            }),
            change_views(out@) == arranged(raw + q.of_ops(e@, i as int), change_rank()),
        decreases e.ops.len() - i,
    {
        let op: &WalOp = &e.ops[i];
        let ord: u32 = #[verifier::truncate]
        (i as u32);
        assert(e@.ops[i as int] == op@);
        assert(ord == (i as int) as u32);
        let ghost before = q.of_ops(e@, i as int);
        let past: bool = e.seq < after_seq || (e.seq == after_seq && ord <= after_ord);
        if !past && is_doc_body_key(op.key.as_slice(), tenant_prefix, collection_id) {
            let end: usize = op.key.len();
            let doc_id: Vec<u8> = copy_range(op.key.as_slice(), tenant_prefix.len() + 5, end);
            let change: LogicalChange = match op.command {
                WalCommand::Put => LogicalChange {
                    seq: e.seq,
                    op_ordinal: ord,
                    collection_id,
                    doc_id,
                    kind: LogicalChangeKind::Upsert,
                    stored_value: copy_bytes(op.value.as_slice()),
                },
                WalCommand::Del => LogicalChange {
                    seq: e.seq,
                    op_ordinal: ord,
                    collection_id,
                    doc_id,
                    kind: LogicalChangeKind::Delete,
                    stored_value: Vec::new(),
                },
            };
            assert(change@.doc_id =~= op@.key.skip(tenant_prefix@.len() as int + 5));
            assert(change@.stored_value =~= q.change(op@, e.seq, ord)->0.stored_value);
            assert(q.change(op@, e.seq, ord) == Some(change@));
            let ghost c = change@;
            place_change(out, change);
            proof {
                let all = raw + before.push(c);
                assert(all.drop_last() =~= raw + before);
                assert(all.last() == c);
                assert(raw + q.of_ops(e@, i + 1) =~= all);
            }
        }
        i = i + 1;
    }
}

/// The changes of a tenant's collection strictly after a position, in order: those
/// of the archived segments, which `read` holds in the order of the catalog, and
/// those of the live segment. Of the live segment, whose end may be torn, the
/// intact records count.
pub fn iter_logical_changes_after(
    manifest: &ChangeLogManifest,
    read: &Vec<WalSegment>,
    live: &Vec<WalEntry>,
    tenant_prefix: &[u8],
    collection_id: u32,
    after_seq: u64,
    after_ord: u32,
) -> (r: EngineResult<Vec<LogicalChange>>)
    requires
        read@.len() == manifest.segments@.len(),
    ensures
        ({
            let q = ChangeQuery {
                tenant_prefix: tenant_prefix@,
                collection_id,
                after_seq,
                after_ord,
            };
            let found = q.of_all(manifest@.segments, segment_views(read@), wal_views(live@));
            match r {
                Ok(v) => found is Ok && change_views(v@) == arranged(found->Ok_0, change_rank()),
                Err(e) => found matches Err(id) && (e matches EngineError::Io(t) && t@
                    == "change_log: archived segment "@ + decimal(id as nat) + " corrupted"@),
            }
        }),
{
    let ghost q = ChangeQuery {
        tenant_prefix: tenant_prefix@,
        collection_id,
        after_seq,
        after_ord,
    };
    let ghost recorded = manifest@.segments;
    let ghost segs = segment_views(read@);
    let ghost tail = wal_views(live@);
    let ghost total = recorded.len() as int;
    let ghost mut raw = Seq::<ChangeView>::empty();
    let mut out: Vec<LogicalChange> = Vec::new();
    assert(change_views(out@) =~= raw);
    let mut i: usize = 0;
    while i < read.len()
        invariant
            i <= read@.len() == manifest.segments@.len() == total,
            recorded == manifest@.segments,
            segs == segment_views(read@),
            q == (ChangeQuery {
                tenant_prefix: tenant_prefix@,
                collection_id,
                after_seq,
                after_ord,
            }),
            q.of_segments(recorded, segs, i as int) == Ok::<Seq<ChangeView>, u64>(raw),
            change_views(out@) == arranged(raw, change_rank()),
        decreases read.len() - i,
    {
        assert(recorded[i as int] == manifest.segments@[i as int]@);
        assert(segs[i as int] == read@[i as int]@);
        proof {
            if q.of_segments(recorded, segs, i + 1) is Err {
                q.damage_stops(recorded, segs, i + 1, total);
            }
        }
        if manifest.segments[i].max_seq >= after_seq {
            if matches!(read[i].outcome, ReplayOutcome::Corruption) {
                return Err(
                    EngineError::Io(
                        text_with_number(
                            "change_log: archived segment ",
                            manifest.segments[i].segment_id,
                            " corrupted",
                        ),
                    ),
                );
            }
            let seg: &WalSegment = &read[i];
            let ghost es = seg@.entries;
            let ghost base = raw;
            let mut j: usize = 0;
            assert(base + q.of_entries(es, 0) =~= base);
            while j < seg.entries.len()
                invariant
                    j <= seg.entries@.len(),
                    es == wal_views(seg.entries@),
                    q == (ChangeQuery {
                        tenant_prefix: tenant_prefix@,
                        collection_id,
                        after_seq,
                        after_ord,
                    }),
                    raw == base + q.of_entries(es, j as int),
                    change_views(out@) == arranged(raw, change_rank()),
                decreases seg.entries.len() - j,
            {
                assert(es[j as int] == seg.entries@[j as int]@);
                take_entry(
                    &mut out,
                    &seg.entries[j],
                    tenant_prefix,
                    collection_id,
                    after_seq,
                    after_ord,
                    Ghost(raw),
                );
                proof {
                    let more = q.of_ops(es[j as int], es[j as int].ops.len() as int);
                    assert(raw + more =~= base + q.of_entries(es, j + 1));
                    raw = raw + more;
                }
                j = j + 1;
            }
        }
        i = i + 1;
    }
    let ghost base = raw;
    let mut k: usize = 0;
    assert(base + q.of_entries(tail, 0) =~= base);
    while k < live.len()
        invariant
            k <= live@.len(),
            tail == wal_views(live@),
            q == (ChangeQuery {
                tenant_prefix: tenant_prefix@,
                collection_id,
                after_seq,
                after_ord,
            }),
            raw == base + q.of_entries(tail, k as int),
            change_views(out@) == arranged(raw, change_rank()),
        decreases live.len() - k,
    {
        assert(tail[k as int] == live@[k as int]@);
        take_entry(
            &mut out,
            &live[k],
            tenant_prefix,
            collection_id,
            after_seq,
            after_ord,
            Ghost(raw),
        );
        proof {
            let more = q.of_ops(tail[k as int], tail[k as int].ops.len() as int);
            assert(raw + more =~= base + q.of_entries(tail, k + 1));
            raw = raw + more;
        }
        k = k + 1;
    }
    Ok(out)
}

/// The order of archived segments: by number.
pub open spec fn archive_rank() -> spec_fn(ArchiveView) -> nat {
    |s: ArchiveView| s.segment_id as nat
}

/// What is recorded of a segment that was read intact.
pub open spec fn archive_entry(
    id: u64,
    max_seq: u64,
    entries: Seq<WalView>,
    size_bytes: u64,
    now_ms: u64,
) -> ArchiveView {
    ArchiveView {
        segment_id: id,
        min_seq: match min_entry_seq(entries) {
            Some(m) => m,
            None => max_seq,
        },
        max_seq: larger(max_seq, max_entry_seq(entries)),
        sealed_unix_ms: now_ms,
        size_bytes,
        file_name: segment_name(id),
    }
}

/// What is recorded of a segment bounds the sequence numbers of its records from both
/// sides.
pub proof fn archive_entry_bounds_records(
    id: u64,
    max_seq: u64,
    entries: Seq<WalView>,
    size_bytes: u64,
    now_ms: u64,
)
    ensures
        ({
            let a = archive_entry(id, max_seq, entries, size_bytes, now_ms);
            forall|j: int|
                0 <= j < entries.len() ==> a.min_seq <= (#[trigger] entries[j]).seq <= a.max_seq
        }),
    decreases entries.len(),
{
    if entries.len() > 0 {
        let front = entries.drop_last();
        archive_entry_bounds_records(id, max_seq, front, size_bytes, now_ms);
        let a = archive_entry(id, max_seq, entries, size_bytes, now_ms);
        let b = archive_entry(id, max_seq, front, size_bytes, now_ms);
        assert forall|j: int| 0 <= j < entries.len() implies a.min_seq <= (
        #[trigger] entries[j]).seq <= a.max_seq by {
            if j < front.len() {
                assert(b.min_seq <= front[j].seq <= b.max_seq);
                assert(min_entry_seq(front) is Some);
            }
        }
    }
}

/// A catalog with a segment added, in the order of the segments' numbers.
pub open spec fn with_segment(c: CatalogView, s: ArchiveView) -> CatalogView {
    CatalogView {
        segments: arranged(c.segments.push(s), archive_rank()),
        ..c
    }
}

/// Puts segments in the order of their numbers.
fn order_segments(v: Vec<ArchiveSegment>) -> (r: Vec<ArchiveSegment>)
    ensures
        archive_views(r@) == arranged(archive_views(v@), archive_rank()),
{
    let ghost all = archive_views(v@);
    let mut out: Vec<ArchiveSegment> = Vec::new();
    let mut i: usize = 0;
    assert(all.take(0) =~= Seq::<ArchiveView>::empty());
    assert(archive_views(out@) =~= Seq::<ArchiveView>::empty());
    while i < v.len()
        invariant
            i <= v@.len(),
            all == archive_views(v@),
            archive_views(out@) == arranged(all.take(i as int), archive_rank()),
        decreases v.len() - i,
    {
        let ghost s = archive_views(out@);
        let x: ArchiveSegment = v[i].clone();
        let ghost xv = x@;
        let mut p: usize = out.len();
        let mut placed: bool = false;
        while p > 0 && !placed
            invariant
                p <= out@.len(),
                s == archive_views(out@),
                xv == x@,
                forall|j: int|
                    p <= j < s.len() ==> archive_rank()(#[trigger] s[j]) > archive_rank()(xv),
                placed ==> p > 0 && archive_rank()(s[p - 1]) <= archive_rank()(xv),
            decreases p, if placed { 0int } else { 1int },
        {
            assert(s[p - 1] == out@[p - 1]@);
            if out[p - 1].segment_id > x.segment_id {
                p = p - 1;
            } else {
                placed = true;
            }
        }
        out.insert(p, x);
        proof {
            inserted_at(s, xv, archive_rank(), p as int);
            assert(archive_views(out@) =~= s.insert(p as int, xv));
            assert(all.take(i + 1).drop_last() =~= all.take(i as int));
            assert(all.take(i + 1).last() == xv);
        }
        i = i + 1;
    }
    assert(all.take(all.len() as int) =~= all);
    out
}

/// The catalog as it stands once a sealed segment is archived: unchanged where the
/// segment is recorded already. A segment that did not read cleanly is refused.
/// The catalog must be made durable before the live segment may be unlinked.
pub fn archive_segment(
    manifest: &ChangeLogManifest,
    segment: &WalSegment,
    max_seq: u64,
    size_bytes: u64,
    now_ms: u64,
) -> (r: EngineResult<ChangeLogManifest>)
    ensures
        match r {
            Ok(m) => if has_segment(manifest@.segments, segment.id) {
                m@ == manifest@
            } else {
                segment.outcome is Clean && m@ == with_segment(
                    manifest@,
                    archive_entry(segment.id, max_seq, segment@.entries, size_bytes, now_ms),
                )
            },
            Err(e) => !has_segment(manifest@.segments, segment.id) && !(segment.outcome is Clean)
                && (e matches EngineError::Io(t) && t@
                == "change_log: refusing to archive damaged segment "@ + decimal(
                segment.id as nat,
            )),
        },
{
    let mut candidate: ChangeLogManifest = manifest.clone();
    if manifest.contains_segment(segment.id) {
        return Ok(candidate);
    }
    if !matches!(segment.outcome, ReplayOutcome::Clean) {
        let text: String = text_with_number(
            "change_log: refusing to archive damaged segment ",
            segment.id,
            "",
        );
        proof {
            reveal_strlit("");
            assert(text@ =~= "change_log: refusing to archive damaged segment "@ + decimal(
                segment.id as nat,
            ));
        }
        return Err(EngineError::Io(text));
    }
    let min_seq: u64 = match smallest_seq(&segment.entries) {
        Some(m) => m,
        None => max_seq,
    };
    let observed: u64 = largest_seq(&segment.entries);
    let entry = ArchiveSegment {
        segment_id: segment.id,
        min_seq,
        max_seq: if observed > max_seq {
            observed
        } else {
            max_seq
        },
        sealed_unix_ms: now_ms,
        size_bytes,
        file_name: segment_filename(segment.id),
    };
    let ghost ev = entry@;
    let ghost before = archive_views(candidate.segments@);
    candidate.segments.push(entry);
    assert(archive_views(candidate.segments@) =~= before.push(ev));
    candidate.segments = order_segments(candidate.segments);
    Ok(candidate)
}

/// The catalog holds its segments and the one that was archived, in the order of
/// their numbers.
pub proof fn archiving_keeps_segments(c: CatalogView, s: ArchiveView)
    ensures
        with_segment(c, s).segments.to_multiset() == c.segments.to_multiset().insert(s),
        in_order(with_segment(c, s).segments, archive_rank()),
        has_segment(with_segment(c, s).segments, s.segment_id),
{
    broadcast use vstd::seq_lib::group_to_multiset_ensures;

    let all = c.segments.push(s);
    arranging_sorts(all, archive_rank());
    let r = with_segment(c, s).segments;
    assert(r.to_multiset().count(s) > 0);
    assert(r.contains(s));
    let i = choose|i: int| 0 <= i < r.len() && r[i] == s;
    assert(r[i].segment_id == s.segment_id);
}

/// The catalog after all sealed segments of the log that it lacks were archived,
/// or the error that stops it.
pub open spec fn reconciled(
    c: CatalogView,
    segs: Seq<SegmentView>,
    sizes: Seq<u64>,
    active: Option<u64>,
    now_ms: u64,
    n: int,
) -> Result<CatalogView, Seq<char>>
    decreases n,
{
    if n <= 0 {
        Ok(c)
    } else {
        match reconciled(c, segs, sizes, active, now_ms, n - 1) {
            Err(m) => Err(m),
            Ok(d) => {
                let s = segs[n - 1];
                if active == Some(s.id) || has_segment(d.segments, s.id) {
                    Ok(d)
                } else if s.outcome is Corruption {
                    Err(
                        "change_log: sealed WAL segment "@ + decimal(s.id as nat)
                            + " is corrupted"@,
                    )
                } else if s.outcome is TornTail {
                    Err(
                        "change_log: refusing to archive damaged segment "@ + decimal(s.id as nat),
                    )
                } else {
                    Ok(
                        with_segment(
                            d,
                            archive_entry(
                                s.id,
                                max_entry_seq(s.entries),
                                s.entries,
                                sizes[n - 1],
                                now_ms,
                            ),
                        ),
                    )
                }
            },
        }
    }
}

proof fn reconciling_stops(
    c: CatalogView,
    segs: Seq<SegmentView>,
    sizes: Seq<u64>,
    active: Option<u64>,
    now_ms: u64,
    k: int,
    n: int,
)
    requires
        0 < k <= n,
        reconciled(c, segs, sizes, active, now_ms, k) is Err,
    ensures
        reconciled(c, segs, sizes, active, now_ms, n) == reconciled(
            c,
            segs,
            sizes,
            active,
            now_ms,
            k,
        ),
    decreases n,
{
    if k < n {
        reconciling_stops(c, segs, sizes, active, now_ms, k, n - 1);
    }
}

/// Archives every sealed segment of the log that the catalog lacks. `sizes` holds
/// the segments' file sizes.
pub fn reconcile_sealed_wal(
    manifest: &ChangeLogManifest,
    segments: &Vec<WalSegment>,
    sizes: &Vec<u64>,
    active_wal_id: Option<u64>,
    now_ms: u64,
) -> (r: EngineResult<ChangeLogManifest>)
    requires
        sizes@.len() == segments@.len(),
    ensures
        ({
            let want = reconciled(
                manifest@,
                segment_views(segments@),
                sizes@,
                active_wal_id,
                now_ms,
                segments@.len() as int,
            );
            match r {
                Ok(m) => want == Ok::<CatalogView, Seq<char>>(m@),
                Err(e) => want matches Err(m) && (e matches EngineError::Io(t) && t@ == m),
            }
        }),
{
    let ghost segs = segment_views(segments@);
    let ghost total = segments@.len() as int;
    let mut cur: ChangeLogManifest = manifest.clone();
    let mut i: usize = 0;
    while i < segments.len()
        invariant
            i <= segments@.len() == sizes@.len() == total,
            segs == segment_views(segments@),
            reconciled(manifest@, segs, sizes@, active_wal_id, now_ms, i as int) == Ok::<
                CatalogView,
                Seq<char>,
            >(cur@),
        decreases segments.len() - i,
    {
        let s: &WalSegment = &segments[i];
        assert(segs[i as int] == s@);
        proof {
            if reconciled(manifest@, segs, sizes@, active_wal_id, now_ms, i + 1) is Err {
                reconciling_stops(
                    manifest@,
                    segs,
                    sizes@,
                    active_wal_id,
                    now_ms,
                    i + 1,
                    total,
                );
            }
        }
        let is_active: bool = match active_wal_id {
            Some(a) => a == s.id,
            None => false,
        };
        if !is_active && !cur.contains_segment(s.id) {
            if matches!(s.outcome, ReplayOutcome::Corruption) {
                return Err(
                    EngineError::Io(
                        text_with_number(
                            "change_log: sealed WAL segment ",
                            s.id,
                            " is corrupted",
                        ),
                    ),
                );
            }
            let max_seq: u64 = largest_seq(&s.entries);
            match archive_segment(&cur, s, max_seq, sizes[i], now_ms) {
                Ok(m) => {
                    cur = m;
                },
                Err(e) => {
                    return Err(e);
                },
            }
        }
        i = i + 1;
    }
    Ok(cur)
}

/// The oldest of some segments has outlived its time.
pub open spec fn over_time(s: Seq<ArchiveView>, retention_secs: u64, now_ms: u64) -> bool {
    retention_secs > 0 && now_ms - s[0].sealed_unix_ms > retention_secs * 1000
        && retention_secs * 1000 < u64::MAX
}

/// What stays of the archive: oldest segments leave as long as the time or the size
/// is exceeded. The last segment leaves only for its age.
pub open spec fn retained(
    s: Seq<ArchiveView>,
    retention_secs: u64,
    retention_bytes: u64,
    now_ms: u64,
) -> Seq<ArchiveView>
    decreases s.len(),
{
    if s.len() == 0 {
        s
    } else if over_time(s, retention_secs, now_ms) || (retention_bytes > 0 && archived_bytes(s)
        > retention_bytes && s.len() > 1) {
        retained(s.skip(1), retention_secs, retention_bytes, now_ms)
    } else {
        s
    }
}

/// Pruning keeps an end of the archive. What stays is within the limits, but for a
/// single segment that may exceed the size.
pub proof fn pruning_keeps_the_newest(
    s: Seq<ArchiveView>,
    retention_secs: u64,
    retention_bytes: u64,
    now_ms: u64,
)
    ensures
        ({
            let r = retained(s, retention_secs, retention_bytes, now_ms);
            &&& r.len() <= s.len()
            &&& r == s.skip(s.len() - r.len())
            &&& r.len() > 0 ==> !over_time(r, retention_secs, now_ms)
            &&& r.len() > 1 && retention_bytes > 0 ==> archived_bytes(r) <= retention_bytes
            &&& retention_secs == 0 && s.len() > 0 ==> r.len() > 0
        }),
    decreases s.len(),
{
    let r = retained(s, retention_secs, retention_bytes, now_ms);
    if s.len() > 0 {
        if r.len() < s.len() || r != s {
            pruning_keeps_the_newest(s.skip(1), retention_secs, retention_bytes, now_ms);
            assert(s.skip(1).skip(s.len() - 1 - r.len()) =~= s.skip(s.len() - r.len()));
        } else {
            assert(s.skip(0) =~= s);
            if over_time(s, retention_secs, now_ms) || (retention_bytes > 0 && archived_bytes(s)
                > retention_bytes && s.len() > 1) {
                pruning_keeps_the_newest(s.skip(1), retention_secs, retention_bytes, now_ms);
            }
        }
    } else {
        assert(s.skip(0) =~= s);
    }
}

/// Drops the oldest archived segments until the rest is within the limits, and
/// returns what was dropped, whose files may be removed.
pub fn prune(cfg: &ChangeLogConfig, manifest: &mut ChangeLogManifest, now_ms: u64) -> (removed: Vec<
    ArchiveSegment,
>)
    requires
        archived_bytes(old(manifest)@.segments) <= u64::MAX,
    ensures
        final(manifest)@.database_id_hex == old(manifest)@.database_id_hex,
        final(manifest)@.segments == retained(
            old(manifest)@.segments,
            cfg.retention_secs,
            cfg.retention_bytes,
            now_ms,
        ),
        archive_views(removed@) + final(manifest)@.segments == old(manifest)@.segments,
        forall|i: int|
            0 <= i < removed@.len() ==> {
                ||| cfg.retention_secs > 0 && now_ms > (#[trigger] removed@[i]).sealed_unix_ms + 1000
                    * cfg.retention_secs
                ||| cfg.retention_bytes > 0 && archived_bytes(old(manifest)@.segments.skip(i))
                    > cfg.retention_bytes
            },
        final(manifest).segments@.len() > 0 && cfg.retention_secs > 0 ==> now_ms
            <= final(manifest).segments@[0].sealed_unix_ms + 1000 * cfg.retention_secs,
{
    let mut removed: Vec<ArchiveSegment> = Vec::new();
    let mut done: bool = false;
    let ghost start = manifest@.segments;
    assert(archive_views(removed@) + start =~= start);
    while !done
        invariant
            archived_bytes(manifest@.segments) <= u64::MAX,
            start == old(manifest)@.segments,
            manifest@.database_id_hex == old(manifest)@.database_id_hex,
            archive_views(removed@) + manifest@.segments == start,
            retained(start, cfg.retention_secs, cfg.retention_bytes, now_ms) == retained(
                manifest@.segments,
                cfg.retention_secs,
                cfg.retention_bytes,
                now_ms,
            ),
            done ==> manifest@.segments == retained(
                start,
                cfg.retention_secs,
                cfg.retention_bytes,
                now_ms,
            ),
        decreases manifest@.segments.len(), if done { 0int } else { 1int },
    {
        if manifest.segments.len() == 0 {
            done = true;
        } else {
            let ghost s = manifest@.segments;
            let over_bytes: bool = cfg.retention_bytes > 0 && manifest.total_bytes()
                > cfg.retention_bytes;
            assert(s[0] == manifest.segments@[0]@);
            let sealed: u64 = manifest.segments[0].sealed_unix_ms;
            let age: u64 = if now_ms > sealed {
                now_ms - sealed
            } else {
                0
            };
            let limit: u64 = if cfg.retention_secs > u64::MAX / 1000 {
                u64::MAX
            } else {
                cfg.retention_secs * 1000
            };
            let old_enough: bool = cfg.retention_secs > 0 && age > limit;
            assert(old_enough == over_time(s, cfg.retention_secs, now_ms));
            if old_enough || (over_bytes && manifest.segments.len() > 1) {
                let ghost gone = archive_views(removed@);
                let ghost live = manifest.segments@;
                proof {
                    archived_bytes_split(s, 1);
                }
                let victim: ArchiveSegment = manifest.segments.remove(0);
                assert(manifest@.segments =~= s.skip(1));
                removed.push(victim);
                assert(archive_views(removed@) =~= gone.push(s[0]));
                assert(archive_views(removed@) + manifest@.segments =~= gone + s);
            } else {
                done = true;
            }
        }
    }
    proof {
        let r = manifest@.segments;
        pruning_drops_what_is_too_old_or_too_much(
            start,
            cfg.retention_secs,
            cfg.retention_bytes,
            now_ms,
        );
        assert forall|i: int| 0 <= i < removed@.len() implies {
            ||| cfg.retention_secs > 0 && now_ms > (#[trigger] removed@[i]).sealed_unix_ms + 1000
                * cfg.retention_secs
            ||| cfg.retention_bytes > 0 && archived_bytes(start.skip(i)) > cfg.retention_bytes
        } by {
            assert(archive_views(removed@)[i] == removed@[i]@);
            assert((archive_views(removed@) + r)[i] == start[i]);
            size_adds_up(start.skip(i));
        }
        if manifest.segments@.len() > 0 {
            assert(r[0] == manifest.segments@[0]@);
        }
    }
    removed
}

/// The identity of a database: the first half of the SHA-256 digest of the path of
/// its data directory.
pub fn database_id_from_data_dir(path: &[u8]) -> (id: [u8; 16])
    ensures
        id@ == sha256(path@).subrange(0, 16),
{
    let d: Vec<u8> = sha256_of(path);
    sixteen_at(d.as_slice(), 0)
}

/// What reading an archived segment's file gives, or why it is refused. A file that is
/// too short for a header counts as torn.
pub open spec fn archived_segment(id: u64, buf: Seq<u8>) -> Result<SegmentView, Seq<char>> {
    if buf.len() < SEGMENT_HEADER_LEN {
        Ok(SegmentView { id, entries: Seq::empty(), outcome: ReplayOutcome::TornTail })
    } else if buf[8] != WAL_FORMAT_VERSION {
        Err("change_log: unsupported WAL format version "@ + decimal(buf[8] as nat))
    } else {
        let body = buf.skip(SEGMENT_HEADER_LEN as int);
        Ok(SegmentView { id, entries: intact(body), outcome: ending(body) })
    }
}

/// Reads an archived segment's file.
pub fn read_segment_entries(id: u64, buf: &[u8]) -> (r: EngineResult<WalSegment>)
    ensures
        match r {
            Ok(s) => archived_segment(id, buf@) == Ok::<SegmentView, Seq<char>>(s@),
            Err(e) => archived_segment(id, buf@) matches Err(m) && (e matches EngineError::Io(t)
                && t@ == m),
        },
{
    if buf.len() < SEGMENT_HEADER_LEN {
        let s = WalSegment { id, entries: Vec::new(), outcome: ReplayOutcome::TornTail };
        assert(s@.entries =~= Seq::<WalView>::empty());
        return Ok(s);
    }
    if buf[8] != WAL_FORMAT_VERSION {
        let mut t: String = text_of("change_log: unsupported WAL format version ");
        push_decimal(&mut t, buf[8] as u64);
        return Err(EngineError::Io(t));
    }
    let body: &[u8] = vstd::slice::slice_subrange(buf, SEGMENT_HEADER_LEN, buf.len());
    assert(body@ =~= buf@.skip(SEGMENT_HEADER_LEN as int));
    let (entries, outcome) = replay_segment_body(body);
    Ok(WalSegment { id, entries, outcome })
}

} // verus!
