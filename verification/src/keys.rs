//! Keys and the partition of the keyspace.

use vstd::prelude::*;
use crate::bytes::{
    bytes_eq, compare_bytes, copy_bytes, lex_lt, lex_lt_asymmetric, lex_lt_irreflexive,
    lex_lt_total, lex_lt_transitive, Rank,
};
use crate::errors::EngineError;
use crate::text::{decimal, text_of, text_with_number};

verus! {

/// The prefix byte of the reserved system keyspace, out of reach of user writes.
pub const KS_SYSTEM: u8 = 0x00;

/// The prefix byte of the user keyspace.
pub const KS_USER: u8 = 0x01;

pub const MAX_KEY_BYTES: usize = 64 * 1024;

pub const MAX_VALUE_BYTES: usize = 16 * 1024 * 1024;

pub const MAX_IN_FLIGHT_WAL_BYTES: usize = 256 * 1024 * 1024;

pub const MAX_IMMUTABLE_MEMTABLES: usize = 4;

pub const MEMTABLE_FLUSH_THRESHOLD: usize = 64 * 1024 * 1024;

pub const SSTABLE_BLOCK_SIZE: usize = 16 * 1024;

pub const WAL_SEGMENT_SIZE: usize = 64 * 1024 * 1024;

pub const MAX_BATCH_KEYS: usize = 1024;

/// What an entry is: a value or the mark of a deletion.
#[derive(Debug, Clone, Copy, PartialEq, Eq, Structural)]
pub enum EntryKind {
    Value,
    Tombstone,
}

impl EntryKind {
    /// The byte that stands for a kind.
    pub open spec fn code(self) -> u8 {
        match self {
            EntryKind::Value => 0x01,
            EntryKind::Tombstone => 0x02,
        }
    }

    pub fn as_u8(self) -> (b: u8)
        ensures
            b == self.code(),
    {
        match self {
            EntryKind::Value => 0x01,
            EntryKind::Tombstone => 0x02,
        }
    }

    pub fn from_u8(b: u8) -> (r: Option<EntryKind>)
        ensures
            match r {
                Some(k) => k.code() == b,
                None => forall|k: EntryKind| k.code() != b,
            },
            r is None <==> b != 0x01 && b != 0x02,
    {
        match b {
            0x01 => Some(EntryKind::Value),
            0x02 => Some(EntryKind::Tombstone),
            _ => None,
        }
    }
}

/// Distinct kinds have distinct bytes, so a byte that was written from a kind
/// reads back as that kind.
pub proof fn entry_kind_codes_are_distinct(a: EntryKind, b: EntryKind)
    ensures
        a.code() == b.code() ==> a == b,
{
}

/// A user key with the sequence number and kind of one version of it.
///
/// Versions sort by user key ascending and then by sequence number descending,
/// so that the newest version of a key comes first.
#[derive(Debug, PartialEq, Eq)]
pub struct InternalKey {
    pub user_key: Vec<u8>,
    pub seq: u64,
    pub kind: EntryKind,
}

/// What an internal key holds.
pub struct KeyView {
    pub user_key: Seq<u8>,
    pub seq: u64,
    pub kind: EntryKind,
}

impl KeyView {
    /// The order of versions: user key ascending, sequence number descending,
    /// kind byte ascending.
    pub open spec fn lt(self, other: KeyView) -> bool {
        ||| lex_lt(self.user_key, other.user_key)
        ||| self.user_key == other.user_key && self.seq > other.seq
        ||| self.user_key == other.user_key && self.seq == other.seq && self.kind.code()
            < other.kind.code()
    }

    pub open spec fn le(self, other: KeyView) -> bool {
        self == other || self.lt(other)
    }
}

impl View for InternalKey {
    type V = KeyView;

    open spec fn view(&self) -> KeyView {
        KeyView { user_key: self.user_key@, seq: self.seq, kind: self.kind }
    }
}

/// The order of versions is irreflexive.
pub proof fn key_lt_irreflexive(a: KeyView)
    ensures
        !a.lt(a),
{
    lex_lt_irreflexive(a.user_key);
}

/// The order of versions is transitive.
pub proof fn key_lt_transitive(a: KeyView, b: KeyView, c: KeyView)
    requires
        a.lt(b),
        b.lt(c),
    ensures
        a.lt(c),
{
    if lex_lt(a.user_key, b.user_key) && lex_lt(b.user_key, c.user_key) {
        lex_lt_transitive(a.user_key, b.user_key, c.user_key);
    }
}

/// The order of versions is asymmetric.
pub proof fn key_lt_asymmetric(a: KeyView, b: KeyView)
    requires
        a.lt(b),
    ensures
        !b.lt(a),
        a != b,
{
    key_lt_irreflexive(a);
    if b.lt(a) {
        key_lt_transitive(a, b, a);
    }
}

/// Of two versions, one comes before the other or they are equal.
pub proof fn key_lt_total(a: KeyView, b: KeyView)
    ensures
        a.lt(b) || a == b || b.lt(a),
{
    lex_lt_total(a.user_key, b.user_key);
}

/// Of two versions of one key, the newer comes first.
pub proof fn newer_version_comes_first(key: Seq<u8>, newer: u64, older: u64, a: EntryKind, b: EntryKind)
    requires
        newer > older,
    ensures
        (KeyView { user_key: key, seq: newer, kind: a }).lt(
            KeyView { user_key: key, seq: older, kind: b },
        ),
{
}

impl InternalKey {
    pub fn new(user_key: Vec<u8>, seq: u64, kind: EntryKind) -> (k: Self)
        ensures
            k@ == (KeyView { user_key: user_key@, seq, kind }),
    {
        InternalKey { user_key, seq, kind }
    }

    /// The first byte of the user key, if there is one.
    pub fn keyspace(&self) -> (r: Option<u8>)
        ensures
            r == (if self@.user_key.len() > 0 {
                Some(self@.user_key[0])
            } else {
                None
            }),
    {
        if self.user_key.len() > 0 {
            Some(self.user_key[0])
        } else {
            None
        }
    }

    /// Compares two versions.
    pub fn compare(&self, other: &InternalKey) -> (r: Rank)
        ensures
            r == Rank::Before <==> self@.lt(other@),
            r == Rank::Same <==> self@ == other@,
            r == Rank::After <==> other@.lt(self@),
    {
        proof {
            lex_lt_irreflexive(self@.user_key);
            if lex_lt(self@.user_key, other@.user_key) {
                lex_lt_asymmetric(self@.user_key, other@.user_key);
            }
            if lex_lt(other@.user_key, self@.user_key) {
                lex_lt_asymmetric(other@.user_key, self@.user_key);
            }
        }
        let r: Rank = compare_bytes(self.user_key.as_slice(), other.user_key.as_slice());
        if !matches!(r, Rank::Same) {
            return r;
        }
        if self.seq > other.seq {
            return Rank::Before;
        }
        if self.seq < other.seq {
            return Rank::After;
        }
        let a: u8 = self.kind.as_u8();
        let b: u8 = other.kind.as_u8();
        if a < b {
            Rank::Before
        } else if a > b {
            Rank::After
        } else {
            Rank::Same
        }
    }

    /// Whether this version comes strictly before `other`.
    pub fn precedes(&self, other: &InternalKey) -> (r: bool)
        ensures
            r == self@.lt(other@),
    {
        matches!(self.compare(other), Rank::Before)
    }

    /// Whether this is a version of `user_key`.
    pub fn is_version_of(&self, user_key: &[u8]) -> (r: bool)
        ensures
            r == (self@.user_key == user_key@),
    {
        bytes_eq(self.user_key.as_slice(), user_key)
    }
}

impl Clone for InternalKey {
    fn clone(&self) -> (k: Self)
        ensures
            k@ == self@,
    {
        InternalKey { user_key: copy_bytes(self.user_key.as_slice()), seq: self.seq, kind: self.kind }
    }
}

impl PartialOrd for InternalKey {
    fn partial_cmp(&self, other: &InternalKey) -> (r: Option<std::cmp::Ordering>) {
        match self.compare(other) {
            Rank::Before => Some(std::cmp::Ordering::Less),
            Rank::Same => Some(std::cmp::Ordering::Equal),
            Rank::After => Some(std::cmp::Ordering::Greater),
        }
    }
}

impl vstd::std_specs::cmp::PartialOrdSpecImpl for InternalKey {
    open spec fn obeys_partial_cmp_spec() -> bool {
        true
    }

    open spec fn partial_cmp_spec(&self, other: &InternalKey) -> Option<std::cmp::Ordering> {
        if self@.lt(other@) {
            Some(std::cmp::Ordering::Less)
        } else if self@ == other@ {
            Some(std::cmp::Ordering::Equal)
        } else {
            Some(std::cmp::Ordering::Greater)
        }
    }
}

/// A key that user writes may carry.
pub open spec fn user_key_ok(key: Seq<u8>) -> bool {
    0 < key.len() <= MAX_KEY_BYTES && key[0] == KS_USER
}

/// A key that system writes may carry.
pub open spec fn system_key_ok(key: Seq<u8>) -> bool {
    0 < key.len() <= MAX_KEY_BYTES && key[0] == KS_SYSTEM
}

/// A value that may be written.
pub open spec fn value_ok(value: Seq<u8>) -> bool {
    value.len() <= MAX_VALUE_BYTES
}

/// Why a user key is refused.
pub open spec fn user_key_fault(key: Seq<u8>) -> Seq<char> {
    if key.len() == 0 {
        "empty key"@
    } else if key.len() > MAX_KEY_BYTES {
        "key length "@ + decimal(key.len()) + " exceeds MAX_KEY_BYTES 65536"@
    } else {
        "reserved keyspace"@
    }
}

/// Why a system key is refused.
pub open spec fn system_key_fault(key: Seq<u8>) -> Seq<char> {
    if key.len() == 0 {
        "empty system key"@
    } else if key.len() > MAX_KEY_BYTES {
        "system key length "@ + decimal(key.len()) + " exceeds MAX_KEY_BYTES 65536"@
    } else {
        "not a system key"@
    }
}

/// Why a value is refused.
pub open spec fn value_fault(value: Seq<u8>) -> Seq<char> {
    "value length "@ + decimal(value.len()) + " exceeds MAX_VALUE_BYTES 16777216"@
}

/// Accepts non-empty keys within the size limit that lie in the user keyspace.
pub fn validate_user_key(user_key: &[u8]) -> (r: Result<(), EngineError>)
    ensures
        r is Ok <==> user_key_ok(user_key@),
        r is Ok <==> 1 <= user_key@.len() <= 65_536 && user_key@[0] == 1,
        r matches Err(e) ==> (e matches EngineError::InvalidKey(m) && m@ == user_key_fault(
            user_key@,
        )),
{
    if user_key.len() == 0 {
        return Err(EngineError::InvalidKey(text_of("empty key")));
    }
    if user_key.len() > MAX_KEY_BYTES {
        return Err(
            EngineError::InvalidKey(
                text_with_number(
                    "key length ",
                    user_key.len() as u64,
                    " exceeds MAX_KEY_BYTES 65536",
                ),
            ),
        );
    }
    if user_key[0] != KS_USER {
        return Err(EngineError::InvalidKey(text_of("reserved keyspace")));
    }
    Ok(())
}

/// Accepts non-empty keys within the size limit that lie in the system keyspace.
pub fn validate_system_key(key: &[u8]) -> (r: Result<(), EngineError>)
    ensures
        r is Ok <==> system_key_ok(key@),
        r is Ok <==> 1 <= key@.len() <= 65_536 && key@[0] == 0,
        r matches Err(e) ==> (e matches EngineError::InvalidKey(m) && m@ == system_key_fault(key@)),
{
    if key.len() == 0 {
        return Err(EngineError::InvalidKey(text_of("empty system key")));
    }
    if key.len() > MAX_KEY_BYTES {
        return Err(
            EngineError::InvalidKey(
                text_with_number(
                    "system key length ",
                    key.len() as u64,
                    " exceeds MAX_KEY_BYTES 65536",
                ),
            ),
        );
    }
    if key[0] != KS_SYSTEM {
        return Err(EngineError::InvalidKey(text_of("not a system key")));
    }
    Ok(())
}

/// Accepts values within the size limit.
pub fn validate_value(value: &[u8]) -> (r: Result<(), EngineError>)
    ensures
        r is Ok <==> value_ok(value@),
        r is Ok <==> value@.len() <= 16_777_216,
        r matches Err(e) ==> (e matches EngineError::InvalidValue(m) && m@ == value_fault(value@)),
{
    if value.len() > MAX_VALUE_BYTES {
        return Err(
            EngineError::InvalidValue(
                text_with_number(
                    "value length ",
                    value.len() as u64,
                    " exceeds MAX_VALUE_BYTES 16777216",
                ),
            ),
        );
    }
    Ok(())
}

/// No key is both a user key and a system key.
pub proof fn keyspaces_are_disjoint(key: Seq<u8>)
    ensures
        !(user_key_ok(key) && system_key_ok(key)),
{
}

/// Whether two keys are the same.
pub(crate) fn keys_agree(a: &InternalKey, b: &InternalKey) -> (r: bool)
    ensures
        r == (a@ == b@),
{
    let kinds: bool = match (a.kind, b.kind) {
        (EntryKind::Value, EntryKind::Value) => true,
        (EntryKind::Tombstone, EntryKind::Tombstone) => true,
        _ => false,
    };
    a.seq == b.seq && kinds && bytes_eq(a.user_key.as_slice(), b.user_key.as_slice())
}

} // verus!
