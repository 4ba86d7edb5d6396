//! The payload stored against an internal key.

use vstd::prelude::*;
use crate::bytes::{bytes_eq, copy_bytes};

verus! {

/// A stored entry. `value` is `None` for tombstones. `expires_at` is a Unix
/// timestamp in milliseconds; `None` and zero both mean that it never expires.
#[derive(Debug, PartialEq, Eq)]
pub struct Entry {
    pub value: Option<Vec<u8>>,
    pub expires_at: Option<u64>,
}

/// What an entry holds.
pub struct EntryView {
    pub value: Option<Seq<u8>>,
    pub expires_at: Option<u64>,
}

impl EntryView {
    /// The number of value bytes.
    pub open spec fn value_size(self) -> nat {
        match self.value {
            Some(v) => v.len(),
            None => 0,
        }
    }

    /// The entry is past its expiry at `now_ms`.
    pub open spec fn expired_at(self, now_ms: u64) -> bool {
        self.expires_at matches Some(ts) && ts != 0 && now_ms > ts
    }

    /// What a reader at `now_ms` gets from this entry.
    pub open spec fn read_at(self, now_ms: u64) -> Option<Seq<u8>> {
        if self.expired_at(now_ms) {
            None
        } else {
            self.value
        }
    }
}

impl View for Entry {
    type V = EntryView;

    open spec fn view(&self) -> EntryView {
        EntryView {
            value: match self.value {
                Some(v) => Some(v@),
                None => None,
            },
            expires_at: self.expires_at,
        }
    }
}

impl Entry {
    pub fn value(value: Vec<u8>, expires_at: Option<u64>) -> (e: Self)
        ensures
            e@ == (EntryView { value: Some(value@), expires_at }),
    {
        Entry { value: Some(value), expires_at }
    }

    pub fn tombstone() -> (e: Self)
        ensures
            e@ == (EntryView { value: None, expires_at: None }),
    {
        Entry { value: None, expires_at: None }
    }

    pub fn is_tombstone(&self) -> (r: bool)
        ensures
            r == (self@.value is None),
    {
        self.value.is_none()
    }

    /// The number of value bytes, for memtable accounting.
    pub fn value_len(&self) -> (n: usize)
        ensures
            n == self@.value_size(),
    {
        match &self.value {
            Some(v) => v.len(),
            None => 0,
        }
    }

    /// Whether this entry is past its expiry at `now_ms`.
    pub fn is_expired(&self, now_ms: u64) -> (r: bool)
        ensures
            r == self@.expired_at(now_ms),
    {
        match self.expires_at {
            Some(ts) => ts != 0 && now_ms > ts,
            None => false,
        }
    }

    /// What a reader at `now_ms` gets from this entry.
    pub fn read(&self, now_ms: u64) -> (r: Option<Vec<u8>>)
        ensures
            match r {
                Some(v) => self@.read_at(now_ms) == Some(v@),
                None => self@.read_at(now_ms) is None,
            },
    {
        if self.is_expired(now_ms) {
            return None;
        }
        match &self.value {
            Some(v) => Some(copy_bytes(v.as_slice())),
            None => None,
        }
    }
}

impl Clone for Entry {
    fn clone(&self) -> (e: Self)
        ensures
            e@ == self@,
    {
        let value: Option<Vec<u8>> = match &self.value {
            Some(v) => Some(copy_bytes(v.as_slice())),
            None => None,
        };
        Entry { value, expires_at: self.expires_at }
    }
}

/// Whether two entries are the same.
pub(crate) fn entries_agree(a: &Entry, b: &Entry) -> (r: bool)
    ensures
        r == (a@ == b@),
{
    let values: bool = match (&a.value, &b.value) {
        (Some(x), Some(y)) => bytes_eq(x.as_slice(), y.as_slice()),
        (None, None) => true,
        _ => false,
    };
    let expiries: bool = match (a.expires_at, b.expires_at) {
        (Some(x), Some(y)) => x == y,
        (None, None) => true,
        _ => false,
    };
    values && expiries
}

} // verus!
