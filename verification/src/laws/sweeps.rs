//! System keys, expired values and deletions by prefix.

use vstd::prelude::*;
use crate::engine::catalog::{
    among, deleted_first, deletions, expired_keys, expired_value, leads, same_key_between,
    swept_keys, tombstones,
};
use crate::engine::ops::Refusal;
use crate::engine::write::WriteGate;
use crate::engine::Engine;
use crate::iter::ScanDirection;
use crate::keys::{system_key_fault, value_fault};
use crate::laws::reads::{prefix_scans_list_what_begins_with_the_prefix, scans_list_every_value_once};
use crate::records::{sorted, Version};
use crate::snapshot::after_prefix;
use crate::store::{listing, value_at};

verus! {

/// A system key is written where it starts with 0 and has no more than 65 536 bytes, the
/// value has no more than 16 MiB, and the engine is not busy; and only then. It is deleted
/// on the same terms.
pub proof fn system_keys_are_accepted(e: Engine, key: Seq<u8>, value: Seq<u8>, gate: WriteGate)
    ensures
        e.sys_put_refusal(key, value, gate) is None <==> {
            &&& 1 <= key.len() <= 65_536 && key[0] == 0
            &&& value.len() <= 16_777_216
            &&& e.busy_reason(Seq::empty(), gate) is None
        },
        e.sys_del_refusal(key, gate) is None <==> {
            &&& 1 <= key.len() <= 65_536 && key[0] == 0
            &&& e.busy_reason(Seq::empty(), gate) is None
        },
        !(1 <= key.len() <= 65_536 && key[0] == 0) ==> {
            &&& e.sys_put_refusal(key, value, gate) == Some(
                Refusal::InvalidKey(system_key_fault(key)),
            )
            &&& e.sys_del_refusal(key, gate) == Some(Refusal::InvalidKey(system_key_fault(key)))
        },
        1 <= key.len() <= 65_536 && key[0] == 0 && value.len() > 16_777_216
            ==> e.sys_put_refusal(key, value, gate) == Some(
            Refusal::InvalidValue(value_fault(value)),
        ),
{
}

/// The version is a value whose time has passed.
pub open spec fn past_its_time(v: Version, now_ms: u64) -> bool {
    v.1.value is Some && v.1.expires_at is Some && 0 < v.1.expires_at->0 < now_ms
}

/// The version is one of the key that is past its time.
pub open spec fn passed(s: Seq<Version>, now_ms: u64, k: int, key: Seq<u8>) -> bool {
    past_its_time(s[k], now_ms) && s[k].0.user_key == key
}

/// The version is the first of its key.
pub open spec fn first_of_key(s: Seq<Version>, i: int) -> bool {
    forall|j: int| 0 <= j < i ==> (#[trigger] s[j]).0.user_key != s[i].0.user_key
}

proof fn passed_so_far(s: Seq<Version>, now_ms: u64, n: int)
    requires
        0 <= n <= s.len(),
    ensures
        expired_keys(s, now_ms, n).no_duplicates(),
        forall|key: Seq<u8>| #[trigger]
            expired_keys(s, now_ms, n).contains(key) <==> exists|k: int|
                0 <= k < n && #[trigger] passed(s, now_ms, k, key),
    decreases n,
{
    if n > 0 {
        passed_so_far(s, now_ms, n - 1);
        let a = expired_keys(s, now_ms, n - 1);
        let b = expired_keys(s, now_ms, n);
        let last = s[n - 1].0.user_key;
        assert(expired_value(s[n - 1], now_ms) <==> past_its_time(s[n - 1], now_ms));
        assert forall|key: Seq<u8>| #[trigger] b.contains(key) <==> exists|k: int|
            0 <= k < n && #[trigger] passed(s, now_ms, k, key) by {
            if b.contains(key) {
                let i = choose|i: int| 0 <= i < b.len() && b[i] == key;
                if i < a.len() {
                    assert(a[i] == key);
                    assert(a.contains(key));
                } else {
                    assert(passed(s, now_ms, n - 1, key));
                }
            }
            if exists|k: int| 0 <= k < n && #[trigger] passed(s, now_ms, k, key) {
                let k = choose|k: int| 0 <= k < n && #[trigger] passed(s, now_ms, k, key);
                if k < n - 1 {
                    assert(a.contains(key));
                }
                if a.contains(key) {
                    let i = choose|i: int| 0 <= i < a.len() && a[i] == key;
                    assert(b[i] == key);
                } else {
                    assert(b.last() == key);
                }
            }
        }
    }
}

/// A sweep counts each key that has a value past its time, once.
pub proof fn expired_keys_are_counted_once(s: Seq<Version>, now_ms: u64)
    ensures
        expired_keys(s, now_ms, s.len() as int).no_duplicates(),
        forall|key: Seq<u8>| #[trigger]
            expired_keys(s, now_ms, s.len() as int).contains(key) <==> exists|k: int|
                0 <= k < s.len() && #[trigger] passed(s, now_ms, k, key),
{
    passed_so_far(s, now_ms, s.len() as int);
}

proof fn leading_is_first(s: Seq<Version>, i: int)
    requires
        sorted(s),
        0 <= i < s.len(),
    ensures
        leads(s, i) <==> first_of_key(s, i),
{
    if leads(s, i) {
        assert forall|j: int| 0 <= j < i implies (#[trigger] s[j]).0.user_key
            != s[i].0.user_key by {
            if s[j].0.user_key == s[i].0.user_key {
                if j < i - 1 {
                    same_key_between(s[j].0, s[i - 1].0, s[i].0);
                }
            }
        }
    }
    if first_of_key(s, i) && i > 0 {
        assert(s[i - 1].0.user_key != s[i].0.user_key);
    }
}

proof fn swept_so_far(s: Seq<Version>, now_ms: u64, n: int)
    requires
        sorted(s),
        0 <= n <= s.len(),
    ensures
        swept_keys(s, now_ms, n) =~= s.take(n).filter(
            |v: Version| past_its_time(v, now_ms) && exists|i: int|
                0 <= i < s.len() && #[trigger] s[i] == v && first_of_key(s, i),
        ).map(|i: int, v: Version| v.0.user_key),
    decreases n,
{
    reveal(Seq::filter);
    let p = |v: Version|
        past_its_time(v, now_ms) && exists|i: int|
            0 <= i < s.len() && #[trigger] s[i] == v && first_of_key(s, i);
    if n > 0 {
        swept_so_far(s, now_ms, n - 1);
        assert(s.take(n).drop_last() =~= s.take(n - 1));
        let v = s[n - 1];
        leading_is_first(s, n - 1);
        if p(v) {
            let i = choose|i: int| 0 <= i < s.len() && #[trigger] s[i] == v && first_of_key(s, i);
            if i < n - 1 {
                distinct_versions(s, i, n - 1);
            } else if n - 1 < i {
                distinct_versions(s, n - 1, i);
            }
        }
        if leads(s, n - 1) && past_its_time(v, now_ms) {
            assert(s[n - 1] == v && first_of_key(s, n - 1));
            assert(p(v));
        }
    }
}

proof fn distinct_versions(s: Seq<Version>, i: int, j: int)
    requires
        sorted(s),
        0 <= i < j < s.len(),
    ensures
        s[i] != s[j],
{
    assert(s[i].0.lt(s[j].0));
    if s[i] == s[j] {
        crate::bytes::lex_lt_asymmetric(s[i].0.user_key, s[j].0.user_key);
    }
}

/// A sweep deletes the keys whose newest version in the memtable, which stands first, is a
/// value past its time, in the order of keys.
pub proof fn a_sweep_deletes_what_has_passed(s: Seq<Version>, now_ms: u64)
    requires
        sorted(s),
    ensures
        swept_keys(s, now_ms, s.len() as int) =~= s.filter(
            |v: Version| past_its_time(v, now_ms) && exists|i: int|
                0 <= i < s.len() && #[trigger] s[i] == v && first_of_key(s, i),
        ).map(|i: int, v: Version| v.0.user_key),
{
    swept_so_far(s, now_ms, s.len() as int);
    assert(s.take(s.len() as int) =~= s);
}

/// Each swept key gets a version without a value and without an expiry, numbered from
/// `first` on.
pub proof fn tombstones_are_numbered(keys: Seq<Seq<u8>>, first: u64, v: Version)
    requires
        first + keys.len() <= u64::MAX,
    ensures
        tombstones(keys, first).contains(v) <==> {
            &&& first <= v.0.seq < first + keys.len()
            &&& v.0.user_key == keys[v.0.seq - first]
            &&& v.0.kind is Tombstone
            &&& v.1.value is None
            &&& v.1.expires_at is None
        },
{
    if first <= v.0.seq < first + keys.len() {
        let j = v.0.seq - first;
        assert(keys[j] == keys[v.0.seq - first]);
        assert((first + j) as u64 == v.0.seq);
    }
}

/// Deleting what a prefix covers deletes each listed key.
pub proof fn every_listed_key_is_deleted(r: Seq<(Seq<u8>, Seq<u8>)>, i: int)
    requires
        0 <= i < r.len(),
    ensures
        deletions(r, 0, r.len() as int).len() == r.len(),
        deletions(r, 0, r.len() as int)[i].key == r[i].0,
        deletions(r, 0, r.len() as int)[i].command is Del,
        deletions(r, 0, r.len() as int)[i].value.len() == 0,
{
}

/// Deleting by prefix to the end takes away every key that begins with the prefix and had a
/// value, and no other; who reads at an older number notices nothing.
pub proof fn a_prefix_is_deleted_whole(
    before: Set<Version>,
    after: Set<Version>,
    prefix: Seq<u8>,
    all: Seq<(Seq<u8>, Seq<u8>)>,
    upper: u64,
    first: u64,
    key: Seq<u8>,
    now_ms: u64,
)
    requires
        listing(before, prefix, after_prefix(prefix), upper, now_ms, ScanDirection::Forward, all),
        deleted_first(before, after, all, all.len() as int, first),
    ensures
        ({
            let begins = prefix.len() <= key.len() && forall|i: int|
                0 <= i < prefix.len() ==> #[trigger] key[i] == prefix[i];
            &&& begins && value_at(before, key, upper, now_ms) is Some ==> forall|t: u64|
                #[trigger] value_at(after, key, u64::MAX, t) is None
            &&& !begins ==> forall|t: u64| #[trigger]
                value_at(after, key, u64::MAX, t) == value_at(before, key, u64::MAX, t)
            &&& forall|u: u64, t: u64|
                u < first ==> #[trigger] value_at(after, key, u, t) == value_at(before, key, u, t)
        }),
{
    prefix_scans_list_what_begins_with_the_prefix(prefix, key);
    scans_list_every_value_once(
        before,
        prefix,
        after_prefix(prefix),
        upper,
        now_ms,
        ScanDirection::Forward,
        all,
    );
    if among(all, all.len() as int, key) {
        let i = choose|i: int| 0 <= i < all.len() && (#[trigger] all[i]).0 == key;
        assert(all.contains((key, all[i].1)));
    }
    if let Some(x) = value_at(before, key, upper, now_ms) {
        if all.contains((key, x)) {
            let i = choose|i: int| 0 <= i < all.len() && all[i] == (key, x);
            assert(all[i].0 == key);
        }
    }
}

} // verus!
