//! The in-memory sorted store of versions.

use vstd::prelude::*;
use crate::bytes::{copy_bytes, lex_le, lex_lt};
use crate::entry::{Entry, EntryView};
use crate::keys::{key_lt_irreflexive, key_lt_total, EntryKind, InternalKey, KeyView};
use crate::records::{
    copy_pair, find_visible, found_newest, is_newest, lower_bound, none_visible, run_range,
    run_range_from, sorted, sorted_keys_are_unique, versions, visible, Version,
};

verus! {

/// What one version adds to the size of a memtable: its key and value bytes and
/// a fixed overhead for the sequence number, the kind, the expiry and the node.
pub open spec fn footprint(v: Version) -> nat {
    v.0.user_key.len() + v.1.value_size() + 65
}

/// What a sequence of versions adds to the size of a memtable.
pub open spec fn total_footprint(s: Seq<Version>) -> nat
    decreases s.len(),
{
    if s.len() == 0 {
        0
    } else {
        total_footprint(s.drop_last()) + footprint(s.last())
    }
}

/// Some version stands under the key.
pub open spec fn has_key(s: Seq<Version>, key: KeyView) -> bool {
    exists|i: int| 0 <= i < s.len() && (#[trigger] s[i]).0 == key
}

/// A memtable that held `before` holds `after` once `new` was inserted: `new` stands in
/// place of what stood under its key, and everything else is as it was.
pub open spec fn inserted(before: Seq<Version>, after: Seq<Version>, new: Version) -> bool {
    &&& sorted(after)
    &&& forall|v: Version| #[trigger]
        after.contains(v) <==> v == new || (before.contains(v) && v.0 != new.0)
    &&& after.len() == before.len() + (if has_key(before, new.0) {
        0int
    } else {
        1
    })
}

/// What a sorted sequence of versions holds, by internal key.
pub open spec fn content_of(s: Seq<Version>) -> Map<KeyView, EntryView> {
    Map::new(|k: KeyView| has_key(s, k), |k: KeyView| entry_under(s, k))
}

/// The entry under an internal key.
pub open spec fn entry_under(s: Seq<Version>, k: KeyView) -> EntryView {
    let i = choose|i: int| 0 <= i < s.len() && (#[trigger] s[i]).0 == k;
    s[i].1
}

/// An insertion sets the entry under its key, and no other.
proof fn content_grows(before: Seq<Version>, after: Seq<Version>, new: Version)
    requires
        sorted(before),
        inserted(before, after, new),
    ensures
        content_of(after) == content_of(before).insert(new.0, new.1),
{
    let a = content_of(after);
    let b = content_of(before).insert(new.0, new.1);
    assert(after.contains(new));
    assert forall|k: KeyView| #[trigger] a.dom().contains(k) <==> b.dom().contains(k) by {
        if has_key(after, k) {
            let i = choose|i: int| 0 <= i < after.len() && (#[trigger] after[i]).0 == k;
            assert(after.contains(after[i]));
            if k != new.0 {
                let j = choose|j: int| 0 <= j < before.len() && before[j] == after[i];
                assert(before[j].0 == k);
            }
        }
        if b.dom().contains(k) {
            if k == new.0 {
                let i = choose|i: int| 0 <= i < after.len() && after[i] == new;
                assert(after[i].0 == k);
            } else {
                let j = choose|j: int| 0 <= j < before.len() && (#[trigger] before[j]).0 == k;
                assert(before.contains(before[j]));
                assert(after.contains(before[j]));
                let i = choose|i: int| 0 <= i < after.len() && after[i] == before[j];
                assert(after[i].0 == k);
            }
        }
    }
    assert forall|k: KeyView| a.dom().contains(k) implies #[trigger] a[k] == b[k] by {
        let i = choose|i: int| 0 <= i < after.len() && (#[trigger] after[i]).0 == k;
        let x = (k, a[k]);
        assert(after[i] == x);
        assert(after.contains(x));
        if k == new.0 {
            sorted_keys_are_unique(after, x, new);
        } else {
            assert(before.contains(x));
            let q = choose|q: int| 0 <= q < before.len() && before[q] == x;
            assert(before[q].0 == k);
            let j = choose|j: int| 0 <= j < before.len() && (#[trigger] before[j]).0 == k;
            assert(before.contains(before[j]));
            sorted_keys_are_unique(before, x, before[j]);
        }
    }
    assert(a =~= b);
}

/// After an insertion a lookup finds the new version where it is visible and comes before
/// what was found, and otherwise what was found.
pub proof fn insert_is_read_back(
    before: Seq<Version>,
    after: Seq<Version>,
    new: Version,
    key: Seq<u8>,
    upper: u64,
    was: Option<Version>,
)
    requires
        sorted(before),
        inserted(before, after, new),
        found_newest(before, key, upper, was),
    ensures
        found_newest(
            after,
            key,
            upper,
            if visible(new, key, upper) && (was matches Some(v) ==> new.0.le(v.0)) {
                Some(new)
            } else {
                was
            },
        ),
{
    assert(after.contains(new));
    if visible(new, key, upper) {
        match was {
            Some(v) => {
                key_lt_total(new.0, v.0);
                if new.0.le(v.0) {
                    assert forall|w: Version| #[trigger] after.contains(w) && visible(
                        w,
                        key,
                        upper,
                    ) implies new.0.le(w.0) by {
                        if w != new {
                            assert(before.contains(w));
                            if new.0 != v.0 && v.0 != w.0 {
                                crate::keys::key_lt_transitive(new.0, v.0, w.0);
                            }
                        }
                    }
                } else {
                    assert(after.contains(v));
                }
            },
            None => {},
        }
    } else {
        if let Some(v) = was {
            assert(v.0 != new.0);
            assert(after.contains(v));
        }
    }
}

/// Some version has sequence number `n`.
pub open spec fn has_seq(s: Seq<Version>, n: u64) -> bool {
    exists|i: int| 0 <= i < s.len() && (#[trigger] s[i]).0.seq == n
}

proof fn total_footprint_insert(s: Seq<Version>, i: int, v: Version)
    requires
        0 <= i <= s.len(),
    ensures
        total_footprint(s.insert(i, v)) == total_footprint(s) + footprint(v),
    decreases s.len(),
{
    if i == s.len() {
        assert(s.insert(i, v).drop_last() =~= s);
    } else {
        assert(s.insert(i, v).drop_last() =~= s.drop_last().insert(i, v));
        assert(s.insert(i, v).last() == s.last());
        total_footprint_insert(s.drop_last(), i, v);
    }
}

proof fn total_footprint_update(s: Seq<Version>, i: int, v: Version)
    requires
        0 <= i < s.len(),
    ensures
        total_footprint(s.update(i, v)) + footprint(s[i]) == total_footprint(s) + footprint(v),
    decreases s.len(),
{
    if i == s.len() - 1 {
        assert(s.update(i, v).drop_last() =~= s.drop_last());
    } else {
        assert(s.update(i, v).drop_last() =~= s.drop_last().update(i, v));
        total_footprint_update(s.drop_last(), i, v);
    }
}

#[derive(Debug)]
pub struct Memtable {
    pairs: Vec<(InternalKey, Entry)>,
    size_bytes: usize,
    min_seq: u64,
    max_seq: u64,
}

impl View for Memtable {
    type V = Seq<Version>;

    /// The versions in order.
    closed spec fn view(&self) -> Seq<Version> {
        versions(self.pairs@)
    }
}

impl Memtable {
    /// The versions are sorted, the size is their total footprint and the
    /// sequence bounds are exact.
    pub closed spec fn wf(&self) -> bool {
        &&& sorted(self@)
        &&& self.size_bytes == total_footprint(self@)
        &&& forall|i: int|
            0 <= i < self@.len() ==> self.min_seq <= (#[trigger] self@[i]).0.seq <= self.max_seq
        &&& self@.len() > 0 ==> has_seq(self@, self.min_seq) && has_seq(self@, self.max_seq)
        &&& self@.len() == 0 ==> self.min_seq == u64::MAX && self.max_seq == 0
    }

    /// The smallest and the largest sequence number, the largest and the smallest number
    /// there is for an empty memtable.
    pub closed spec fn seq_bounds(&self) -> (u64, u64) {
        (self.min_seq, self.max_seq)
    }

    /// The versions of a well-formed memtable are sorted.
    pub proof fn lemma_sorted(&self)
        requires
            self.wf(),
        ensures
            sorted(self@),
    {
    }

    pub fn new() -> (m: Self)
        ensures
            m.wf(),
            m@ == Seq::<Version>::empty(),
            m.seq_bounds() == (u64::MAX, 0u64),
    {
        let m = Memtable { pairs: Vec::new(), size_bytes: 0, min_seq: u64::MAX, max_seq: 0 };
        assert(m@ =~= Seq::<Version>::empty());
        m
    }

    /// The total footprint of the versions.
    pub fn size_bytes(&self) -> (n: usize)
        requires
            self.wf(),
        ensures
            n == total_footprint(self@),
    {
        self.size_bytes
    }

    /// The number of versions.
    pub fn len(&self) -> (n: usize)
        ensures
            n == self@.len(),
    {
        self.pairs.len()
    }

    pub fn is_empty(&self) -> (r: bool)
        ensures
            r == (self@.len() == 0),
    {
        self.pairs.len() == 0
    }

    /// The smallest sequence number, or zero for an empty memtable.
    pub fn min_seq(&self) -> (n: u64)
        requires
            self.wf(),
        ensures
            self@.len() == 0 ==> n == 0,
            self@.len() > 0 ==> has_seq(self@, n) && n == self.seq_bounds().0,
            forall|i: int| 0 <= i < self@.len() ==> n <= (#[trigger] self@[i]).0.seq,
    {
        if self.pairs.len() == 0 {
            0
        } else {
            self.min_seq
        }
    }

    /// The largest sequence number, or zero for an empty memtable.
    pub fn max_seq(&self) -> (n: u64)
        requires
            self.wf(),
        ensures
            self@.len() == 0 ==> n == 0,
            self@.len() > 0 ==> has_seq(self@, n),
            n == self.seq_bounds().1,
            forall|i: int| 0 <= i < self@.len() ==> (#[trigger] self@[i]).0.seq <= n,
    {
        self.max_seq
    }

    /// Stores an entry under a key, in place of an entry under the same key.
    #[verifier::rlimit(40)]
    pub fn insert(&mut self, key: InternalKey, entry: Entry)
        requires
            old(self).wf(),
            total_footprint(old(self)@) + footprint((key@, entry@)) <= usize::MAX,
        ensures
            final(self).wf(),
            inserted(old(self)@, final(self)@, (key@, entry@)),
            content_of(final(self)@) == content_of(old(self)@).insert(key@, entry@),
            final(self).seq_bounds() == (
                if key.seq < old(self).seq_bounds().0 {
                    key.seq
                } else {
                    old(self).seq_bounds().0
                },
                if key.seq > old(self).seq_bounds().1 {
                    key.seq
                } else {
                    old(self).seq_bounds().1
                },
            ),
            total_footprint(final(self)@) <= total_footprint(old(self)@) + footprint(
                (key@, entry@),
            ),
            (forall|v: Version| #[trigger] old(self)@.contains(v) ==> v.0 != key@) ==> {
                &&& total_footprint(final(self)@) == total_footprint(old(self)@) + footprint(
                    (key@, entry@),
                )
                &&& final(self)@.len() == old(self)@.len() + 1
            },
    {
        let ghost before = self@;
        let ghost new = (key@, entry@);
        let i: usize = lower_bound(self.pairs.as_slice(), &key);
        let added: usize = entry_footprint(&key, &entry);
        if key.seq < self.min_seq {
            self.min_seq = key.seq;
        }
        if key.seq > self.max_seq {
            self.max_seq = key.seq;
        }
        proof {
            assert forall|j: int| 0 <= j < before.len() implies before[j].0.lt(key@) == (j < i) by {
                assert(before[j].0 == self.pairs@[j].0@);
            }
        }
        let same: bool = i < self.pairs.len() && matches!(
            self.pairs[i].0.compare(&key),
            crate::bytes::Rank::Same
        );
        if same {
            proof {
                total_footprint_update(before, i as int, new);
                total_footprint_at(before, i as int);
            }
            let old_size: usize = entry_footprint(&self.pairs[i].0, &self.pairs[i].1);
            self.size_bytes = self.size_bytes + added - old_size;
            self.pairs.set(i, (key, entry));
            proof {
                assert(self@ =~= before.update(i as int, new));
                assert forall|v: Version| #[trigger] self@.contains(v) <==> v == new || (
                before.contains(v) && v.0 != new.0) by {
                    update_contains(before, i as int, new, v);
                }
                assert(before.contains(before[i as int]));
                assert(has_key(before, new.0));
                assert(sorted(self@)) by {
                    assert forall|a: int, b: int| 0 <= a < b < self@.len() implies (
                    #[trigger] self@[a]).0.lt((#[trigger] self@[b]).0) by {
                        assert(before[a].0.lt(before[b].0));
                    }
                }
                seq_bounds_kept(before, self@);
            }
        } else {
            proof {
                total_footprint_insert(before, i as int, new);
            }
            self.size_bytes = self.size_bytes + added;
            self.pairs.insert(i, (key, entry));
            proof {
                assert(self@ =~= before.insert(i as int, new));
                assert forall|j: int| i <= j < before.len() implies new.0.lt(
                    (#[trigger] before[j]).0,
                ) by {
                    key_lt_total(new.0, before[j].0);
                    if before[j].0 == new.0 && j > i {
                        assert(before[i as int].0.lt(before[j].0));
                    }
                }
                assert forall|v: Version| #[trigger] self@.contains(v) <==> v == new || (
                before.contains(v) && v.0 != new.0) by {
                    insert_contains(before, i as int, new, v);
                }
                assert(sorted(self@)) by {
                    assert forall|a: int, b: int| 0 <= a < b < self@.len() implies (
                    #[trigger] self@[a]).0.lt((#[trigger] self@[b]).0) by {
                        if a < i && b == i {
                            assert(before[a].0.lt(new.0));
                        } else if a < i && b > i {
                            assert(before[a].0.lt(before[b - 1].0));
                        } else if a == i {
                            assert(new.0.lt(before[b - 1].0));
                        } else if a > i {
                            assert(before[a - 1].0.lt(before[b - 1].0));
                        } else {
                            assert(before[a].0.lt(before[b].0));
                        }
                    }
                }
                insert_seqs(before, i as int, new);
                assert(!has_key(before, new.0)) by {
                    key_lt_irreflexive(new.0);
                    assert forall|j: int| 0 <= j < before.len() implies (#[trigger] before[j]).0
                        != new.0 by {
                        if j < i {
                            assert(before[j].0.lt(new.0));
                        } else {
                            assert(new.0.lt(before[j].0));
                        }
                    }
                }
            }
        }
        proof {
            content_grows(before, self@, new);
        }
    }

    /// Stores an entry under a key, in place of an entry of the same user key and
    /// sequence number, be it a value or a tombstone: of two records that give one number
    /// to a key, only the later one stays, also where they are of different kinds.
    pub(crate) fn supersede(&mut self, key: InternalKey, entry: Entry)
        requires
            old(self).wf(),
            one_per_slot(old(self)@),
            total_footprint(old(self)@) + footprint((key@, entry@)) <= usize::MAX,
        ensures
            final(self).wf(),
            one_per_slot(final(self)@),
            forall|v: Version|
                #[trigger] final(self)@.contains(v) <==> v == (key@, entry@) || (old(
                    self,
                )@.contains(v) && !same_slot(v.0, key@)),
            total_footprint(final(self)@) <= total_footprint(old(self)@) + footprint(
                (key@, entry@),
            ),
    {
        let ghost before = self@;
        let ghost new = (key@, entry@);
        let other: EntryKind = match key.kind {
            EntryKind::Value => EntryKind::Tombstone,
            EntryKind::Tombstone => EntryKind::Value,
        };
        let twin = InternalKey {
            user_key: copy_bytes(key.user_key.as_slice()),
            seq: key.seq,
            kind: other,
        };
        let i: usize = lower_bound(self.pairs.as_slice(), &twin);
        let held: bool = i < self.pairs.len() && matches!(
            self.pairs[i].0.compare(&twin),
            crate::bytes::Rank::Same
        );
        if !held {
            proof {
                assert forall|v: Version| #[trigger] before.contains(v) && same_slot(
                    v.0,
                    key@,
                ) implies v.0 == key@ by {
                    let j = choose|j: int| 0 <= j < before.len() && before[j] == v;
                    assert(before[j].0 == self.pairs@[j].0@);
                    if v.0 != key@ {
                        assert(v.0 == twin@);
                        key_lt_irreflexive(v.0);
                        key_lt_total(before[i as int].0, twin@);
                        assert(before[i as int].0 == self.pairs@[i as int].0@);
                        if i < j {
                            assert(before[i as int].0.lt(before[j].0));
                        }
                    }
                }
            }
            self.insert(key, entry);
            proof {
                slots_stay_apart(before, self@, new);
            }
            return;
        }
        proof {
            assert(before[i as int].0 == self.pairs@[i as int].0@);
            total_footprint_update(before, i as int, new);
            total_footprint_at(before, i as int);
        }
        let added: usize = entry_footprint(&key, &entry);
        let old_size: usize = entry_footprint(&self.pairs[i].0, &self.pairs[i].1);
        self.size_bytes = self.size_bytes + added - old_size;
        self.pairs.set(i, (key, entry));
        proof {
            let after = self@;
            assert(after =~= before.update(i as int, new));
            assert forall|j: int| 0 <= j < before.len() && j != i implies !same_slot(
                (#[trigger] before[j]).0,
                new.0,
            ) by {
                assert(before.contains(before[j]) && before.contains(before[i as int]));
                key_lt_irreflexive(before[i as int].0);
                if j < i {
                    assert(before[j].0.lt(before[i as int].0));
                } else {
                    assert(before[i as int].0.lt(before[j].0));
                }
            }
            assert forall|v: Version| #[trigger] after.contains(v) <==> v == new || (
            before.contains(v) && !same_slot(v.0, new.0)) by {
                if after.contains(v) && v != new {
                    let j = choose|j: int| 0 <= j < after.len() && after[j] == v;
                    assert(before[j] == v);
                }
                if v == new {
                    assert(after[i as int] == v);
                }
                if before.contains(v) && !same_slot(v.0, new.0) {
                    let j = choose|j: int| 0 <= j < before.len() && before[j] == v;
                    assert(after[j] == v);
                }
            }
            assert forall|a: int, b: int| 0 <= a < b < after.len() implies (
            #[trigger] after[a]).0.lt((#[trigger] after[b]).0) by {
                assert(before[a].0.lt(before[b].0));
                if a == i {
                    assert(!same_slot(before[b].0, new.0));
                } else if b == i {
                    assert(!same_slot(before[a].0, new.0));
                }
            }
            slots_stay_apart(before, after, new);
            assert forall|n: u64| has_seq(before, n) implies has_seq(after, n) by {
                let j = choose|j: int| 0 <= j < before.len() && (#[trigger] before[j]).0.seq == n;
                assert(after[j].0.seq == n);
            }
        }
    }

    /// The newest version of `user_key`, value or tombstone.
    pub fn get_latest(&self, user_key: &[u8]) -> (r: Option<(&InternalKey, &Entry)>)
        requires
            self.wf(),
        ensures
            match r {
                Some((k, e)) => is_newest(self@, user_key@, u64::MAX, (k@, e@)),
                None => none_visible(self@, user_key@, u64::MAX),
            },
    {
        self.first_visible(user_key, u64::MAX)
    }

    /// The newest version of `user_key` whose sequence number is at most
    /// `seq_upper`, value or tombstone.
    pub fn first_visible(&self, user_key: &[u8], seq_upper: u64) -> (r: Option<
        (&InternalKey, &Entry),
    >)
        requires
            self.wf(),
        ensures
            match r {
                Some((k, e)) => is_newest(self@, user_key@, seq_upper, (k@, e@)),
                None => none_visible(self@, user_key@, seq_upper),
            },
    {
        match find_visible(self.pairs.as_slice(), user_key, seq_upper) {
            Some(i) => Some((&self.pairs[i].0, &self.pairs[i].1)),
            None => None,
        }
    }

    /// All versions in order.
    pub fn iter(&self) -> (r: &[(InternalKey, Entry)])
        ensures
            versions(r@) == self@,
    {
        self.pairs.as_slice()
    }

    /// All versions in order.
    pub fn range_internal_unbounded(&self) -> (r: &[(InternalKey, Entry)])
        ensures
            versions(r@) == self@,
    {
        self.pairs.as_slice()
    }

    /// The ordered versions themselves, for callers that bound a range by key and
    /// sequence number.
    pub fn iter_internal(&self) -> (r: &Vec<(InternalKey, Entry)>)
        ensures
            versions(r@) == self@,
    {
        &self.pairs
    }

    /// The versions of the user keys from `lo` up to but not including `hi`, in order.
    pub fn range_internal(&self, lo: &[u8], hi: &[u8]) -> (r: &[(InternalKey, Entry)])
        requires
            self.wf(),
            lex_le(lo@, hi@),
        ensures
            forall|v: Version|
                #[trigger] versions(r@).contains(v) <==> self@.contains(v) && lex_le(
                    lo@,
                    v.0.user_key,
                ) && lex_lt(v.0.user_key, hi@),
            sorted(versions(r@)),
    {
        run_range(self.pairs.as_slice(), lo, hi)
    }

    /// The versions of the user keys from `start` up to but not including `end`,
    /// in order.
    pub fn range(&self, start: &[u8], end: &[u8]) -> (r: &[(InternalKey, Entry)])
        requires
            self.wf(),
            lex_le(start@, end@),
        ensures
            forall|v: Version|
                #[trigger] versions(r@).contains(v) <==> self@.contains(v) && lex_le(
                    start@,
                    v.0.user_key,
                ) && lex_lt(v.0.user_key, end@),
            sorted(versions(r@)),
    {
        run_range(self.pairs.as_slice(), start, end)
    }

    /// The versions of the user keys from `start` on, in order.
    pub fn range_from(&self, start: &[u8]) -> (r: &[(InternalKey, Entry)])
        requires
            self.wf(),
        ensures
            forall|v: Version|
                #[trigger] versions(r@).contains(v) <==> self@.contains(v) && lex_le(
                    start@,
                    v.0.user_key,
                ),
            sorted(versions(r@)),
    {
        run_range_from(self.pairs.as_slice(), start)
    }
}

impl Clone for Memtable {
    fn clone(&self) -> (m: Self)
        ensures
            m@ == self@,
            self.wf() ==> m.wf(),
    {
        let mut pairs: Vec<(InternalKey, Entry)> = Vec::new();
        let mut i: usize = 0;
        while i < self.pairs.len()
            invariant
                i <= self.pairs@.len(),
                pairs@.len() == i,
                forall|j: int|
                    0 <= j < i ==> (#[trigger] pairs@[j]).0@ == self.pairs@[j].0@ && pairs@[j].1@
                        == self.pairs@[j].1@,
            decreases self.pairs.len() - i,
        {
            pairs.push(copy_pair(&self.pairs[i]));
            i = i + 1;
        }
        assert(versions(pairs@) =~= versions(self.pairs@));
        Memtable {
            pairs,
            size_bytes: self.size_bytes,
            min_seq: self.min_seq,
            max_seq: self.max_seq,
        }
    }
}

/// Two keys name the same user key and sequence number.
pub open spec fn same_slot(a: KeyView, b: KeyView) -> bool {
    a.user_key == b.user_key && a.seq == b.seq
}

/// A user key and a sequence number determine a version.
pub open spec fn one_per_slot(s: Seq<Version>) -> bool {
    forall|v: Version, w: Version|
        #![trigger s.contains(v), s.contains(w)]
        s.contains(v) && s.contains(w) && same_slot(v.0, w.0) ==> v == w
}

proof fn slots_stay_apart(before: Seq<Version>, after: Seq<Version>, new: Version)
    requires
        one_per_slot(before),
        forall|v: Version| #[trigger] after.contains(v) ==> v == new || (before.contains(v)
            && !same_slot(v.0, new.0)),
    ensures
        one_per_slot(after),
{
    assert forall|v: Version, w: Version|
        #![trigger after.contains(v), after.contains(w)]
        after.contains(v) && after.contains(w) && same_slot(v.0, w.0) implies v == w by {
        if v != new && w != new {
            assert(before.contains(v) && before.contains(w));
        }
    }
}

/// The last of some insertions under its key.
pub open spec fn is_last_insert(writes: Seq<Version>, v: Version) -> bool {
    exists|i: int|
        0 <= i < writes.len() && #[trigger] writes[i] == v && forall|j: int|
            i < j < writes.len() ==> (#[trigger] writes[j]).0 != v.0
}

/// A memtable goes through the states `states`, from an empty one on, by the insertions
/// `writes`.
pub open spec fn grew_by(states: Seq<Seq<Version>>, writes: Seq<Version>) -> bool {
    &&& states.len() == writes.len() + 1
    &&& states[0] == Seq::<Version>::empty()
    &&& forall|i: int|
        0 <= i < writes.len() ==> inserted(states[i], states[i + 1], #[trigger] writes[i])
}

/// After any insertions the memtable lists, in strictly ascending order, every key that
/// was inserted, once, with the last entry under it, and nothing else.
pub proof fn memtable_lists_last_inserts(states: Seq<Seq<Version>>, writes: Seq<Version>)
    requires
        grew_by(states, writes),
    ensures
        sorted(states.last()),
        forall|v: Version| #[trigger] states.last().contains(v) <==> is_last_insert(writes, v),
        forall|i: int|
            0 <= i < writes.len() ==> has_key(states.last(), (#[trigger] writes[i]).0),
        forall|i: int, j: int|
            0 <= i < j < states.last().len() ==> (#[trigger] states.last()[i]).0 != (
            #[trigger] states.last()[j]).0,
    decreases writes.len(),
{
    let last = states.last();
    if writes.len() > 0 {
        let n = writes.len() - 1;
        let w = writes.drop_last();
        let s = states.drop_last();
        assert(grew_by(s, w)) by {
            assert forall|i: int| 0 <= i < w.len() implies inserted(
                s[i],
                s[i + 1],
                #[trigger] w[i],
            ) by {
                assert(inserted(states[i], states[i + 1], writes[i]));
            }
        }
        memtable_lists_last_inserts(s, w);
        assert(inserted(states[n], states[n + 1], writes[n]));
        assert(s.last() == states[n]);
        assert forall|v: Version| #[trigger] last.contains(v) <==> is_last_insert(writes, v) by {
            assert(s.last().contains(v) <==> is_last_insert(w, v));
            if is_last_insert(w, v) && v.0 != writes[n].0 {
                let i = choose|i: int|
                    0 <= i < w.len() && #[trigger] w[i] == v && forall|j: int|
                        i < j < w.len() ==> (#[trigger] w[j]).0 != v.0;
                assert(writes[i] == v);
                assert forall|j: int| i < j < writes.len() implies (#[trigger] writes[j]).0
                    != v.0 by {
                    if j < n {
                        assert(w[j].0 != v.0);
                    }
                }
            }
            if is_last_insert(writes, v) && v != writes[n] {
                let i = choose|i: int|
                    0 <= i < writes.len() && #[trigger] writes[i] == v && forall|j: int|
                        i < j < writes.len() ==> (#[trigger] writes[j]).0 != v.0;
                assert(writes[n].0 != v.0);
                assert(w[i] == v);
                assert forall|j: int| i < j < w.len() implies (#[trigger] w[j]).0 != v.0 by {
                    assert(writes[j].0 != v.0);
                }
            }
            if v == writes[n] {
                assert(is_last_insert(writes, v));
            }
        }
        assert forall|i: int| 0 <= i < writes.len() implies has_key(
            last,
            (#[trigger] writes[i]).0,
        ) by {
            if writes[i].0 == writes[n].0 {
                assert(last.contains(writes[n]));
                let j = choose|j: int| 0 <= j < last.len() && last[j] == writes[n];
                assert(last[j].0 == writes[i].0);
            } else {
                assert(w[i] == writes[i]);
                let p = s.last();
                let q = choose|q: int| 0 <= q < p.len() && (#[trigger] p[q]).0 == writes[i].0;
                assert(p.contains(p[q]));
                assert(last.contains(p[q]));
                let j = choose|j: int| 0 <= j < last.len() && last[j] == p[q];
                assert(last[j].0 == writes[i].0);
            }
        }
    } else {
        assert(last == Seq::<Version>::empty());
    }
    assert forall|i: int, j: int| 0 <= i < j < last.len() implies (#[trigger] last[i]).0 != (
    #[trigger] last[j]).0 by {
        key_lt_irreflexive(last[i].0);
        assert(last[i].0.lt(last[j].0));
    }
}

proof fn total_footprint_at(s: Seq<Version>, i: int)
    requires
        0 <= i < s.len(),
    ensures
        footprint(s[i]) <= total_footprint(s),
    decreases s.len(),
{
    if i < s.len() - 1 {
        total_footprint_at(s.drop_last(), i);
    }
}

proof fn update_contains(s: Seq<Version>, i: int, new: Version, v: Version)
    requires
        sorted(s),
        0 <= i < s.len(),
        s[i].0 == new.0,
    ensures
        s.update(i, new).contains(v) <==> v == new || (s.contains(v) && v.0 != new.0),
{
    let t = s.update(i, new);
    if t.contains(v) && v != new {
        let j = choose|j: int| 0 <= j < t.len() && t[j] == v;
        assert(s[j] == v);
        key_lt_irreflexive(v.0);
        if j < i {
            assert(s[j].0.lt(s[i].0));
        } else {
            assert(s[i].0.lt(s[j].0));
        }
    }
    if v == new {
        assert(t[i] == v);
    }
    if s.contains(v) && v.0 != new.0 {
        let j = choose|j: int| 0 <= j < s.len() && s[j] == v;
        assert(t[j] == v);
    }
}

proof fn insert_contains(s: Seq<Version>, i: int, new: Version, v: Version)
    requires
        0 <= i <= s.len(),
        forall|j: int| 0 <= j < i ==> (#[trigger] s[j]).0.lt(new.0),
        forall|j: int| i <= j < s.len() ==> new.0.lt((#[trigger] s[j]).0),
    ensures
        s.insert(i, new).contains(v) <==> v == new || (s.contains(v) && v.0 != new.0),
{
    let t = s.insert(i, new);
    key_lt_irreflexive(new.0);
    if t.contains(v) && v != new {
        let j = choose|j: int| 0 <= j < t.len() && t[j] == v;
        if j < i {
            assert(s[j] == v);
        } else {
            assert(s[j - 1] == v);
        }
    }
    if v == new {
        assert(t[i] == v);
    }
    if s.contains(v) && v.0 != new.0 {
        let j = choose|j: int| 0 <= j < s.len() && s[j] == v;
        if j < i {
            assert(t[j] == v);
        } else {
            assert(t[j + 1] == v);
        }
    }
}

proof fn seq_bounds_kept(s: Seq<Version>, t: Seq<Version>)
    requires
        t.len() == s.len(),
        forall|j: int| 0 <= j < s.len() ==> (#[trigger] t[j]).0 == s[j].0,
    ensures
        forall|n: u64| has_seq(s, n) ==> has_seq(t, n),
{
    assert forall|n: u64| has_seq(s, n) implies has_seq(t, n) by {
        let j = choose|j: int| 0 <= j < s.len() && (#[trigger] s[j]).0.seq == n;
        assert(t[j].0.seq == n);
    }
}

proof fn insert_seqs(s: Seq<Version>, i: int, new: Version)
    requires
        0 <= i <= s.len(),
    ensures
        s.insert(i, new)[i] == new,
        has_seq(s.insert(i, new), new.0.seq),
        forall|n: u64| has_seq(s, n) ==> has_seq(s.insert(i, new), n),
{
    let t = s.insert(i, new);
    assert(t[i] == new);
    assert forall|n: u64| has_seq(s, n) implies has_seq(t, n) by {
        let j = choose|j: int| 0 <= j < s.len() && (#[trigger] s[j]).0.seq == n;
        if j < i {
            assert(t[j].0.seq == n);
        } else {
            assert(t[j + 1].0.seq == n);
        }
    }
}

/// The footprint of one pair.
fn entry_footprint(key: &InternalKey, entry: &Entry) -> (n: usize)
    requires
        footprint((key@, entry@)) <= usize::MAX,
    ensures
        n == footprint((key@, entry@)),
{
    key.user_key.len() + entry.value_len() + 8 + 1 + 8 + 48
}

} // verus!
