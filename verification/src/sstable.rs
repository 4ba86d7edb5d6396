//! Tables: immutable sorted runs of versions with an optional filter.

use vstd::prelude::*;
use crate::bloom::{
    any_hits, bit_at, bytes_for, hits, BloomFilter, BloomView, BITS_PER_KEY, NUM_HASHES,
};
use crate::bytes::{copy_bytes, lex_le, lex_lt};
use crate::entry::Entry;
use crate::keys::InternalKey;
use crate::manifest::{MetaView, SstableMeta};
use crate::records::{
    copy_pair, find_visible, is_newest, none_visible, run_range, run_range_from, sorted, versions,
    Version,
};

verus! {

/// What one version takes in the file of a table: the frame of a record with one
/// operation, the key and the value.
pub open spec fn record_size(v: Version) -> nat {
    41 + v.1.value_size() + v.0.user_key.len()
}

/// The size of the file of a table that holds the versions of `s`, as far as 64 bits show
/// it.
pub open spec fn table_size(s: Seq<Version>) -> nat
    decreases s.len(),
{
    if s.len() == 0 {
        0
    } else {
        crate::compaction::capped(table_size(s.drop_last()) + record_size(s.last()))
    }
}

/// The largest sequence number of the versions of `s`, zero for none.
pub open spec fn top_seq(s: Seq<Version>) -> u64
    decreases s.len(),
{
    if s.len() == 0 {
        0
    } else {
        crate::manifest::larger(top_seq(s.drop_last()), s.last().0.seq)
    }
}

/// The smallest sequence number of the versions of `s`, the largest number for
/// none.
pub open spec fn bottom_seq(s: Seq<Version>) -> u64
    decreases s.len(),
{
    if s.len() == 0 {
        u64::MAX
    } else {
        let b = bottom_seq(s.drop_last());
        if s.last().0.seq < b {
            s.last().0.seq
        } else {
            b
        }
    }
}

/// The catalog entry of a table that holds the versions of `s`.
pub open spec fn meta_of(s: Seq<Version>, id: u64, level: u8) -> MetaView {
    MetaView {
        id,
        level,
        min_key: s[0].0.user_key,
        max_key: s[s.len() - 1].0.user_key,
        min_seq: bottom_seq(s),
        max_seq: top_seq(s),
        size_bytes: table_size(s) as u64,
    }
}

/// A catalog entry describes a table: every version lies within its bounds.
pub open spec fn describes(m: MetaView, s: Seq<Version>) -> bool {
    forall|v: Version| #[trigger]
        s.contains(v) ==> lex_le(m.min_key, v.0.user_key) && lex_le(v.0.user_key, m.max_key)
            && m.min_seq <= v.0.seq <= m.max_seq
}

pub proof fn seq_bounds(s: Seq<Version>, i: int)
    requires
        0 <= i < s.len(),
    ensures
        bottom_seq(s) <= s[i].0.seq <= top_seq(s),
    decreases s.len(),
{
    if i < s.len() - 1 {
        seq_bounds(s.drop_last(), i);
        assert(s.drop_last()[i] == s[i]);
    }
}

/// The catalog entry made for a sorted run describes it.
pub proof fn meta_of_describes(s: Seq<Version>, id: u64, level: u8)
    requires
        sorted(s),
        s.len() > 0,
    ensures
        describes(meta_of(s, id, level), s),
{
    let m = meta_of(s, id, level);
    assert forall|v: Version| #[trigger] s.contains(v) implies lex_le(m.min_key, v.0.user_key)
        && lex_le(v.0.user_key, m.max_key) && m.min_seq <= v.0.seq <= m.max_seq by {
        let i = choose|i: int| 0 <= i < s.len() && s[i] == v;
        seq_bounds(s, i);
        if 0 < i {
            assert(s[0].0.lt(s[i].0));
        }
        if i < s.len() - 1 {
            assert(s[i].0.lt(s[s.len() - 1].0));
        }
    }
}

/// An open table.
#[derive(Debug)]
pub struct SstableReader {
    pairs: Vec<(InternalKey, Entry)>,
    filter: Option<BloomFilter>,
}

impl View for SstableReader {
    type V = Seq<Version>;

    /// The versions in order.
    closed spec fn view(&self) -> Seq<Version> {
        versions(self.pairs@)
    }
}

impl Clone for SstableReader {
    fn clone(&self) -> (t: Self)
        ensures
            t@ == self@,
            t.filter_view() == self.filter_view(),
            self.wf() ==> t.wf(),
    {
        let filter: Option<BloomFilter> = match &self.filter {
            Some(f) => Some(f.clone()),
            None => None,
        };
        let t = SstableReader { pairs: copy_pairs(self.pairs.as_slice()), filter };
        t
    }
}

/// A copy of stored pairs.
pub fn copy_pairs(v: &[(InternalKey, Entry)]) -> (r: Vec<(InternalKey, Entry)>)
    ensures
        versions(r@) == versions(v@),
{
    let mut r: Vec<(InternalKey, Entry)> = Vec::new();
    let mut i: usize = 0;
    while i < v.len()
        invariant
            i <= v@.len(),
            r@.len() == i,
            forall|j: int|
                0 <= j < i ==> (#[trigger] r@[j]).0@ == v@[j].0@ && r@[j].1@ == v@[j].1@,
        decreases v.len() - i,
    {
        r.push(copy_pair(&v[i]));
        i = i + 1;
    }
    assert(versions(r@) =~= versions(v@));
    r
}

/// The key of one of the versions has `p` among its positions.
pub open spec fn run_hits(s: Seq<Version>, num_bits: nat, p: int) -> bool {
    exists|k: int|
        0 <= k < s.len() && #[trigger] hits(s[k].0.user_key, NUM_HASHES as int, num_bits, p)
}

/// A filter is the one over the keys of a run: it has its size, and just the bits of the
/// keys are set.
pub open spec fn filters_run(b: BloomView, s: Seq<Version>) -> bool {
    &&& b.num_bits == (if s.len() * BITS_PER_KEY >= 64 {
        s.len() * BITS_PER_KEY
    } else {
        64
    })
    &&& b.bits.len() == bytes_for(b.num_bits)
    &&& forall|p: int|
        0 <= p < b.bits.len() * 8 ==> #[trigger] bit_at(b.bits, p) == run_hits(s, b.num_bits, p)
}

impl SstableReader {
    /// The filter over the keys, where there is one.
    pub closed spec fn filter_view(&self) -> Option<BloomView> {
        match self.filter {
            Some(f) => Some(f@),
            None => None,
        }
    }

    /// The versions are sorted and the filter answers "perhaps" for each of
    /// their keys.
    pub closed spec fn wf(&self) -> bool {
        &&& sorted(self@)
        &&& self.filter matches Some(f) ==> f@.wf() && forall|v: Version| #[trigger]
            self@.contains(v) ==> f@.may_hold(v.0.user_key)
    }

    pub proof fn lemma_sorted(&self)
        requires
            self.wf(),
        ensures
            sorted(self@),
    {
    }

    /// A table of a sorted run.
    pub fn build(pairs: Vec<(InternalKey, Entry)>, with_bloom: bool) -> (t: SstableReader)
        requires
            sorted(versions(pairs@)),
            pairs@.len() * BITS_PER_KEY <= usize::MAX,
        ensures
            t.wf(),
            t@ == versions(pairs@),
            match t.filter_view() {
                Some(b) => with_bloom && filters_run(b, versions(pairs@)),
                None => !with_bloom,
            },
    {
        if !with_bloom {
            return SstableReader { pairs, filter: None };
        }
        let mut keys: Vec<Vec<u8>> = Vec::new();
        let mut i: usize = 0;
        while i < pairs.len()
            invariant
                i <= pairs@.len(),
                keys@.len() == i,
                forall|j: int| 0 <= j < i ==> (#[trigger] keys@[j])@ == pairs@[j].0.user_key@,
            decreases pairs.len() - i,
        {
            keys.push(copy_bytes(pairs[i].0.user_key.as_slice()));
            i = i + 1;
        }
        let f: BloomFilter = BloomFilter::build(keys.as_slice());
        let t = SstableReader { pairs, filter: Some(f) };
        proof {
            assert forall|v: Version| #[trigger] t@.contains(v) implies f@.may_hold(
                v.0.user_key,
            ) by {
                let j = choose|j: int| 0 <= j < t@.len() && t@[j] == v;
                assert(keys@[j]@ == v.0.user_key);
            }
            assert forall|p: int| 0 <= p < f@.bits.len() * 8 implies #[trigger] bit_at(f@.bits, p)
                == run_hits(t@, f@.num_bits, p) by {
                if any_hits(keys@, f@.num_bits, p) {
                    let k = choose|k: int|
                        0 <= k < keys@.len() && #[trigger] hits(
                            keys@[k]@,
                            NUM_HASHES as int,
                            f@.num_bits,
                            p,
                        );
                    assert(t@[k].0.user_key == keys@[k]@);
                }
                if run_hits(t@, f@.num_bits, p) {
                    let k = choose|k: int|
                        0 <= k < t@.len() && #[trigger] hits(
                            t@[k].0.user_key,
                            NUM_HASHES as int,
                            f@.num_bits,
                            p,
                        );
                    assert(keys@[k]@ == t@[k].0.user_key);
                }
            }
        }
        t
    }

    /// False only where the table holds no version of `key`.
    pub fn might_contain(&self, key: &[u8]) -> (r: bool)
        requires
            self.wf(),
        ensures
            r == (match self.filter_view() {
                Some(b) => b.may_hold(key@),
                None => true,
            }),
            !r ==> forall|v: Version| #[trigger] self@.contains(v) ==> v.0.user_key != key@,
    {
        match &self.filter {
            Some(f) => f.maybe_contains(key),
            None => true,
        }
    }

    /// The newest version of `user_key`, value or tombstone.
    pub fn get_latest(&self, user_key: &[u8]) -> (r: Option<(&InternalKey, &Entry)>)
        requires
            self.wf(),
        ensures
            match r {
                Some((k, e)) => is_newest(self@, user_key@, u64::MAX, (k@, e@)),
                None => none_visible(self@, user_key@, u64::MAX),
            },
    {
        self.newest_visible(user_key, u64::MAX)
    }

    /// The newest version of `user_key` whose sequence number is at most
    /// `seq_upper`, value or tombstone.
    pub fn newest_visible(&self, user_key: &[u8], seq_upper: u64) -> (r: Option<
        (&InternalKey, &Entry),
    >)
        requires
            self.wf(),
        ensures
            match r {
                Some((k, e)) => is_newest(self@, user_key@, seq_upper, (k@, e@)),
                None => none_visible(self@, user_key@, seq_upper),
            },
    {
        match find_visible(self.pairs.as_slice(), user_key, seq_upper) {
            Some(i) => Some((&self.pairs[i].0, &self.pairs[i].1)),
            None => None,
        }
    }

    /// All versions in order.
    pub fn full_iter(&self) -> (r: &[(InternalKey, Entry)])
        ensures
            versions(r@) == self@,
    {
        self.pairs.as_slice()
    }

    /// The versions of the user keys from `lo` up to but not including `hi`.
    pub fn range_iter(&self, lo: &[u8], hi: &[u8]) -> (r: &[(InternalKey, Entry)])
        requires
            self.wf(),
            lex_le(lo@, hi@),
        ensures
            sorted(versions(r@)),
            forall|x: Version|
                #[trigger] versions(r@).contains(x) <==> self@.contains(x) && lex_le(
                    lo@,
                    x.0.user_key,
                ) && lex_lt(x.0.user_key, hi@),
    {
        run_range(self.pairs.as_slice(), lo, hi)
    }

    /// The versions of the user keys from `lo` on.
    pub fn range_from(&self, lo: &[u8]) -> (r: &[(InternalKey, Entry)])
        requires
            self.wf(),
        ensures
            sorted(versions(r@)),
            forall|x: Version|
                #[trigger] versions(r@).contains(x) <==> self@.contains(x) && lex_le(
                    lo@,
                    x.0.user_key,
                ),
    {
        run_range_from(self.pairs.as_slice(), lo)
    }
}

/// The catalog entry of a table that holds these pairs.
pub fn describe_pairs(pairs: &[(InternalKey, Entry)], id: u64, level: u8) -> (m: SstableMeta)
    requires
        pairs@.len() > 0,
    ensures
        m@ == meta_of(versions(pairs@), id, level),
{
    let ghost s = versions(pairs@);
    let n: usize = pairs.len();
    let mut top: u64 = 0;
    let mut bottom: u64 = u64::MAX;
    let mut size: u64 = 0;
    let mut i: usize = 0;
    assert(s.take(0) =~= Seq::<Version>::empty());
    while i < n
        invariant
            i <= n == pairs@.len(),
            s == versions(pairs@),
            top == top_seq(s.take(i as int)),
            bottom == bottom_seq(s.take(i as int)),
            size == table_size(s.take(i as int)),
        decreases n - i,
    {
        proof {
            assert(s.take(i + 1).drop_last() =~= s.take(i as int));
            assert(s.take(i + 1).last() == s[i as int]);
        }
        let k: &InternalKey = &pairs[i].0;
        if k.seq > top {
            top = k.seq;
        }
        if k.seq < bottom {
            bottom = k.seq;
        }
        let part: u64 = 41u64.saturating_add(pairs[i].1.value_len() as u64).saturating_add(
            k.user_key.len() as u64,
        );
        size = size.saturating_add(part);
        i = i + 1;
    }
    assert(s.take(s.len() as int) =~= s);
    SstableMeta {
        id,
        level,
        min_key: copy_bytes(pairs[0].0.user_key.as_slice()),
        max_key: copy_bytes(pairs[n - 1].0.user_key.as_slice()),
        min_seq: bottom,
        max_seq: top,
        size_bytes: size,
    }
}

} // verus!
