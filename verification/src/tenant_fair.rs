//! Tenants and the share of shared memory that each is sure of.

use vstd::prelude::*;
use crate::bytes::bytes_eq;
use crate::entry::Entry;
use crate::keys::{InternalKey, KS_USER};
use crate::manifest::{meta_views, MetaView, SstableMeta};
use crate::memtable::total_footprint;
use crate::records::{versions, Version};

verus! {

/// The sixteen bytes that name a tenant.
pub type TenantId = [u8; 16];

/// The tenant bytes of a user key: the sixteen that follow the keyspace byte.
pub open spec fn tenant_bytes(key: Seq<u8>) -> Option<Seq<u8>> {
    if key.len() >= 17 && key[0] == KS_USER {
        Some(key.subrange(1, 17))
    } else {
        None
    }
}

/// The tenant that a user key belongs to, if it carries one.
pub fn tenant_from_user_key(key: &[u8]) -> (r: Option<TenantId>)
    ensures
        match r {
            Some(t) => tenant_bytes(key@) == Some(t@),
            None => tenant_bytes(key@) is None,
        },
{
    if key.len() < 17 || key[0] != KS_USER {
        return None;
    }
    let mut t: TenantId = [0u8; 16];
    let mut i: usize = 0;
    while i < 16
        invariant
            i <= 16,
            key@.len() >= 17,
            t@.len() == 16,
            forall|j: int| 0 <= j < i ==> #[trigger] t@[j] == key@[j + 1],
        decreases 16 - i,
    {
        t[i] = key[i + 1];
        i = i + 1;
    }
    assert(t@ =~= key@.subrange(1, 17));
    Some(t)
}

/// What fairness between tenants guarantees each of them.
#[derive(Debug, Clone, Copy)]
pub struct FairShareState {
    /// A tenant that holds at most this many bytes of the block cache loses none
    /// of them to other tenants.
    pub cache_floor_bytes: u64,
}

/// What tenants have in common, and how many share it.
#[derive(Debug, Clone, Copy)]
pub struct FairConfig {
    pub tenant_count: u64,
    pub memtable_total_bytes: u64,
    pub cache_total_bytes: u64,
    pub l0_token_budget: u64,
}

impl FairConfig {
    /// A tenant's part of a total.
    pub open spec fn part_of(&self, total: u64) -> int {
        if self.tenant_count == 0 {
            total as int
        } else {
            total as int / self.tenant_count as int
        }
    }

    /// A tenant's part of a total.
    pub fn part(&self, total: u64) -> (n: u64)
        ensures
            n == self.part_of(total),
    {
        if self.tenant_count == 0 {
            total
        } else {
            total / self.tenant_count
        }
    }

    /// What the block cache guarantees each tenant.
    pub fn cache_floor(&self) -> (f: FairShareState)
        ensures
            f.cache_floor_bytes == self.part_of(self.cache_total_bytes),
    {
        FairShareState { cache_floor_bytes: self.part(self.cache_total_bytes) }
    }

    /// Whether a tenant holds more bytes of level 0 than its part, and so is to blame for
    /// a backlog there.
    pub fn is_noisy(&self, l0_bytes: u64) -> (r: bool)
        ensures
            r == (l0_bytes > self.part_of(self.l0_token_budget)),
    {
        l0_bytes > self.part(self.l0_token_budget)
    }

    /// Whether a tenant that holds `own` of the `all` bytes in the memtables may add some:
    /// within its part always, and beyond it as long as there is room.
    pub fn admits(&self, own: u64, all: u64, bytes: u64) -> (r: bool)
        ensures
            r == (own + bytes <= self.part_of(self.memtable_total_bytes) || all + bytes
                <= self.memtable_total_bytes),
    {
        let within: bool = match own.checked_add(bytes) {
            Some(sum) => sum <= self.part(self.memtable_total_bytes),
            None => false,
        };
        let room: bool = match all.checked_add(bytes) {
            Some(sum) => sum <= self.memtable_total_bytes,
            None => false,
        };
        proof {
            assert(self.part_of(self.memtable_total_bytes) <= u64::MAX) by (nonlinear_arith)
                requires
                    self.part_of(self.memtable_total_bytes) == (if self.tenant_count == 0 {
                        self.memtable_total_bytes as int
                    } else {
                        self.memtable_total_bytes as int / self.tenant_count as int
                    }),
            ;
        }
        within || room
    }
}

/// What a version counts for its tenant: the bytes of its value, and one byte at least.
pub open spec fn weight(v: Version) -> nat {
    if v.1.value_size() > 0 {
        v.1.value_size()
    } else {
        1
    }
}

/// What the versions count for a tenant.
pub open spec fn attributed(s: Seq<Version>, tenant: Seq<u8>) -> nat
    decreases s.len(),
{
    if s.len() == 0 {
        0
    } else {
        attributed(s.drop_last(), tenant) + (if tenant_bytes(s.last().0.user_key) == Some(tenant) {
            weight(s.last())
        } else {
            0
        })
    }
}

/// The part of a flush that is put down to a tenant.
#[derive(Debug, Clone, Copy)]
pub struct TenantPart {
    pub tenant: TenantId,
    pub bytes: u64,
}

/// The tenant has a part.
pub open spec fn has_part(parts: Seq<TenantPart>, tenant: Seq<u8>) -> bool {
    exists|i: int| 0 <= i < parts.len() && (#[trigger] parts[i]).tenant@ == tenant
}

/// The parts say of every tenant what the versions count for it, and of no other.
pub open spec fn parts_of(parts: Seq<TenantPart>, s: Seq<Version>) -> bool {
    &&& forall|i: int|
        0 <= i < parts.len() ==> (#[trigger] parts[i]).bytes == attributed(s, parts[i].tenant@)
            && parts[i].bytes > 0
    &&& forall|i: int, j: int|
        0 <= i < j < parts.len() ==> (#[trigger] parts[i]).tenant@ != (#[trigger] parts[j]).tenant@
    &&& forall|t: Seq<u8>| #[trigger] attributed(s, t) > 0 ==> has_part(parts, t)
}

proof fn attributed_is_small(s: Seq<Version>, tenant: Seq<u8>)
    ensures
        attributed(s, tenant) <= total_footprint(s),
    decreases s.len(),
{
    if s.len() > 0 {
        attributed_is_small(s.drop_last(), tenant);
    }
}

proof fn footprint_grows(s: Seq<Version>, n: int)
    requires
        0 <= n <= s.len(),
    ensures
        total_footprint(s.take(n)) <= total_footprint(s),
    decreases s.len() - n,
{
    if n == s.len() {
        assert(s.take(n) =~= s);
    } else {
        footprint_grows(s, n + 1);
        assert(s.take(n + 1).drop_last() =~= s.take(n));
    }
}

/// Puts the pairs of a flush down to the tenants whose keys they are.
pub fn attribute_flush(pairs: &[(InternalKey, Entry)]) -> (parts: Vec<TenantPart>)
    requires
        total_footprint(versions(pairs@)) <= u64::MAX,
    ensures
        parts_of(parts@, versions(pairs@)),
{
    let ghost s = versions(pairs@);
    let mut parts: Vec<TenantPart> = Vec::new();
    let mut i: usize = 0;
    assert(s.take(0) =~= Seq::<Version>::empty());
    while i < pairs.len()
        invariant
            i <= pairs@.len(),
            s == versions(pairs@),
            total_footprint(s) <= u64::MAX,
            parts_of(parts@, s.take(i as int)),
        decreases pairs.len() - i,
    {
        let ghost now = s.take(i as int);
        let ghost next = s.take(i + 1);
        let ghost before = parts@;
        proof {
            assert(next.drop_last() =~= now);
            assert(next.last() == s[i as int]);
            footprint_grows(s, i + 1);
        }
        let len: usize = pairs[i].1.value_len();
        let size: u64 = if len > 0 {
            len as u64
        } else {
            1
        };
        assert(size == weight(s[i as int]));
        match tenant_from_user_key(pairs[i].0.user_key.as_slice()) {
            Some(t) => {
                let mut k: usize = 0;
                while k < parts.len() && !bytes_eq(
                    parts[k].tenant.as_slice(),
                    t.as_slice(),
                )
                    invariant
                        k <= parts@.len(),
                        forall|j: int| 0 <= j < k ==> (#[trigger] parts@[j]).tenant@ != t@,
                    decreases parts.len() - k,
                {
                    k = k + 1;
                }
                proof {
                    attributed_is_small(next, t@);
                }
                if k < parts.len() {
                    let part: TenantPart = parts[k];
                    parts.set(k, TenantPart { tenant: part.tenant, bytes: part.bytes + size });
                } else {
                    assert(attributed(now, t@) == 0) by {
                        if attributed(now, t@) > 0 {
                            assert(has_part(before, t@));
                        }
                    }
                    parts.push(TenantPart { tenant: t, bytes: size });
                }
                proof {
                    assert(parts@[k as int].tenant@ == t@);
                    assert forall|j: int| 0 <= j < parts@.len() implies (
                    #[trigger] parts@[j]).bytes == attributed(next, parts@[j].tenant@)
                        && parts@[j].bytes > 0 by {
                        if j != k {
                            assert(parts@[j] == before[j]);
                            if j > k {
                                assert(before[k as int].tenant@ != before[j].tenant@);
                            }
                        }
                    }
                    assert forall|a: int, b: int| 0 <= a < b < parts@.len() implies (
                    #[trigger] parts@[a]).tenant@ != (#[trigger] parts@[b]).tenant@ by {
                        if b < before.len() {
                            assert(before[a].tenant@ != before[b].tenant@);
                        }
                    }
                    assert forall|u: Seq<u8>| #[trigger] attributed(next, u) > 0 implies has_part(
                        parts@,
                        u,
                    ) by {
                        if u != t@ {
                            assert(attributed(now, u) > 0);
                            let j = choose|j: int|
                                0 <= j < before.len() && (#[trigger] before[j]).tenant@ == u;
                            assert(parts@[j].tenant@ == u);
                        }
                    }
                }
            },
            None => {
                proof {
                    assert forall|u: Seq<u8>| #[trigger] attributed(next, u) == attributed(
                        now,
                        u,
                    ) by {}
                    assert(parts_of(parts@, next)) by {
                        assert forall|u: Seq<u8>| #[trigger] attributed(
                            next,
                            u,
                        ) > 0 implies has_part(parts@, u) by {
                            assert(attributed(now, u) > 0);
                        }
                    }
                }
            },
        }
        i = i + 1;
    }
    assert(s.take(s.len() as int) =~= s);
    parts
}

/// The bytes of some parts together.
pub open spec fn parts_total(parts: Seq<TenantPart>) -> nat
    decreases parts.len(),
{
    if parts.len() == 0 {
        0
    } else {
        parts_total(parts.drop_last()) + parts.last().bytes as nat
    }
}

proof fn parts_total_grows(parts: Seq<TenantPart>, n: int)
    requires
        0 <= n <= parts.len(),
    ensures
        parts_total(parts.take(n)) <= parts_total(parts),
        n > 0 ==> parts_total(parts.take(n)) == parts_total(parts.take(n - 1)) + parts[n - 1].bytes,
    decreases parts.len() - n,
{
    if n > 0 {
        assert(parts.take(n).drop_last() =~= parts.take(n - 1));
    }
    if n == parts.len() {
        assert(parts.take(n) =~= parts);
    } else {
        parts_total_grows(parts, n + 1);
    }
}

/// What a new level-0 table adds to a tenant's account.
#[derive(Debug, Clone, Copy)]
pub struct LevelZeroShare {
    pub tenant: TenantId,
    /// The bytes that leave the tenant's share of the memtable.
    pub released: u64,
    /// One for the tenant with the largest part of the table, else zero.
    pub files: u64,
    /// The tenant's part of the table's bytes.
    pub bytes: u64,
}

/// The part at `d` is the largest, and the last of the largest.
pub open spec fn is_dominant(parts: Seq<TenantPart>, d: int) -> bool {
    &&& 0 <= d < parts.len()
    &&& forall|i: int| 0 <= i < parts.len() ==> (#[trigger] parts[i]).bytes <= parts[d].bytes
    &&& forall|i: int| d < i < parts.len() ==> (#[trigger] parts[i]).bytes < parts[d].bytes
}

/// The shares divide a table of `size` bytes in proportion to the parts, rounded down,
/// and the table itself goes to the tenant at `d`.
pub open spec fn shares_of(
    shares: Seq<LevelZeroShare>,
    parts: Seq<TenantPart>,
    size: u64,
    d: int,
) -> bool {
    &&& shares.len() == parts.len()
    &&& forall|i: int|
        0 <= i < parts.len() ==> {
            let s = #[trigger] shares[i];
            &&& s.tenant == parts[i].tenant
            &&& s.released == parts[i].bytes
            &&& s.files == (if i == d {
                1int
            } else {
                0
            })
            &&& s.bytes == (parts[i].bytes * size) / (if parts_total(parts) > 0 {
                parts_total(parts) as int
            } else {
                1
            })
        }
}

/// Divides a new level-0 table between the tenants that have a part in it.
pub fn divide_table(parts: &Vec<TenantPart>, size: u64) -> (shares: Vec<LevelZeroShare>)
    requires
        parts_total(parts@) <= u64::MAX,
    ensures
        parts@.len() == 0 ==> shares@.len() == 0,
        parts@.len() > 0 ==> exists|d: int|
            #[trigger] is_dominant(parts@, d) && shares_of(shares@, parts@, size, d),
{
    let n: usize = parts.len();
    let mut sum: u64 = 0;
    let mut d: usize = 0;
    let mut i: usize = 0;
    assert(parts@.take(0) =~= Seq::<TenantPart>::empty());
    while i < n
        invariant
            i <= n == parts@.len(),
            parts_total(parts@) <= u64::MAX,
            sum == parts_total(parts@.take(i as int)),
            i == 0 ==> d == 0,
            i > 0 ==> d < i,
            forall|k: int| 0 <= k < i ==> (#[trigger] parts@[k]).bytes <= parts@[d as int].bytes,
            forall|k: int| d < k < i ==> (#[trigger] parts@[k]).bytes < parts@[d as int].bytes,
        decreases n - i,
    {
        proof {
            parts_total_grows(parts@, i + 1);
        }
        sum = sum + parts[i].bytes;
        if parts[i].bytes >= parts[d].bytes {
            d = i;
        }
        i = i + 1;
    }
    assert(parts@.take(n as int) =~= parts@);
    let whole: u64 = if sum > 0 {
        sum
    } else {
        1
    };
    let mut shares: Vec<LevelZeroShare> = Vec::new();
    i = 0;
    while i < n
        invariant
            i <= n == parts@.len(),
            sum == parts_total(parts@),
            whole == (if sum > 0 {
                sum
            } else {
                1
            }),
            shares@.len() == i,
            forall|k: int|
                0 <= k < i ==> {
                    let s = #[trigger] shares@[k];
                    &&& s.tenant == parts@[k].tenant
                    &&& s.released == parts@[k].bytes
                    &&& s.files == (if k == d {
                        1int
                    } else {
                        0
                    })
                    &&& s.bytes == (parts@[k].bytes * size) / (whole as int)
                },
        decreases n - i,
    {
        let p: TenantPart = parts[i];
        proof {
            parts_total_grows(parts@, i + 1);
            assert(p.bytes <= whole);
            share_fits(p.bytes as int, size as int, whole as int);
        }
        let bytes: u64 = (p.bytes as u128 * size as u128 / whole as u128) as u64;
        let files: u64 = if i == d {
            1
        } else {
            0
        };
        shares.push(LevelZeroShare { tenant: p.tenant, released: p.bytes, files, bytes });
        i = i + 1;
    }
    proof {
        if n > 0 {
            assert(is_dominant(parts@, d as int));
            assert(shares_of(shares@, parts@, size, d as int));
        }
    }
    shares
}

proof fn share_fits(a: int, size: int, whole: int)
    by (nonlinear_arith)
    requires
        0 <= a <= whole,
        0 < whole <= u64::MAX,
        0 <= size <= u64::MAX,
    ensures
        0 <= a * size <= u128::MAX,
        0 <= (a * size) / whole <= size,
{
    assert(a * size <= whole * size);
    assert((a * size) / whole <= size);
}

/// The bytes of some shares together.
pub open spec fn shares_total(shares: Seq<LevelZeroShare>) -> nat
    decreases shares.len(),
{
    if shares.len() == 0 {
        0
    } else {
        shares_total(shares.drop_last()) + shares.last().bytes as nat
    }
}

proof fn shares_stay_below(
    shares: Seq<LevelZeroShare>,
    parts: Seq<TenantPart>,
    size: u64,
    whole: int,
    n: int,
)
    requires
        0 <= n <= parts.len(),
        shares.len() == parts.len(),
        whole > 0,
        forall|i: int|
            0 <= i < parts.len() ==> (#[trigger] shares[i]).bytes == (parts[i].bytes * size) / whole,
    ensures
        shares_total(shares.take(n)) * whole <= parts_total(parts.take(n)) * size,
    decreases n,
{
    if n > 0 {
        shares_stay_below(shares, parts, size, whole, n - 1);
        assert(shares.take(n).drop_last() =~= shares.take(n - 1));
        assert(parts.take(n).drop_last() =~= parts.take(n - 1));
        let a = shares_total(shares.take(n - 1)) as int;
        let b = parts_total(parts.take(n - 1)) as int;
        let x = parts[n - 1].bytes as int;
        let q = shares[n - 1].bytes as int;
        assert(shares[n - 1].bytes == (parts[n - 1].bytes * size) / whole);
        assert((a + q) * whole <= (b + x) * size) by (nonlinear_arith)
            requires
                a * whole <= b * size,
                q == (x * size) / whole,
                whole > 0,
                x >= 0,
                size >= 0,
        ;
        assert(shares_total(shares.take(n)) == a + q);
        assert(parts_total(parts.take(n)) == b + x);
    } else {
        let a = shares_total(shares.take(0)) as int;
        let b = parts_total(parts.take(0)) as int;
        assert(a == 0 && b == 0);
        assert(a * whole <= b * size) by (nonlinear_arith)
            requires
                a == 0,
                b == 0,
        ;
    }
}

/// The shares in a table never come to more than the table.
pub proof fn shares_fit_the_table(
    shares: Seq<LevelZeroShare>,
    parts: Seq<TenantPart>,
    size: u64,
    d: int,
)
    requires
        shares_of(shares, parts, size, d),
    ensures
        shares_total(shares) <= size,
{
    let whole = if parts_total(parts) > 0 {
        parts_total(parts) as int
    } else {
        1
    };
    let n = parts.len() as int;
    shares_stay_below(shares, parts, size, whole, n);
    assert(shares.take(n) =~= shares);
    assert(parts.take(n) =~= parts);
    let s = shares_total(shares) as int;
    let t = parts_total(parts) as int;
    assert(s <= size) by (nonlinear_arith)
        requires
            s * whole <= t * size,
            whole > 0,
            t <= whole,
            t >= 0,
            size >= 0,
    ;
}

/// What leaves the accounts of tenants when tables are removed: each table of level 0
/// whose first key names a tenant, with its bytes.
pub open spec fn level_zero_removals(metas: Seq<MetaView>) -> Seq<(Seq<u8>, u64)>
    decreases metas.len(),
{
    if metas.len() == 0 {
        Seq::empty()
    } else {
        let before = level_zero_removals(metas.drop_last());
        let m = metas.last();
        match tenant_bytes(m.min_key) {
            Some(t) if m.level == 0 => before.push((t, m.size_bytes)),
            _ => before,
        }
    }
}

/// The tenants and bytes of some parts.
pub open spec fn part_views(parts: Seq<TenantPart>) -> Seq<(Seq<u8>, u64)> {
    Seq::new(parts.len(), |i: int| (parts[i].tenant@, parts[i].bytes))
}

/// Which tenants the removed tables of level 0 leave, one part for each table.
pub fn attribute_removal(removed: &Vec<SstableMeta>) -> (parts: Vec<TenantPart>)
    ensures
        part_views(parts@) == level_zero_removals(meta_views(removed@)),
{
    let ghost metas = meta_views(removed@);
    let mut parts: Vec<TenantPart> = Vec::new();
    let mut i: usize = 0;
    proof {
        assert(metas.take(0) =~= Seq::<MetaView>::empty());
        assert(part_views(parts@) =~= Seq::<(Seq<u8>, u64)>::empty());
    }
    while i < removed.len()
        invariant
            i <= removed@.len(),
            metas == meta_views(removed@),
            part_views(parts@) == level_zero_removals(metas.take(i as int)),
        decreases removed.len() - i,
    {
        let m: &SstableMeta = &removed[i];
        let ghost before = parts@;
        proof {
            assert(metas[i as int] == m@);
            assert(metas.take(i + 1).drop_last() =~= metas.take(i as int));
            assert(metas.take(i + 1).last() == m@);
        }
        if m.level == 0 {
            match tenant_from_user_key(m.min_key.as_slice()) {
                Some(tenant) => {
                    parts.push(TenantPart { tenant, bytes: m.size_bytes });
                    assert(part_views(parts@) =~= part_views(before).push(
                        (tenant@, m.size_bytes),
                    ));
                },
                None => {},
            }
        }
        i = i + 1;
    }
    assert(metas.take(metas.len() as int) =~= metas);
    parts
}

} // verus!
