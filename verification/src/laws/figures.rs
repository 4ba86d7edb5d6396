//! What the engine reports of itself, and the shares of tenants.

use vstd::prelude::*;
use crate::compaction::catalog_bytes;
use crate::engine::read::level_counts;
use crate::engine::stats::{
    level_sizes, live_bytes, sizes_at, sizes_in_order, table_stat,
};
use crate::engine::Engine;
use crate::laws::planner::{bytes_at, size_is_sum, tables_at};
use crate::manifest::MetaView;
use crate::records::Version;
use crate::tenant_fair::{
    attributed, is_dominant, level_zero_removals, parts_total, shares_of, tenant_bytes, FairConfig,
    LevelZeroShare, TenantPart,
};

verus! {

/// The bytes of keys and values, added up.
pub open spec fn bytes_of_pairs(r: Seq<(Seq<u8>, Seq<u8>)>) -> int {
    r.fold_left(0int, |b: int, p: (Seq<u8>, Seq<u8>)| b + p.0.len() + p.1.len())
}

/// The user data is measured as the bytes of all its keys and values, or as the largest
/// 64-bit number where they are more.
pub proof fn user_data_is_keys_and_values(r: Seq<(Seq<u8>, Seq<u8>)>)
    ensures
        bytes_of_pairs(r) <= 0xffff_ffff_ffff_ffff ==> live_bytes(r, r.len() as int)
            == bytes_of_pairs(r),
        bytes_of_pairs(r) > 0xffff_ffff_ffff_ffff ==> live_bytes(r, r.len() as int)
            == 0xffff_ffff_ffff_ffffnat,
    decreases r.len(),
{
    if r.len() > 0 {
        let init = r.drop_last();
        user_data_is_keys_and_values(init);
        same_front(r, init, init.len() as int);
    }
}

proof fn same_front(a: Seq<(Seq<u8>, Seq<u8>)>, b: Seq<(Seq<u8>, Seq<u8>)>, n: int)
    requires
        n <= a.len(),
        n <= b.len(),
        forall|i: int| 0 <= i < n ==> a[i] == b[i],
    ensures
        live_bytes(a, n) == live_bytes(b, n),
    decreases n,
{
    if n > 0 {
        same_front(a, b, n - 1);
    }
}

/// The bytes on disk are those of all tables, added up.
pub proof fn disk_bytes_are_those_of_all_tables(s: Seq<MetaView>)
    ensures
        catalog_bytes(s) == s.fold_left(0int, |b: int, m: MetaView| b + m.size_bytes),
    decreases s.len(),
{
    if s.len() > 0 {
        disk_bytes_are_those_of_all_tables(s.drop_last());
    }
}

/// The list names each level in order, and each once.
pub open spec fn names_levels<T>(v: Seq<(u8, T)>, n: int) -> bool {
    &&& forall|i: int| 0 <= i < v.len() ==> (#[trigger] v[i]).0 < n
    &&& forall|i: int, j: int| 0 <= i < j < v.len() ==> (#[trigger] v[i]).0 < (#[trigger] v[j]).0
}

proof fn levels_so_far(s: Seq<MetaView>, n: int)
    requires
        0 <= n <= 256,
        s.len() <= usize::MAX,
        forall|l: int| bytes_at(s, l) <= u64::MAX,
    ensures
        names_levels(level_sizes(s, n), n),
        names_levels(level_counts(s, n), n),
        forall|i: int|
            0 <= i < level_sizes(s, n).len() ==> {
                let (l, b) = #[trigger] level_sizes(s, n)[i];
                b == bytes_at(s, l as int) && tables_at(s, l as int) > 0
            },
        forall|i: int|
            0 <= i < level_counts(s, n).len() ==> {
                let (l, c) = #[trigger] level_counts(s, n)[i];
                c == tables_at(s, l as int) && tables_at(s, l as int) > 0
            },
        forall|l: int|
            0 <= l < n && #[trigger] tables_at(s, l) > 0 ==> level_sizes(s, n).contains(
                (l as u8, bytes_at(s, l) as u64),
            ) && level_counts(s, n).contains((l as u8, tables_at(s, l) as usize)),
    decreases n,
{
    if n > 0 {
        levels_so_far(s, n - 1);
        size_is_sum(s, n - 1);
        crate::compaction::ids_where_len(s, crate::compaction::at_level(n - 1));
        let a = level_sizes(s, n - 1);
        let b = level_counts(s, n - 1);
        assert forall|l: int| 0 <= l < n && #[trigger] tables_at(s, l) > 0 implies level_sizes(
            s,
            n,
        ).contains((l as u8, bytes_at(s, l) as u64)) && level_counts(s, n).contains(
            (l as u8, tables_at(s, l) as usize),
        ) by {
            let x = (l as u8, bytes_at(s, l) as u64);
            let y = (l as u8, tables_at(s, l) as usize);
            if l < n - 1 {
                let i = choose|i: int| 0 <= i < a.len() && a[i] == x;
                assert(level_sizes(s, n)[i] == x);
                let j = choose|j: int| 0 <= j < b.len() && b[j] == y;
                assert(level_counts(s, n)[j] == y);
            } else {
                assert(level_sizes(s, n).last() == x);
                assert(level_counts(s, n).last() == y);
            }
        }
    }
}

/// The levels that are reported are those with tables, from the top down, each once, with
/// the bytes and the number of their tables.
pub proof fn levels_are_reported_with_their_tables(s: Seq<MetaView>)
    requires
        s.len() <= usize::MAX,
        forall|l: int| bytes_at(s, l) <= u64::MAX,
    ensures
        names_levels(level_sizes(s, 256), 256),
        names_levels(level_counts(s, 256), 256),
        forall|i: int|
            0 <= i < level_sizes(s, 256).len() ==> {
                let (l, b) = #[trigger] level_sizes(s, 256)[i];
                b == bytes_at(s, l as int) && tables_at(s, l as int) > 0
            },
        forall|i: int|
            0 <= i < level_counts(s, 256).len() ==> {
                let (l, c) = #[trigger] level_counts(s, 256)[i];
                c == tables_at(s, l as int) && tables_at(s, l as int) > 0
            },
        forall|l: int|
            0 <= l < 256 && #[trigger] tables_at(s, l) > 0 ==> level_sizes(s, 256).contains(
                (l as u8, bytes_at(s, l) as u64),
            ) && level_counts(s, 256).contains((l as u8, tables_at(s, l) as usize)),
{
    levels_so_far(s, 256);
}

proof fn sizes_are_filtered(s: Seq<MetaView>, level: u8)
    ensures
        sizes_at(s, level) =~= s.filter(|m: MetaView| m.level == level).map(
            |i: int, m: MetaView| m.size_bytes,
        ),
    decreases s.len(),
{
    reveal(Seq::filter);
    if s.len() > 0 {
        sizes_are_filtered(s.drop_last(), level);
    }
}

/// Of the deepest level two sizes are reported: the one in the middle when the sizes of its
/// tables are put in ascending order, the upper of two, and the largest. Both are zero
/// where the level is empty.
pub proof fn the_deepest_level_by_its_median_and_largest(e: Engine, r: (u64, u64))
    requires
        e.shows_l2_sizes(r),
    ensures
        ({
            let deep = e.cfg.compaction.max_level;
            let sizes = e.catalog().filter(|m: MetaView| m.level == deep).map(
                |i: int, m: MetaView| m.size_bytes,
            );
            let t = sizes.sort_by(|a: u64, b: u64| a <= b);
            &&& sizes.len() == 0 ==> r.0 == 0 && r.1 == 0
            &&& sizes.len() > 0 ==> r.0 == t[sizes.len() as int / 2] && r.1 == t.last()
            &&& forall|i: int| 0 <= i < sizes.len() ==> #[trigger] sizes[i] <= r.1
            &&& sizes.len() > 0 ==> sizes.contains(r.1) && sizes.contains(r.0)
        }),
{
    let deep = e.cfg.compaction.max_level;
    let s = e.catalog();
    sizes_are_filtered(s, deep);
    let sizes = sizes_at(s, deep);
    if sizes.len() > 0 {
        let t = choose|t: Seq<u64>| #[trigger]
            sizes_in_order(sizes, t) && r == (t[(sizes.len() / 2) as int], t[sizes.len() - 1]);
        let leq = |a: u64, b: u64| a <= b;
        let u = sizes.sort_by(leq);
        sizes.lemma_sort_by_ensures(leq);
        t.to_multiset_ensures();
        sizes.to_multiset_ensures();
        u.to_multiset_ensures();
        assert(vstd::relations::sorted_by(t, leq)) by {
            assert forall|i: int, j: int| 0 <= i < j < t.len() implies #[trigger] leq(
                t[i],
                t[j],
            ) by {
                assert(t[i] <= t[j]);
            }
        }
        vstd::seq_lib::lemma_sorted_unique(t, u, leq);
        assert forall|i: int| 0 <= i < sizes.len() implies #[trigger] sizes[i] <= r.1 by {
            assert(sizes.contains(sizes[i]));
            assert(t.to_multiset().count(sizes[i]) > 0);
            assert(t.contains(sizes[i]));
            let j = choose|j: int| 0 <= j < t.len() && t[j] == sizes[i];
            if j < t.len() - 1 {
                assert(t[j] <= t[t.len() - 1]);
            }
        }
        assert(t.contains(t[sizes.len() - 1]) && t.contains(t[(sizes.len() / 2) as int]));
        assert(sizes.to_multiset().count(r.1) > 0);
        assert(sizes.to_multiset().count(r.0) > 0);
    }
}

/// A table is reported as the catalog has it.
pub proof fn tables_are_reported_as_they_are(m: MetaView)
    ensures
        table_stat(m).id == m.id,
        table_stat(m).size_bytes == m.size_bytes,
        table_stat(m).min_seq == m.min_seq,
        table_stat(m).max_seq == m.max_seq,
        table_stat(m).entries == 0,
{
}

/// A key belongs to a tenant where it starts with 1 and 16 more bytes follow, which
/// are the tenant.
pub proof fn tenants_are_sixteen_bytes_of_a_key(key: Seq<u8>)
    ensures
        tenant_bytes(key) is Some <==> key.len() >= 17 && key[0] == 1,
        tenant_bytes(key) matches Some(t) ==> t.len() == 16 && forall|i: int|
            0 <= i < 16 ==> #[trigger] t[i] == key[1 + i],
{
}

/// What a tenant wrote, by versions: the bytes of the value, at least one.
pub proof fn tenants_are_charged_for_their_values(s: Seq<Version>, tenant: Seq<u8>)
    requires
        tenant.len() == 16,
    ensures
        attributed(s, tenant) == s.fold_left(
            0nat,
            |b: nat, v: Version|
                if v.0.user_key.len() >= 17 && v.0.user_key[0] == 1 && v.0.user_key.subrange(1, 17)
                    == tenant {
                    match v.1.value {
                        Some(x) => if x.len() > 0 {
                            b + x.len()
                        } else {
                            b + 1
                        },
                        None => b + 1,
                    }
                } else {
                    b
                },
        ),
    decreases s.len(),
{
    if s.len() > 0 {
        tenants_are_charged_for_their_values(s.drop_last(), tenant);
        let k = s.last().0.user_key;
        if tenant_bytes(k) == Some(tenant) {
            assert(k.subrange(1, 17) == tenant);
        }
    }
}

/// The parts of tenants are added up.
pub proof fn parts_are_added_up(parts: Seq<TenantPart>)
    ensures
        parts_total(parts) == parts.fold_left(0nat, |b: nat, p: TenantPart| b + p.bytes as nat),
    decreases parts.len(),
{
    if parts.len() > 0 {
        parts_are_added_up(parts.drop_last());
    }
}

/// A new table of level 0 is divided between its tenants as what they wrote: a share is
/// the largest that is to the table's size no more than the part is to all parts. The file
/// is counted once, for a tenant that no other has written more than.
pub proof fn tables_are_divided_by_parts(
    shares: Seq<LevelZeroShare>,
    parts: Seq<TenantPart>,
    size: u64,
    d: int,
    i: int,
)
    requires
        is_dominant(parts, d),
        shares_of(shares, parts, size, d),
        0 <= i < parts.len(),
    ensures
        shares.len() == parts.len(),
        shares[i].tenant@ == parts[i].tenant@,
        shares[i].released == parts[i].bytes,
        shares[i].files == 1 <==> i == d,
        shares[i].files == 0 <==> i != d,
        parts[i].bytes <= parts[d].bytes,
        parts_total(parts) > 0 ==> shares[i].bytes * parts_total(parts) <= parts[i].bytes * size < (
        shares[i].bytes + 1) * parts_total(parts),
{
    let x = parts[i].bytes * size;
    let n = parts_total(parts) as int;
    let s = shares[i];
    assert(x >= 0) by (nonlinear_arith)
        requires
            x == parts[i].bytes * size,
    ;
    if n > 0 {
        assert((x / n) * n <= x < (x / n + 1) * n) by (nonlinear_arith)
            requires
                n > 0,
                x >= 0,
        ;
    }
}

/// What leaves level 0 is credited to the tenant of the table's smallest key, with the
/// table's size, in the order of the tables.
pub proof fn removals_are_credited_to_the_smallest_key(metas: Seq<MetaView>)
    ensures
        level_zero_removals(metas) =~= metas.filter(
            |m: MetaView| m.level == 0 && m.min_key.len() >= 17 && m.min_key[0] == 1,
        ).map(|i: int, m: MetaView| (m.min_key.subrange(1, 17), m.size_bytes)),
    decreases metas.len(),
{
    reveal(Seq::filter);
    if metas.len() > 0 {
        removals_are_credited_to_the_smallest_key(metas.drop_last());
    }
}

/// A total is divided evenly between the tenants, without a remainder to share out; where
/// none is counted, the part is the total.
pub proof fn totals_are_divided_evenly(f: FairConfig, total: u64)
    ensures
        f.tenant_count == 0 ==> f.part_of(total) == total,
        f.tenant_count > 0 ==> f.tenant_count * f.part_of(total) <= total < f.tenant_count * (
        f.part_of(total) + 1),
{
    if f.tenant_count > 0 {
        let t = total as int;
        let n = f.tenant_count as int;
        assert(n * (t / n) <= t < n * (t / n + 1)) by (nonlinear_arith)
            requires
                n > 0,
                t >= 0,
        ;
    }
}

} // verus!
