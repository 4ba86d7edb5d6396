//! Stable sorting by a numeric key.

use vstd::prelude::*;
use vstd::seq_lib::*;

verus! {

/// `s` with `x` inserted behind the items whose keys are not above the key of
/// `x`, where `s` is in order.
pub open spec fn inserted<T>(s: Seq<T>, x: T, key: spec_fn(T) -> nat) -> Seq<T>
    decreases s.len(),
{
    if s.len() == 0 || key(s.last()) <= key(x) {
        s.push(x)
    } else {
        inserted(s.drop_last(), x, key).push(s.last())
    }
}

/// `s` in the order of its keys, items of one key in the order of `s`.
pub open spec fn arranged<T>(s: Seq<T>, key: spec_fn(T) -> nat) -> Seq<T>
    decreases s.len(),
{
    if s.len() == 0 {
        s
    } else {
        inserted(arranged(s.drop_last(), key), s.last(), key)
    }
}

/// The keys never go down.
pub open spec fn in_order<T>(s: Seq<T>, key: spec_fn(T) -> nat) -> bool {
    forall|i: int, j: int| 0 <= i <= j < s.len() ==> key(#[trigger] s[i]) <= key(#[trigger] s[j])
}

/// The items of one key, in their order.
pub open spec fn of_key<T>(s: Seq<T>, key: spec_fn(T) -> nat, k: nat) -> Seq<T>
    decreases s.len(),
{
    if s.len() == 0 {
        Seq::empty()
    } else if key(s.last()) == k {
        of_key(s.drop_last(), key, k).push(s.last())
    } else {
        of_key(s.drop_last(), key, k)
    }
}

pub proof fn inserted_facts<T>(s: Seq<T>, x: T, key: spec_fn(T) -> nat)
    requires
        in_order(s, key),
    ensures
        in_order(inserted(s, x, key), key),
        inserted(s, x, key).to_multiset() == s.to_multiset().insert(x),
        inserted(s, x, key).len() == s.len() + 1,
        forall|i: int|
            0 <= i <= s.len() ==> key(#[trigger] inserted(s, x, key)[i]) <= key(x) || (s.len() > 0
                && key(inserted(s, x, key)[i]) <= key(s.last())),
    decreases s.len(),
{
    broadcast use group_to_multiset_ensures;

    if s.len() == 0 || key(s.last()) <= key(x) {
        assert forall|i: int, j: int| 0 <= i <= j < s.push(x).len() implies key(
            #[trigger] s.push(x)[i],
        ) <= key(#[trigger] s.push(x)[j]) by {
            if i < s.len() {
                assert(key(s[i]) <= key(s.last()));
            }
        }
    } else {
        let t = s.drop_last();
        assert(in_order(t, key)) by {
            assert forall|i: int, j: int| 0 <= i <= j < t.len() implies key(#[trigger] t[i]) <= key(
                #[trigger] t[j],
            ) by {
                assert(t[i] == s[i] && t[j] == s[j]);
            }
        }
        inserted_facts(t, x, key);
        let u = inserted(t, x, key);
        let r = u.push(s.last());
        assert forall|i: int| 0 <= i < u.len() implies key(#[trigger] u[i]) <= key(s.last()) by {
            if t.len() > 0 {
                assert(key(s[t.len() - 1]) <= key(s[s.len() - 1]));
            }
        }
        assert forall|i: int, j: int| 0 <= i <= j < r.len() implies key(#[trigger] r[i]) <= key(
            #[trigger] r[j],
        ) by {
            if j < u.len() {
                assert(r[i] == u[i] && r[j] == u[j]);
            } else if i < u.len() {
                assert(r[i] == u[i]);
            }
        }
        assert(s =~= t.push(s.last()));
        assert(r.to_multiset() =~= s.to_multiset().insert(x));
    }
}

/// Arranging puts the items in the order of their keys and keeps them all.
pub proof fn arranging_sorts<T>(s: Seq<T>, key: spec_fn(T) -> nat)
    ensures
        in_order(arranged(s, key), key),
        arranged(s, key).to_multiset() == s.to_multiset(),
        arranged(s, key).len() == s.len(),
    decreases s.len(),
{
    broadcast use group_to_multiset_ensures;

    if s.len() > 0 {
        arranging_sorts(s.drop_last(), key);
        inserted_facts(arranged(s.drop_last(), key), s.last(), key);
        assert(s =~= s.drop_last().push(s.last()));
    }
}

proof fn inserted_is_stable<T>(s: Seq<T>, x: T, key: spec_fn(T) -> nat, k: nat)
    ensures
        of_key(inserted(s, x, key), key, k) == of_key(s.push(x), key, k),
    decreases s.len(),
{
    if s.len() == 0 || key(s.last()) <= key(x) {
    } else {
        let t = s.drop_last();
        inserted_is_stable(t, x, key, k);
        let u = inserted(t, x, key);
        let r = u.push(s.last());
        assert(r.drop_last() =~= u);
        assert(t.push(x).drop_last() =~= t);
        assert(s.push(x).drop_last() =~= s);
        assert(t.push(x).last() == x && s.push(x).last() == x && r.last() == s.last());
        assert(of_key(t.push(x), key, k) == if key(x) == k {
            of_key(t, key, k).push(x)
        } else {
            of_key(t, key, k)
        });
        assert(of_key(s, key, k) == if key(s.last()) == k {
            of_key(t, key, k).push(s.last())
        } else {
            of_key(t, key, k)
        });
    }
}

/// Arranging keeps the items of one key in their order.
pub proof fn arranging_is_stable<T>(s: Seq<T>, key: spec_fn(T) -> nat, k: nat)
    ensures
        of_key(arranged(s, key), key, k) == of_key(s, key, k),
    decreases s.len(),
{
    if s.len() > 0 {
        let t = s.drop_last();
        arranging_is_stable(t, key, k);
        inserted_is_stable(arranged(t, key), s.last(), key, k);
        assert(arranged(t, key).push(s.last()).drop_last() =~= arranged(t, key));
    }
}

/// What was arranged holds nothing but the items that were given.
pub proof fn arranging_adds_nothing<T>(s: Seq<T>, key: spec_fn(T) -> nat, i: int)
    requires
        0 <= i < arranged(s, key).len(),
    ensures
        s.contains(arranged(s, key)[i]),
{
    broadcast use group_to_multiset_ensures;

    arranging_sorts(s, key);
    let x = arranged(s, key)[i];
    assert(arranged(s, key).contains(x));
    assert(arranged(s, key).to_multiset().count(x) > 0);
    assert(s.to_multiset().count(x) > 0);
}

/// Where inserting puts an item.
pub proof fn inserted_at<T>(s: Seq<T>, x: T, key: spec_fn(T) -> nat, p: int)
    requires
        0 <= p <= s.len(),
        p == 0 || key(s[p - 1]) <= key(x),
        forall|i: int| p <= i < s.len() ==> key(#[trigger] s[i]) > key(x),
    ensures
        inserted(s, x, key) == s.insert(p, x),
    decreases s.len(),
{
    if p == s.len() {
        assert(s.insert(p, x) =~= s.push(x));
    } else {
        assert(key(s[s.len() - 1]) > key(x));
        let t = s.drop_last();
        assert forall|i: int| p <= i < t.len() implies key(#[trigger] t[i]) > key(x) by {
            assert(t[i] == s[i]);
        }
        inserted_at(t, x, key, p);
        assert(s.insert(p, x) =~= t.insert(p, x).push(s.last()));
    }
}

/// The items for which `keep` holds, in their order.
pub open spec fn part<T>(s: Seq<T>, keep: spec_fn(T) -> bool) -> Seq<T>
    decreases s.len(),
{
    if s.len() == 0 {
        Seq::empty()
    } else if keep(s.last()) {
        part(s.drop_last(), keep).push(s.last())
    } else {
        part(s.drop_last(), keep)
    }
}

/// A part holds items of the whole.
pub proof fn part_within<T>(s: Seq<T>, keep: spec_fn(T) -> bool)
    ensures
        forall|i: int|
            0 <= i < part(s, keep).len() ==> s.contains(#[trigger] part(s, keep)[i]) && keep(
                part(s, keep)[i],
            ),
    decreases s.len(),
{
    if s.len() > 0 {
        part_within(s.drop_last(), keep);
        let p = part(s.drop_last(), keep);
        let q = part(s, keep);
        assert forall|i: int| 0 <= i < q.len() implies s.contains(#[trigger] q[i]) && keep(q[i]) by {
            if i < p.len() {
                assert(p[i] == q[i]);
                assert(s.drop_last().contains(p[i]));
                let j = choose|j: int| 0 <= j < s.drop_last().len() && s.drop_last()[j] == p[i];
                assert(s[j] == q[i]);
            } else {
                assert(s[s.len() - 1] == q[i]);
            }
        }
    }
}

/// The part of two sequences together is that of the one and then that of the other.
pub proof fn part_joins<T>(a: Seq<T>, b: Seq<T>, keep: spec_fn(T) -> bool)
    ensures
        part(a + b, keep) == part(a, keep) + part(b, keep),
    decreases b.len(),
{
    if b.len() == 0 {
        assert(a + b =~= a);
        assert(part(a, keep) + part(b, keep) =~= part(a, keep));
    } else {
        assert((a + b).drop_last() =~= a + b.drop_last());
        part_joins(a, b.drop_last(), keep);
        assert(part(a + b, keep) =~= part(a, keep) + part(b, keep));
    }
}

proof fn part_of_inserted<T>(s: Seq<T>, x: T, key: spec_fn(T) -> nat, keep: spec_fn(T) -> bool)
    requires
        in_order(s, key),
    ensures
        part(inserted(s, x, key), keep) == (if keep(x) {
            inserted(part(s, keep), x, key)
        } else {
            part(s, keep)
        }),
    decreases s.len(),
{
    let p = part(s, keep);
    if s.len() == 0 || key(s.last()) <= key(x) {
        assert(s.push(x).drop_last() =~= s);
        part_within(s, keep);
        if p.len() > 0 {
            assert(s.contains(p[p.len() - 1]));
            let j = choose|j: int| 0 <= j < s.len() && s[j] == p[p.len() - 1];
            assert(key(s[j]) <= key(s[s.len() - 1]));
        }
    } else {
        let t = s.drop_last();
        assert(in_order(t, key)) by {
            assert forall|i: int, j: int| 0 <= i <= j < t.len() implies key(#[trigger] t[i]) <= key(
                #[trigger] t[j],
            ) by {
                assert(t[i] == s[i] && t[j] == s[j]);
            }
        }
        part_of_inserted(t, x, key, keep);
        let u = inserted(t, x, key);
        assert(u.push(s.last()).drop_last() =~= u);
        if keep(s.last()) {
            assert(p.drop_last() =~= part(t, keep));
        }
    }
}

/// To arrange a part of some items is to take the part of the arranged items.
pub proof fn part_of_arranged<T>(s: Seq<T>, key: spec_fn(T) -> nat, keep: spec_fn(T) -> bool)
    ensures
        part(arranged(s, key), keep) == arranged(part(s, keep), key),
    decreases s.len(),
{
    if s.len() > 0 {
        let t = s.drop_last();
        part_of_arranged(t, key, keep);
        arranging_sorts(t, key);
        part_of_inserted(arranged(t, key), s.last(), key, keep);
        if keep(s.last()) {
            assert(part(t, keep).push(s.last()).drop_last() =~= part(t, keep));
        }
    }
}

} // verus!
