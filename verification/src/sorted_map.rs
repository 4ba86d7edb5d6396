//! A small map from numbers to numbers, kept in ascending order of its keys.

use vstd::prelude::*;

verus! {

/// The map that a sequence of pairs stands for.
pub open spec fn pairs_map(s: Seq<(u64, u64)>) -> Map<u64, u64>
    decreases s.len(),
{
    if s.len() == 0 {
        Map::empty()
    } else {
        pairs_map(s.drop_last()).insert(s.last().0, s.last().1)
    }
}

/// Keys strictly ascend.
pub open spec fn ascending(s: Seq<(u64, u64)>) -> bool {
    forall|i: int, j: int| 0 <= i < j < s.len() ==> (#[trigger] s[i]).0 < (#[trigger] s[j]).0
}

pub proof fn pairs_map_facts(s: Seq<(u64, u64)>)
    requires
        ascending(s),
    ensures
        forall|i: int|
            0 <= i < s.len() ==> pairs_map(s).dom().contains((#[trigger] s[i]).0) && pairs_map(
                s,
            )[s[i].0] == s[i].1,
        forall|k: u64| #[trigger]
            pairs_map(s).dom().contains(k) ==> exists|i: int|
                0 <= i < s.len() && (#[trigger] s[i]).0 == k,
        pairs_map(s).dom().finite(),
        pairs_map(s).dom().len() == s.len(),
    decreases s.len(),
{
    if s.len() > 0 {
        let init = s.drop_last();
        assert(ascending(init)) by {
            assert forall|i: int, j: int| 0 <= i < j < init.len() implies (#[trigger] init[i]).0 < (
            #[trigger] init[j]).0 by {
                assert(s[i].0 < s[j].0);
            }
        }
        pairs_map_facts(init);
        let last = s.last();
        assert forall|i: int| 0 <= i < s.len() implies pairs_map(s).dom().contains(
            (#[trigger] s[i]).0,
        ) && pairs_map(s)[s[i].0] == s[i].1 by {
            if i < s.len() - 1 {
                assert(init[i] == s[i]);
                assert(s[i].0 < s[s.len() - 1].0);
            }
        }
        assert forall|k: u64| #[trigger] pairs_map(s).dom().contains(k) implies exists|i: int|
            0 <= i < s.len() && (#[trigger] s[i]).0 == k by {
            if k == last.0 {
                assert(s[s.len() - 1].0 == k);
            } else {
                assert(pairs_map(init).dom().contains(k));
                let i = choose|i: int| 0 <= i < init.len() && (#[trigger] init[i]).0 == k;
                assert(s[i].0 == k);
            }
        }
        assert(!pairs_map(init).dom().contains(last.0)) by {
            if pairs_map(init).dom().contains(last.0) {
                let i = choose|i: int| 0 <= i < init.len() && (#[trigger] init[i]).0 == last.0;
                assert(s[i].0 < s[s.len() - 1].0);
            }
        }
        assert(pairs_map(s).dom() =~= pairs_map(init).dom().insert(last.0));
    } else {
        assert(pairs_map(s).dom() =~= Set::<u64>::empty());
    }
}

#[derive(Debug)]
pub struct SortedMap {
    items: Vec<(u64, u64)>,
}

impl View for SortedMap {
    type V = Map<u64, u64>;

    closed spec fn view(&self) -> Map<u64, u64> {
        pairs_map(self.items@)
    }
}

impl SortedMap {
    pub closed spec fn wf(&self) -> bool {
        ascending(self.items@)
    }

    pub fn new() -> (m: SortedMap)
        ensures
            m.wf(),
            m@ == Map::<u64, u64>::empty(),
    {
        SortedMap { items: Vec::new() }
    }

    /// The number of keys below `key`.
    fn position(&self, key: u64) -> (i: usize)
        requires
            self.wf(),
        ensures
            i <= self.items@.len(),
            forall|j: int| 0 <= j < i ==> (#[trigger] self.items@[j]).0 < key,
            forall|j: int| i <= j < self.items@.len() ==> (#[trigger] self.items@[j]).0 >= key,
    {
        let mut i: usize = 0;
        while i < self.items.len() && self.items[i].0 < key
            invariant
                i <= self.items@.len(),
                forall|j: int| 0 <= j < i ==> (#[trigger] self.items@[j]).0 < key,
            decreases self.items.len() - i,
        {
            i = i + 1;
        }
        i
    }

    pub fn get(&self, key: u64) -> (r: Option<u64>)
        requires
            self.wf(),
        ensures
            r == (if self@.dom().contains(key) {
                Some(self@[key])
            } else {
                None
            }),
    {
        let i: usize = self.position(key);
        proof {
            pairs_map_facts(self.items@);
        }
        if i < self.items.len() && self.items[i].0 == key {
            Some(self.items[i].1)
        } else {
            None
        }
    }

    /// The count under `key`, zero where there is none.
    pub fn count(&self, key: u64) -> (n: u64)
        requires
            self.wf(),
        ensures
            n == count_of(self@, key),
    {
        match self.get(key) {
            Some(n) => n,
            None => 0,
        }
    }

    pub fn insert(&mut self, key: u64, value: u64)
        requires
            old(self).wf(),
        ensures
            final(self).wf(),
            final(self)@ == old(self)@.insert(key, value),
    {
        let ghost before = self.items@;
        let i: usize = self.position(key);
        if i < self.items.len() && self.items[i].0 == key {
            self.items.set(i, (key, value));
            proof {
                assert(self.items@ =~= before.update(i as int, (key, value)));
                update_pair(before, i as int, value);
            }
        } else {
            self.items.insert(i, (key, value));
            proof {
                assert(self.items@ =~= before.insert(i as int, (key, value)));
                insert_pair(before, i as int, (key, value));
            }
        }
    }

    pub fn remove(&mut self, key: u64)
        requires
            old(self).wf(),
        ensures
            final(self).wf(),
            final(self)@ == old(self)@.remove(key),
    {
        let ghost before = self.items@;
        let i: usize = self.position(key);
        if i < self.items.len() && self.items[i].0 == key {
            self.items.remove(i);
            proof {
                assert(self.items@ =~= before.remove(i as int));
                remove_pair(before, i as int);
            }
        } else {
            proof {
                pairs_map_facts(before);
                assert(!self@.dom().contains(key));
            }
            assert(self@ =~= old(self)@.remove(key));
        }
    }

    /// The smallest key.
    pub fn first_key(&self) -> (r: Option<u64>)
        requires
            self.wf(),
        ensures
            match r {
                Some(k) => self@.dom().contains(k) && forall|j: u64| #[trigger]
                    self@.dom().contains(j) ==> k <= j,
                None => self@ == Map::<u64, u64>::empty(),
            },
    {
        proof {
            pairs_map_facts(self.items@);
        }
        if self.items.len() == 0 {
            return None;
        }
        assert forall|j: u64| #[trigger] self@.dom().contains(j) implies self.items@[0].0 <= j by {
            let i = choose|i: int| 0 <= i < self.items@.len() && (#[trigger] self.items@[i]).0 == j;
            if i > 0 {
                assert(self.items@[0].0 < self.items@[i].0);
            }
        }
        Some(self.items[0].0)
    }

    pub fn is_empty(&self) -> (r: bool)
        requires
            self.wf(),
        ensures
            r == (self@ == Map::<u64, u64>::empty()),
    {
        proof {
            pairs_map_facts(self.items@);
            if self.items@.len() > 0 {
                assert(self@.dom().contains(self.items@[0].0));
            }
        }
        self.items.len() == 0
    }

    /// The pairs in ascending order of their keys.
    pub fn pairs(&self) -> (r: &[(u64, u64)])
        requires
            self.wf(),
        ensures
            ascending(r@),
            pairs_map(r@) == self@,
    {
        self.items.as_slice()
    }

    /// Adds one to the count under `key`.
    pub fn increment(&mut self, key: u64)
        requires
            old(self).wf(),
            count_of(old(self)@, key) < u64::MAX,
        ensures
            final(self).wf(),
            final(self)@ == old(self)@.insert(key, (count_of(old(self)@, key) + 1) as u64),
    {
        let n: u64 = self.count(key);
        self.insert(key, n + 1);
    }

    /// Takes one from the count under `key`, and drops the key at zero.
    pub fn decrement(&mut self, key: u64)
        requires
            old(self).wf(),
        ensures
            final(self).wf(),
            final(self)@ == decremented(old(self)@, key),
    {
        match self.get(key) {
            Some(n) => {
                if n > 1 {
                    self.insert(key, n - 1);
                } else {
                    self.remove(key);
                }
            },
            None => {},
        }
    }
}

/// The count under `key`, zero where there is none.
pub open spec fn count_of(m: Map<u64, u64>, key: u64) -> u64 {
    if m.dom().contains(key) {
        m[key]
    } else {
        0
    }
}

/// The map with one less under `key`; a key whose count reaches zero goes.
pub open spec fn decremented(m: Map<u64, u64>, key: u64) -> Map<u64, u64> {
    if !m.dom().contains(key) {
        m
    } else if m[key] > 1 {
        m.insert(key, (m[key] - 1) as u64)
    } else {
        m.remove(key)
    }
}

proof fn init_is_ascending(s: Seq<(u64, u64)>)
    requires
        ascending(s),
        s.len() > 0,
    ensures
        ascending(s.drop_last()),
{
    let init = s.drop_last();
    assert forall|i: int, j: int| 0 <= i < j < init.len() implies (#[trigger] init[i]).0 < (
    #[trigger] init[j]).0 by {
        assert(s[i].0 < s[j].0);
    }
}

proof fn insert_pair(s: Seq<(u64, u64)>, i: int, p: (u64, u64))
    requires
        ascending(s),
        0 <= i <= s.len(),
        forall|j: int| 0 <= j < i ==> (#[trigger] s[j]).0 < p.0,
        forall|j: int| i <= j < s.len() ==> (#[trigger] s[j]).0 > p.0,
    ensures
        ascending(s.insert(i, p)),
        pairs_map(s.insert(i, p)) == pairs_map(s).insert(p.0, p.1),
    decreases s.len(),
{
    let t = s.insert(i, p);
    if i == s.len() {
        assert(t.drop_last() =~= s);
    } else {
        let init = s.drop_last();
        init_is_ascending(s);
        assert(s[s.len() - 1].0 > p.0);
        assert forall|j: int| 0 <= j < i implies (#[trigger] init[j]).0 < p.0 by {
            assert(s[j].0 < p.0);
        }
        assert forall|j: int| i <= j < init.len() implies (#[trigger] init[j]).0 > p.0 by {
            assert(s[j].0 > p.0);
        }
        insert_pair(init, i, p);
        assert(t.drop_last() =~= init.insert(i, p));
        assert(t.last() == s.last());
        assert(pairs_map(t) =~= pairs_map(s).insert(p.0, p.1));
    }
    assert forall|a: int, b: int| 0 <= a < b < t.len() implies (#[trigger] t[a]).0 < (
    #[trigger] t[b]).0 by {
        let x = if a < i {
            a
        } else {
            a - 1
        };
        let y = if b < i {
            b
        } else {
            b - 1
        };
        if a != i {
            assert(t[a] == s[x]);
        }
        if b != i {
            assert(t[b] == s[y]);
        }
        if a != i && b != i {
            assert(s[x].0 < s[y].0);
        }
    }
}

proof fn update_pair(s: Seq<(u64, u64)>, i: int, value: u64)
    requires
        ascending(s),
        0 <= i < s.len(),
    ensures
        ascending(s.update(i, (s[i].0, value))),
        pairs_map(s.update(i, (s[i].0, value))) == pairs_map(s).insert(s[i].0, value),
    decreases s.len(),
{
    let t = s.update(i, (s[i].0, value));
    assert forall|a: int, b: int| 0 <= a < b < t.len() implies (#[trigger] t[a]).0 < (
    #[trigger] t[b]).0 by {
        assert(s[a].0 < s[b].0);
    }
    if i == s.len() - 1 {
        assert(t.drop_last() =~= s.drop_last());
        assert(pairs_map(t) =~= pairs_map(s).insert(s[i].0, value));
    } else {
        init_is_ascending(s);
        update_pair(s.drop_last(), i, value);
        assert(t.drop_last() =~= s.drop_last().update(i, (s[i].0, value)));
        assert(s[i].0 < s[s.len() - 1].0);
        assert(pairs_map(t) =~= pairs_map(s).insert(s[i].0, value));
    }
}

proof fn remove_pair(s: Seq<(u64, u64)>, i: int)
    requires
        ascending(s),
        0 <= i < s.len(),
    ensures
        ascending(s.remove(i)),
        pairs_map(s.remove(i)) == pairs_map(s).remove(s[i].0),
    decreases s.len(),
{
    let t = s.remove(i);
    assert forall|a: int, b: int| 0 <= a < b < t.len() implies (#[trigger] t[a]).0 < (
    #[trigger] t[b]).0 by {
        let x = if a < i {
            a
        } else {
            a + 1
        };
        let y = if b < i {
            b
        } else {
            b + 1
        };
        assert(s[x].0 < s[y].0);
    }
    let init = s.drop_last();
    init_is_ascending(s);
    if i == s.len() - 1 {
        assert(t =~= init);
        pairs_map_facts(init);
        assert(!pairs_map(init).dom().contains(s[i].0)) by {
            if pairs_map(init).dom().contains(s[i].0) {
                let j = choose|j: int| 0 <= j < init.len() && (#[trigger] init[j]).0 == s[i].0;
                assert(s[j].0 < s[i].0);
            }
        }
        assert(pairs_map(t) =~= pairs_map(s).remove(s[i].0));
    } else {
        remove_pair(init, i);
        assert(t.drop_last() =~= init.remove(i));
        assert(t.last() == s.last());
        assert(s[i].0 < s[s.len() - 1].0);
        assert(pairs_map(t) =~= pairs_map(s).remove(s[i].0));
    }
}

} // verus!
