//! A reference model of the engine: the history of all writes.

use vstd::prelude::*;
use crate::bytes::{
    bytes_eq, bytes_le, bytes_lt, copy_bytes, lex_lt, lex_lt_asymmetric, lex_lt_irreflexive,
    lex_lt_total, lex_lt_transitive,
};
use crate::engine::compact::same_reads;
use crate::engine::laws::record_changes_its_keys;
use crate::engine::ops::{del_op, key_occurs, put_op};
use crate::engine::Engine;
use crate::iter::{key_ahead, ScanDirection};
use crate::records::Version;
use crate::snapshot::pair_views;
use crate::store::{key_in, listing, listing_is_unique, lists, value_at};
use crate::wal::WalView;

verus! {

/// A write in the history; no value stands for a deletion.
#[derive(Debug)]
pub struct ModelWrite {
    pub key: Vec<u8>,
    pub seq: u64,
    pub value: Option<Vec<u8>>,
}

/// What a write holds.
pub struct WriteView {
    pub key: Seq<u8>,
    pub seq: u64,
    pub value: Option<Seq<u8>>,
}

impl View for ModelWrite {
    type V = WriteView;

    open spec fn view(&self) -> WriteView {
        WriteView {
            key: self.key@,
            seq: self.seq,
            value: match self.value {
                Some(v) => Some(v@),
                None => None,
            },
        }
    }
}

/// What the writes of a history hold.
pub open spec fn write_views(s: Seq<ModelWrite>) -> Seq<WriteView> {
    Seq::new(s.len(), |i: int| s[i]@)
}

/// Which of the first `n` writes a reader with ceiling `s` sees of a key: the newest
/// one, and of two with one number the later; a negative number for none.
pub open spec fn governing(w: Seq<WriteView>, key: Seq<u8>, s: u64, n: int) -> int
    decreases n,
{
    if n <= 0 {
        -1
    } else {
        let p = governing(w, key, s, n - 1);
        let x = w[n - 1];
        if x.key == key && x.seq <= s && (p < 0 || w[p].seq <= x.seq) {
            n - 1
        } else {
            p
        }
    }
}

/// What a reader with ceiling `s` gets for a key.
pub open spec fn model_value(w: Seq<WriteView>, key: Seq<u8>, s: u64) -> Option<Seq<u8>> {
    let i = governing(w, key, s, w.len() as int);
    if i < 0 {
        None
    } else {
        w[i].value
    }
}

/// `r` lists what a reader with ceiling `s` gets in a range, keys ascending.
pub open spec fn model_lists(
    w: Seq<WriteView>,
    lo: Seq<u8>,
    hi: Seq<u8>,
    s: u64,
    r: Seq<(Seq<u8>, Seq<u8>)>,
) -> bool {
    &&& forall|i: int, j: int|
        0 <= i < j < r.len() ==> lex_lt((#[trigger] r[i]).0, (#[trigger] r[j]).0)
    &&& forall|i: int|
        0 <= i < r.len() ==> key_in((#[trigger] r[i]).0, lo, hi) && model_value(w, r[i].0, s)
            == Some(r[i].1)
    &&& forall|key: Seq<u8>|
        key_in(key, lo, hi) && (#[trigger] model_value(w, key, s)) is Some ==> lists(r, key)
}

/// The reference model.
#[derive(Debug)]
pub struct Model {
    pub writes: Vec<ModelWrite>,
}

impl View for Model {
    type V = Seq<WriteView>;

    open spec fn view(&self) -> Seq<WriteView> {
        write_views(self.writes@)
    }
}

/// The user key of a numbered record.
pub open spec fn numbered_key(id: u64) -> Seq<u8> {
    seq![crate::keys::KS_USER] + crate::codec::be_bytes(id as nat, 8)
}

/// The user key of a numbered record.
pub fn key_of(id: u64) -> (k: Vec<u8>)
    ensures
        k@ == numbered_key(id),
{
    let mut k: Vec<u8> = vec![crate::keys::KS_USER];
    crate::codec::put_be(&mut k, id, 8);
    assert(k@ =~= numbered_key(id));
    k
}

proof fn governing_facts(w: Seq<WriteView>, key: Seq<u8>, s: u64, n: int)
    requires
        0 <= n <= w.len(),
    ensures
        governing(w, key, s, n) < n,
        governing(w, key, s, n) >= 0 ==> w[governing(w, key, s, n)].key == key && w[governing(
            w,
            key,
            s,
            n,
        )].seq <= s,
    decreases n,
{
    if n > 0 {
        governing_facts(w, key, s, n - 1);
    }
}

proof fn governing_prefix(a: Seq<WriteView>, b: Seq<WriteView>, key: Seq<u8>, s: u64, n: int)
    requires
        0 <= n <= a.len(),
        n <= b.len(),
        forall|i: int| 0 <= i < n ==> a[i] == b[i],
    ensures
        governing(a, key, s, n) == governing(b, key, s, n),
    decreases n,
{
    if n > 0 {
        governing_prefix(a, b, key, s, n - 1);
        governing_facts(a, key, s, n - 1);
    }
}

impl Model {
    pub fn new() -> (m: Model)
        ensures
            m@ == Seq::<WriteView>::empty(),
    {
        let m = Model { writes: Vec::new() };
        assert(m@ =~= Seq::<WriteView>::empty());
        m
    }

    /// Notes a put.
    pub fn put(&mut self, key: Vec<u8>, seq: u64, val: Vec<u8>)
        ensures
            final(self)@ == old(self)@.push(WriteView { key: key@, seq, value: Some(val@) }),
    {
        let ghost before = self@;
        let ghost new = WriteView { key: key@, seq, value: Some(val@) };
        self.writes.push(ModelWrite { key, seq, value: Some(val) });
        assert(self@ =~= before.push(new));
    }

    /// Notes a deletion.
    pub fn del(&mut self, key: Vec<u8>, seq: u64)
        ensures
            final(self)@ == old(self)@.push(WriteView { key: key@, seq, value: None }),
    {
        let ghost before = self@;
        let ghost new = WriteView { key: key@, seq, value: None };
        self.writes.push(ModelWrite { key, seq, value: None });
        assert(self@ =~= before.push(new));
    }

    /// What a reader with ceiling `s` gets for a key.
    pub fn value_at(&self, key: &[u8], s: u64) -> (r: Option<Vec<u8>>)
        ensures
            match r {
                Some(v) => model_value(self@, key@, s) == Some(v@),
                None => model_value(self@, key@, s) is None,
            },
    {
        let ghost w = self@;
        let mut at: Option<usize> = None;
        let mut i: usize = 0;
        while i < self.writes.len()
            invariant
                i <= self.writes@.len(),
                w == self@,
                match at {
                    Some(p) => p < i && governing(w, key@, s, i as int) == p,
                    None => governing(w, key@, s, i as int) < 0,
                },
            decreases self.writes.len() - i,
        {
            let x: &ModelWrite = &self.writes[i];
            assert(w[i as int] == x@);
            if x.seq <= s && bytes_eq(x.key.as_slice(), key) {
                let later: bool = match at {
                    Some(p) => {
                        assert(w[p as int] == self.writes@[p as int]@);
                        self.writes[p].seq <= x.seq
                    },
                    None => true,
                };
                if later {
                    at = Some(i);
                }
            }
            i = i + 1;
        }
        match at {
            Some(p) => {
                assert(w[p as int] == self.writes@[p as int]@);
                match &self.writes[p].value {
                    Some(v) => Some(copy_bytes(v.as_slice())),
                    None => None,
                }
            },
            None => None,
        }
    }

    /// The keys that occur in the history within a range, ascending.
    fn known_keys(&self, lo: &[u8], hi: &[u8]) -> (keys: Vec<Vec<u8>>)
        ensures
            forall|i: int, j: int|
                0 <= i < j < keys@.len() ==> lex_lt((#[trigger] keys@[i])@, (#[trigger] keys@[j])@),
            forall|i: int| 0 <= i < keys@.len() ==> key_in((#[trigger] keys@[i])@, lo@, hi@),
            forall|i: int|
                0 <= i < self@.len() && key_in((#[trigger] self@[i]).key, lo@, hi@) ==> has_key(
                    keys@,
                    self@[i].key,
                ),
    {
        let ghost w = self@;
        let mut keys: Vec<Vec<u8>> = Vec::new();
        let mut i: usize = 0;
        while i < self.writes.len()
            invariant
                i <= self.writes@.len(),
                w == self@,
                forall|a: int, b: int|
                    0 <= a < b < keys@.len() ==> lex_lt(
                        (#[trigger] keys@[a])@,
                        (#[trigger] keys@[b])@,
                    ),
                forall|a: int| 0 <= a < keys@.len() ==> key_in((#[trigger] keys@[a])@, lo@, hi@),
                forall|a: int|
                    0 <= a < i && key_in((#[trigger] w[a]).key, lo@, hi@) ==> has_key(
                        keys@,
                        w[a].key,
                    ),
            decreases self.writes.len() - i,
        {
            let x: &ModelWrite = &self.writes[i];
            assert(w[i as int] == x@);
            if bytes_le(lo, x.key.as_slice()) && (hi.len() == 0 || bytes_lt(x.key.as_slice(), hi)) {
                insert_key(&mut keys, x.key.as_slice(), Ghost(lo@), Ghost(hi@));
            }
            i = i + 1;
        }
        keys
    }

    /// What a reader with ceiling `s` gets in a range, keys ascending. An empty `hi`
    /// stands for no upper bound.
    pub fn live_in(&self, lo: &[u8], hi: &[u8], s: u64) -> (r: Vec<(Vec<u8>, Vec<u8>)>)
        ensures
            model_lists(self@, lo@, hi@, s, pair_views(r@)),
    {
        let ghost w = self@;
        let keys: Vec<Vec<u8>> = self.known_keys(lo, hi);
        let mut r: Vec<(Vec<u8>, Vec<u8>)> = Vec::new();
        let mut i: usize = 0;
        while i < keys.len()
            invariant
                i <= keys@.len(),
                w == self@,
                forall|a: int, b: int|
                    0 <= a < b < keys@.len() ==> lex_lt(
                        (#[trigger] keys@[a])@,
                        (#[trigger] keys@[b])@,
                    ),
                forall|a: int| 0 <= a < keys@.len() ==> key_in((#[trigger] keys@[a])@, lo@, hi@),
                forall|a: int, b: int|
                    0 <= a < b < r@.len() ==> lex_lt((#[trigger] r@[a]).0@, (#[trigger] r@[b]).0@),
                forall|a: int|
                    0 <= a < r@.len() ==> key_in((#[trigger] r@[a]).0@, lo@, hi@) && model_value(
                        w,
                        r@[a].0@,
                        s,
                    ) == Some(r@[a].1@),
                forall|a: int|
                    0 <= a < i && model_value(w, (#[trigger] keys@[a])@, s) is Some
                        ==> lists(pair_views(r@), keys@[a]@),
                forall|a: int|
                    0 <= a < r@.len() ==> exists|b: int|
                        0 <= b < i && (#[trigger] keys@[b])@ == (#[trigger] r@[a]).0@,
            decreases keys.len() - i,
        {
            match self.value_at(keys[i].as_slice(), s) {
                Some(v) => {
                    let ghost was = r@;
                    r.push((copy_bytes(keys[i].as_slice()), v));
                    proof {
                        let n = was.len() as int;
                        assert forall|a: int, b: int| 0 <= a < b < r@.len() implies lex_lt(
                            (#[trigger] r@[a]).0@,
                            (#[trigger] r@[b]).0@,
                        ) by {
                            if b == n {
                                let c = choose|c: int|
                                    0 <= c < i && (#[trigger] keys@[c])@ == was[a].0@;
                                assert(lex_lt(keys@[c]@, keys@[i as int]@));
                            } else {
                                assert(lex_lt(was[a].0@, was[b].0@));
                            }
                        }
                        assert forall|a: int| 0 <= a < i + 1 && model_value(
                            w,
                            (#[trigger] keys@[a])@,
                            s,
                        ) is Some implies lists(pair_views(r@), keys@[a]@) by {
                            if a < i {
                                let q = pair_views(was);
                                let c = choose|c: int|
                                    0 <= c < q.len() && (#[trigger] q[c]).0 == keys@[a]@;
                                assert(pair_views(r@)[c].0 == keys@[a]@);
                            } else {
                                assert(pair_views(r@)[n].0 == keys@[a]@);
                            }
                        }
                        assert forall|a: int| 0 <= a < r@.len() implies exists|b: int|
                            0 <= b < i + 1 && (#[trigger] keys@[b])@ == (#[trigger] r@[a]).0@ by {
                            if a < n {
                                let c = choose|c: int|
                                    0 <= c < i && (#[trigger] keys@[c])@ == was[a].0@;
                                assert(keys@[c]@ == r@[a].0@);
                            } else {
                                assert(keys@[i as int]@ == r@[a].0@);
                            }
                        }
                    }
                },
                None => {},
            }
            i = i + 1;
        }
        proof {
            let p = pair_views(r@);
            assert forall|key: Seq<u8>| key_in(key, lo@, hi@) && (#[trigger] model_value(
                w,
                key,
                s,
            )) is Some implies lists(p, key) by {
                let g = governing(w, key, s, w.len() as int);
                governing_facts(w, key, s, w.len() as int);
                assert(w[g].key == key);
                assert(has_key(keys@, key));
                let a = choose|a: int| 0 <= a < keys@.len() && (#[trigger] keys@[a])@ == key;
                assert(lists(p, keys@[a]@));
            }
            assert forall|a: int, b: int| 0 <= a < b < p.len() implies lex_lt(
                (#[trigger] p[a]).0,
                (#[trigger] p[b]).0,
            ) by {
                assert(lex_lt(r@[a].0@, r@[b].0@));
            }
            assert forall|a: int| 0 <= a < p.len() implies key_in((#[trigger] p[a]).0, lo@, hi@)
                && model_value(w, p[a].0, s) == Some(p[a].1) by {
                assert(key_in(r@[a].0@, lo@, hi@));
            }
        }
        r
    }

    /// What a reader with ceiling `s` gets, keys ascending.
    pub fn live_at(&self, s: u64) -> (r: Vec<(Vec<u8>, Vec<u8>)>)
        ensures
            model_lists(self@, Seq::empty(), Seq::empty(), s, pair_views(r@)),
    {
        let none: Vec<u8> = Vec::new();
        assert(none@ =~= Seq::<u8>::empty());
        self.live_in(none.as_slice(), none.as_slice(), s)
    }
}

/// The list holds the key.
pub open spec fn has_key(keys: Seq<Vec<u8>>, key: Seq<u8>) -> bool {
    exists|i: int| 0 <= i < keys.len() && (#[trigger] keys[i])@ == key
}

/// Puts a key in its place, where it is not there yet.
fn insert_key(keys: &mut Vec<Vec<u8>>, key: &[u8], Ghost(lo): Ghost<Seq<u8>>, Ghost(hi): Ghost<Seq<u8>>)
    requires
        forall|a: int, b: int|
            0 <= a < b < old(keys)@.len() ==> lex_lt(
                (#[trigger] old(keys)@[a])@,
                (#[trigger] old(keys)@[b])@,
            ),
        forall|a: int| 0 <= a < old(keys)@.len() ==> key_in((#[trigger] old(keys)@[a])@, lo, hi),
        key_in(key@, lo, hi),
    ensures
        forall|a: int, b: int|
            0 <= a < b < final(keys)@.len() ==> lex_lt(
                (#[trigger] final(keys)@[a])@,
                (#[trigger] final(keys)@[b])@,
            ),
        forall|a: int| 0 <= a < final(keys)@.len() ==> key_in((#[trigger] final(keys)@[a])@, lo, hi),
        forall|k: Seq<u8>| #[trigger]
            has_key(final(keys)@, k) <==> has_key(old(keys)@, k) || k == key@,
{
    let ghost start = keys@;
    let mut p: usize = keys.len();
    while p > 0 && bytes_lt(key, keys[p - 1].as_slice())
        invariant
            p <= keys@.len(),
            keys@ == start,
            forall|i: int| p <= i < keys@.len() ==> lex_lt(key@, (#[trigger] keys@[i])@),
        decreases p,
    {
        p = p - 1;
    }
    if p > 0 && bytes_eq(keys[p - 1].as_slice(), key) {
        assert(has_key(start, key@)) by {
            assert(start[p - 1]@ == key@);
        }
        return;
    }
    let copy: Vec<u8> = copy_bytes(key);
    keys.insert(p, copy);
    proof {
        let now = keys@;
        assert(now == start.insert(p as int, copy));
        if p > 0 {
            lex_lt_total(start[p - 1]@, key@);
        }
        assert forall|a: int, b: int| 0 <= a < b < now.len() implies lex_lt(
            (#[trigger] now[a])@,
            (#[trigger] now[b])@,
        ) by {
            if a == p {
                assert(now[b] == start[b - 1]);
            } else if b == p {
                if a < p - 1 {
                    assert(lex_lt(start[a]@, start[p - 1]@));
                    lex_lt_transitive(start[a]@, start[p - 1]@, key@);
                }
            } else {
                let a2 = if a < p {
                    a
                } else {
                    a - 1
                };
                let b2 = if b < p {
                    b
                } else {
                    b - 1
                };
                assert(lex_lt(start[a2]@, start[b2]@));
            }
        }
        assert forall|a: int| 0 <= a < now.len() implies key_in((#[trigger] now[a])@, lo, hi) by {
            if a < p {
                assert(key_in(start[a]@, lo, hi));
            } else if a > p {
                assert(key_in(start[a - 1]@, lo, hi));
            }
        }
        assert forall|k: Seq<u8>| #[trigger] has_key(now, k) <==> has_key(start, k) || k == key@ by {
            if has_key(now, k) {
                let a = choose|a: int| 0 <= a < now.len() && (#[trigger] now[a])@ == k;
                if a < p {
                    assert(start[a]@ == k);
                } else if a > p {
                    assert(start[a - 1]@ == k);
                }
            }
            if has_key(start, k) {
                let a = choose|a: int| 0 <= a < start.len() && (#[trigger] start[a])@ == k;
                if a < p {
                    assert(now[a]@ == k);
                } else {
                    assert(now[a + 1]@ == k);
                }
            }
            assert(now[p as int]@ == key@);
        }
    }
}

/// Readers at or above the ceiling `low` get from the store what the history says.
pub open spec fn agrees(store: Set<Version>, w: Seq<WriteView>, low: u64) -> bool {
    forall|key: Seq<u8>, upper: u64, now_ms: u64|
        upper >= low ==> #[trigger] value_at(store, key, upper, now_ms) == model_value(
            w,
            key,
            upper,
        )
}

proof fn one_more_write(w: Seq<WriteView>, x: WriteView, key: Seq<u8>, s: u64)
    requires
        forall|i: int| 0 <= i < w.len() ==> (#[trigger] w[i]).seq < x.seq,
    ensures
        model_value(w.push(x), key, s) == (if x.key == key && x.seq <= s {
            x.value
        } else {
            model_value(w, key, s)
        }),
{
    let n = w.len() as int;
    governing_prefix(w.push(x), w, key, s, n);
    governing_facts(w, key, s, n);
}

/// A put on the engine and on the model keeps the two in agreement.
pub proof fn put_keeps_agreement(
    before: Engine,
    after: Engine,
    w: Seq<WriteView>,
    low: u64,
    key: Seq<u8>,
    value: Seq<u8>,
)
    requires
        before.wf(),
        after.wf(),
        agrees(before.store(), w, low),
        forall|i: int| 0 <= i < w.len() ==> (#[trigger] w[i]).seq < before.seq@,
        after.wrote_record(&before, WalView { seq: before.seq@, ops: seq![put_op(key, value, 0)] }),
    ensures
        agrees(
            after.store(),
            w.push(WriteView { key, seq: before.seq@, value: Some(value) }),
            low,
        ),
{
    let x = WriteView { key, seq: before.seq@, value: Some(value) };
    let e = WalView { seq: before.seq@, ops: seq![put_op(key, value, 0)] };
    assert forall|k: Seq<u8>, upper: u64, now_ms: u64|
        upper >= low implies #[trigger] value_at(after.store(), k, upper, now_ms) == model_value(
        w.push(x),
        k,
        upper,
    ) by {
        one_more_write(w, x, k, upper);
        record_changes_its_keys(before.store(), e, k, upper);
        assert(value_at(before.store(), k, upper, now_ms) == model_value(w, k, upper));
        assert(e.ops[0].key == key);
        if k != key && key_occurs(e.ops, 1, k) {
            let i = choose|i: int| 0 <= i < 1 && (#[trigger] e.ops[i]).key == k;
        }
    }
}

/// A deletion on the engine and on the model keeps the two in agreement.
pub proof fn del_keeps_agreement(
    before: Engine,
    after: Engine,
    w: Seq<WriteView>,
    low: u64,
    key: Seq<u8>,
)
    requires
        before.wf(),
        after.wf(),
        agrees(before.store(), w, low),
        forall|i: int| 0 <= i < w.len() ==> (#[trigger] w[i]).seq < before.seq@,
        after.wrote_record(&before, WalView { seq: before.seq@, ops: seq![del_op(key)] }),
    ensures
        agrees(after.store(), w.push(WriteView { key, seq: before.seq@, value: None }), low),
{
    let x = WriteView { key, seq: before.seq@, value: None };
    let e = WalView { seq: before.seq@, ops: seq![del_op(key)] };
    assert forall|k: Seq<u8>, upper: u64, now_ms: u64|
        upper >= low implies #[trigger] value_at(after.store(), k, upper, now_ms) == model_value(
        w.push(x),
        k,
        upper,
    ) by {
        one_more_write(w, x, k, upper);
        record_changes_its_keys(before.store(), e, k, upper);
        assert(value_at(before.store(), k, upper, now_ms) == model_value(w, k, upper));
        assert(e.ops[0].key == key);
        if k != key && key_occurs(e.ops, 1, k) {
            let i = choose|i: int| 0 <= i < 1 && (#[trigger] e.ops[i]).key == k;
        }
    }
}

/// A compaction keeps the engine in agreement with the model for readers at or above
/// its watermark.
pub proof fn compaction_keeps_agreement(
    before: Set<Version>,
    after: Set<Version>,
    w: Seq<WriteView>,
    low: u64,
    watermark: u64,
)
    requires
        agrees(before, w, low),
        same_reads(before, after, watermark),
        watermark >= low,
    ensures
        agrees(after, w, watermark),
{
    assert forall|k: Seq<u8>, upper: u64, now_ms: u64|
        upper >= watermark implies #[trigger] value_at(after, k, upper, now_ms) == model_value(
        w,
        k,
        upper,
    ) by {
        assert(value_at(before, k, upper, now_ms) == model_value(w, k, upper));
    }
}

/// What a reader with ceiling `s` gets from the history in a range, keys ascending.
pub open spec fn model_listing(w: Seq<WriteView>, lo: Seq<u8>, hi: Seq<u8>, s: u64) -> Seq<
    (Seq<u8>, Seq<u8>),
> {
    choose|r: Seq<(Seq<u8>, Seq<u8>)>| #[trigger] model_lists(w, lo, hi, s, r)
}

proof fn model_list_prefix(
    w: Seq<WriteView>,
    lo: Seq<u8>,
    hi: Seq<u8>,
    s: u64,
    a: Seq<(Seq<u8>, Seq<u8>)>,
    b: Seq<(Seq<u8>, Seq<u8>)>,
    n: int,
)
    requires
        model_lists(w, lo, hi, s, a),
        model_lists(w, lo, hi, s, b),
        0 <= n <= a.len(),
    ensures
        n <= b.len(),
        forall|i: int| 0 <= i < n ==> a[i] == #[trigger] b[i],
    decreases n,
{
    if n > 0 {
        model_list_prefix(w, lo, hi, s, a, b, n - 1);
        let k = a[n - 1].0;
        assert(model_value(w, k, s) is Some);
        assert(lists(b, k));
        let j = choose|j: int| 0 <= j < b.len() && (#[trigger] b[j]).0 == k;
        lex_lt_irreflexive(k);
        if j < n - 1 {
            assert(a[j] == b[j]);
            assert(lex_lt(a[j].0, a[n - 1].0));
        }
        if j > n - 1 {
            let m = b[n - 1].0;
            assert(model_value(w, m, s) is Some);
            assert(lists(a, m));
            let i = choose|i: int| 0 <= i < a.len() && (#[trigger] a[i]).0 == m;
            assert(lex_lt(b[n - 1].0, b[j].0));
            lex_lt_irreflexive(m);
            if i < n - 1 {
                assert(a[i] == b[i]);
                assert(lex_lt(b[i].0, b[n - 1].0));
            } else if i == n - 1 {
                assert(m == k);
            } else {
                assert(lex_lt(a[n - 1].0, a[i].0));
                lex_lt_asymmetric(k, m);
            }
        }
        assert(j == n - 1);
    }
}

/// A history lists a range in one way only.
pub proof fn model_listing_is_unique(
    w: Seq<WriteView>,
    lo: Seq<u8>,
    hi: Seq<u8>,
    s: u64,
    r: Seq<(Seq<u8>, Seq<u8>)>,
)
    requires
        model_lists(w, lo, hi, s, r),
    ensures
        model_listing(w, lo, hi, s) == r,
{
    let b = model_listing(w, lo, hi, s);
    model_list_prefix(w, lo, hi, s, r, b, r.len() as int);
    model_list_prefix(w, lo, hi, s, b, r, b.len() as int);
    assert(r =~= b);
}

/// A reader with the ceiling `upper` gets from the store what the history says.
pub open spec fn agrees_at(store: Set<Version>, w: Seq<WriteView>, upper: u64, now_ms: u64) -> bool {
    forall|key: Seq<u8>| #[trigger]
        value_at(store, key, upper, now_ms) == model_value(w, key, upper)
}

/// Where reads agree with the model, a scan gives what the model lists.
pub proof fn scan_agrees(
    store: Set<Version>,
    w: Seq<WriteView>,
    lo: Seq<u8>,
    hi: Seq<u8>,
    upper: u64,
    now_ms: u64,
    scanned: Seq<(Seq<u8>, Seq<u8>)>,
    expected: Seq<(Seq<u8>, Seq<u8>)>,
)
    requires
        agrees_at(store, w, upper, now_ms),
        listing(store, lo, hi, upper, now_ms, ScanDirection::Forward, scanned),
        model_lists(w, lo, hi, upper, expected),
    ensures
        scanned == expected,
{
    assert(listing(store, lo, hi, upper, now_ms, ScanDirection::Forward, expected)) by {
        assert forall|i: int, j: int| 0 <= i < j < expected.len() implies key_ahead(
            ScanDirection::Forward,
            (#[trigger] expected[i]).0,
            (#[trigger] expected[j]).0,
        ) by {
            assert(lex_lt(expected[i].0, expected[j].0));
        }
        assert forall|i: int| 0 <= i < expected.len() implies key_in(
            (#[trigger] expected[i]).0,
            lo,
            hi,
        ) && value_at(store, expected[i].0, upper, now_ms) == Some(expected[i].1) by {
            assert(model_value(w, expected[i].0, upper) == Some(expected[i].1));
            assert(value_at(store, expected[i].0, upper, now_ms) == model_value(
                w,
                expected[i].0,
                upper,
            ));
        }
        assert forall|key: Seq<u8>|
            key_in(key, lo, hi) && (#[trigger] value_at(store, key, upper, now_ms)) is Some implies lists(
            expected,
            key,
        ) by {
            assert(model_value(w, key, upper) is Some);
        }
    }
    listing_is_unique(
        store,
        lo,
        hi,
        upper,
        now_ms,
        ScanDirection::Forward,
        scanned,
        expected,
    );
}

/// Where the engine agrees with the model, a scan gives what the model lists.
pub proof fn scans_agree(
    store: Set<Version>,
    w: Seq<WriteView>,
    low: u64,
    lo: Seq<u8>,
    hi: Seq<u8>,
    upper: u64,
    now_ms: u64,
    scanned: Seq<(Seq<u8>, Seq<u8>)>,
    expected: Seq<(Seq<u8>, Seq<u8>)>,
)
    requires
        agrees(store, w, low),
        upper >= low,
        listing(store, lo, hi, upper, now_ms, ScanDirection::Forward, scanned),
        model_lists(w, lo, hi, upper, expected),
    ensures
        scanned == expected,
{
    assert(agrees_at(store, w, upper, now_ms));
    scan_agrees(store, w, lo, hi, upper, now_ms, scanned, expected);
}

} // verus!
