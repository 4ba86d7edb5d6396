//! A run of an engine beside its model, one step after the other.

use vstd::prelude::*;
use crate::bytes::{bytes_le, copy_bytes, lex_le};
use crate::codec::be_bytes_len;
use crate::engine::admin::flushable;
use crate::engine::catalog::listed;
use crate::engine::compact::same_reads;
use crate::engine::jobs::compaction_chain;
use crate::engine::ops::{del_op, put_op};
use crate::engine::read::{ids_of, last_seq};
use crate::engine::scans::{in_user_space, user_bounds_stay, user_end};
use crate::engine::write::WriteGate;
use crate::engine::Engine;
use crate::errors::EngineResult;
use crate::harness::model::{
    agrees, agrees_at, del_keeps_agreement, governing, key_of, model_listing,
    model_listing_is_unique, model_lists, model_value, numbered_key, put_keeps_agreement, scan_agrees, Model, WriteView,
};
use crate::harness::report::{bytes_text, described, difference, value_view};
use crate::harness::steps::{
    check_get, check_recovered, check_scan, check_snapshot, check_state, recovery_detail, Step, StepView,
};
use crate::keys::KS_USER;
use crate::owned_snapshot::{release_undoes_acquire, times, SnapshotHandle};
use crate::iter::ScanDirection;
use crate::records::{visible, Version};
use crate::snapshot::pair_views;
use crate::sorted_map::count_of;
use crate::store::{
    listing, listing_is_unique, newest, newest_holds, newest_in, newest_is, newest_is_none, value_at,
};
use crate::text::decimal;
use crate::wal::{op_views, WalCommand, WalOp, WalView};

verus! {

/// An engine and the history that it is held against.
#[derive(Debug)]
pub struct Harness {
    pub engine: Engine,
    pub model: Model,
}

/// How a step ended.
#[derive(Debug)]
pub enum StepEnd {
    /// The engine gave what the model says.
    Agreed,
    /// The engine could not take the step now, and nothing has changed for a reader.
    Blocked,
    /// The engine gave something else, in the operation `op`.
    Diverged { op: &'static str, detail: String },
}

impl Harness {
    /// The engine agrees with the model, and no snapshot is held.
    pub open spec fn in_step(&self) -> bool {
        &&& self.engine.wf()
        &&& agrees(self.engine.store(), self.model@, u64::MAX)
        &&& forall|i: int|
            0 <= i < self.model@.len() ==> (#[trigger] self.model@[i]).seq < self.engine.seq@
        &&& forall|id: u64| #[trigger] count_of(self.engine.pins.pin_counts@, id) == 0
        &&& self.engine.pins.live_snapshot_seqs@ == Map::<u64, u64>::empty()
    }
}

/// An engine whose readers see what they saw stays in step.
proof fn stays_in_step(before: Harness, after: Harness, w: u64)
    requires
        before.in_step() ==> after.engine.wf() && after.model == before.model && after.engine.seq@
            == before.engine.seq@ && after.engine.pins.pin_counts@
            == before.engine.pins.pin_counts@ && after.engine.pins.live_snapshot_seqs@
            == before.engine.pins.live_snapshot_seqs@,
        same_reads(before.engine.store(), after.engine.store(), w),
    ensures
        before.in_step() ==> after.in_step(),
{
    if before.in_step() {
        assert forall|k: Seq<u8>, upper: u64, now: u64|
            upper >= u64::MAX implies #[trigger] value_at(after.engine.store(), k, upper, now)
            == model_value(after.model@, k, upper) by {
            assert(value_at(before.engine.store(), k, upper, now) == model_value(
                after.model@,
                k,
                upper,
            ));
        }
    }
}

/// A ceiling at or above every write makes no difference to the model.
proof fn high_ceiling_in_model(w: Seq<WriteView>, key: Seq<u8>, s: u64, n: int)
    requires
        0 <= n <= w.len(),
        forall|i: int| 0 <= i < w.len() ==> (#[trigger] w[i]).seq <= s,
    ensures
        governing(w, key, s, n) == governing(w, key, u64::MAX, n),
    decreases n,
{
    if n > 0 {
        high_ceiling_in_model(w, key, s, n - 1);
        assert(w[n - 1].seq <= s);
    }
}

/// A ceiling at or above every version makes no difference to a reader.
proof fn high_ceiling_in_store(e: Engine, key: Seq<u8>, now_ms: u64)
    requires
        e.wf(),
    ensures
        value_at(e.store(), key, last_seq(e.seq@), now_ms) == value_at(
            e.store(),
            key,
            u64::MAX,
            now_ms,
        ),
{
    let s = e.store();
    let top = last_seq(e.seq@);
    newest_holds(s, key, top);
    newest_holds(s, key, u64::MAX);
    if let Some(v) = newest(s, key, u64::MAX) {
        assert(v.0.seq <= top);
        assert(newest_in(s, key, top, v)) by {
            assert forall|w: Version| #[trigger] s.contains(w) && visible(w, key, top) implies w.0.seq
                <= v.0.seq by {
                assert(visible(w, key, u64::MAX));
            }
        }
        newest_is(s, key, top, v);
    } else if let Some(v) = newest(s, key, top) {
        assert(newest_in(s, key, u64::MAX, v)) by {
            assert forall|w: Version| #[trigger] s.contains(w) && visible(
                w,
                key,
                u64::MAX,
            ) implies w.0.seq <= v.0.seq by {
                assert(w.0.seq <= top);
            }
        }
    }
}

/// Where engine and model agree, so do their answers at the last sequence number.
proof fn answers_agree(h: Harness, key: Seq<u8>, now_ms: u64)
    requires
        h.in_step(),
    ensures
        value_at(h.engine.store(), key, u64::MAX, now_ms) == model_value(
            h.model@,
            key,
            last_seq(h.engine.seq@),
        ),
        value_at(h.engine.store(), key, last_seq(h.engine.seq@), now_ms) == model_value(
            h.model@,
            key,
            last_seq(h.engine.seq@),
        ),
{
    high_ceiling_in_store(h.engine, key, now_ms);
    high_ceiling_in_model(h.model@, key, last_seq(h.engine.seq@), h.model@.len() as int);
    assert(value_at(h.engine.store(), key, u64::MAX, now_ms) == model_value(
        h.model@,
        key,
        u64::MAX,
    ));
}

/// A scan of an engine in step gives what the model lists.
proof fn scans_in_step(
    h: Harness,
    lo: Seq<u8>,
    hi: Seq<u8>,
    now_ms: u64,
    scanned: Seq<(Seq<u8>, Seq<u8>)>,
    expected: Seq<(Seq<u8>, Seq<u8>)>,
)
    requires
        h.in_step(),
        listing(
            h.engine.store(),
            lo,
            hi,
            last_seq(h.engine.seq@),
            now_ms,
            ScanDirection::Forward,
            scanned,
        ),
        model_lists(h.model@, lo, hi, last_seq(h.engine.seq@), expected),
    ensures
        scanned == expected,
{
    let top = last_seq(h.engine.seq@);
    assert(agrees_at(h.engine.store(), h.model@, top, now_ms)) by {
        assert forall|key: Seq<u8>| #[trigger]
            value_at(h.engine.store(), key, top, now_ms) == model_value(h.model@, key, top) by {
            answers_agree(h, key, now_ms);
        }
    }
    scan_agrees(h.engine.store(), h.model@, lo, hi, top, now_ms, scanned, expected);
}

/// An entry occurs in a list no more often than the list has entries.
proof fn times_bound(ids: Seq<u64>, id: u64)
    ensures
        times(ids, id) <= ids.len(),
    decreases ids.len(),
{
    if ids.len() > 0 {
        times_bound(ids.drop_last(), id);
    }
}

/// The text on a read that differs.
pub open spec fn get_detail(id: u64, expected: Option<Seq<u8>>, got: Option<Seq<u8>>) -> Seq<char> {
    "key id "@ + decimal(id as nat) + ": expected "@ + described(expected) + ", got "@ + described(
        got,
    )
}

/// The text on a read from a snapshot that differs.
pub open spec fn snapshot_detail(
    id: u64,
    ceiling: u64,
    expected: Option<Seq<u8>>,
    got: Option<Seq<u8>>,
) -> Seq<char> {
    "key id "@ + decimal(id as nat) + " at seq "@ + decimal(ceiling as nat) + ": expected "@
        + described(expected) + ", got "@ + described(got)
}

/// The text on a scan that differs.
pub open spec fn scan_detail(
    lo: Seq<u8>,
    hi: Seq<u8>,
    expected: Seq<(Seq<u8>, Seq<u8>)>,
    got: Seq<(Seq<u8>, Seq<u8>)>,
) -> Seq<char> {
    "range ["@ + bytes_text(lo) + ".."@ + bytes_text(hi) + "): expected "@ + decimal(
        expected.len(),
    ) + " keys, got "@ + decimal(got.len()) + " keys"@
}

/// A comparison ended in agreement where the two sides are the same, and otherwise in a
/// divergence that names the operation and the difference.
pub open spec fn judged(r: StepEnd, same: bool, op: Seq<char>, detail: Seq<char>) -> bool {
    match r {
        StepEnd::Agreed => same,
        StepEnd::Blocked => false,
        StepEnd::Diverged { op: o, detail: d } => !same && o@ == op && d@ == detail,
    }
}

impl Harness {
    /// The sequence number at which engine and model are compared.
    pub open spec fn ceiling(&self) -> u64 {
        last_seq(self.engine.seq@)
    }

    /// What the model says of a key.
    pub open spec fn expects(&self, id: u64) -> Option<Seq<u8>> {
        model_value(self.model@, numbered_key(id), self.ceiling())
    }

    /// What a reader of the engine gets for a key, under a ceiling.
    pub open spec fn answers(&self, id: u64, upper: u64, now_ms: u64) -> Option<Seq<u8>> {
        value_at(self.engine.store(), numbered_key(id), upper, now_ms)
    }

    /// What the model lists in a range.
    pub open spec fn expects_in(&self, lo: Seq<u8>, hi: Seq<u8>) -> Seq<(Seq<u8>, Seq<u8>)> {
        model_listing(self.model@, lo, hi, self.ceiling())
    }

    /// What a scan of the engine lists in a range.
    pub open spec fn lists_in(&self, lo: Seq<u8>, hi: Seq<u8>, now_ms: u64) -> Seq<
        (Seq<u8>, Seq<u8>),
    > {
        listed(self.engine.store(), lo, hi, self.ceiling(), now_ms)
    }

    /// The engine answers as the model says for the first `n` keys, under the ceiling.
    pub open spec fn answers_first(&self, ids: Seq<u64>, n: int, now_ms: u64) -> bool {
        forall|i: int|
            0 <= i < n ==> self.answers(#[trigger] ids[i], self.ceiling(), now_ms) == self.expects(
                ids[i],
            )
    }

    /// The verdict on reads from a snapshot: agreement where every answer is right, and
    /// otherwise the first that is not.
    pub open spec fn snapshot_judged(&self, ids: Seq<u64>, now_ms: u64, r: StepEnd) -> bool {
        match r {
            StepEnd::Agreed => self.answers_first(ids, ids.len() as int, now_ms),
            StepEnd::Blocked => false,
            StepEnd::Diverged { op, detail } => op@ == "snapshot"@ && exists|i: int|
                #![trigger ids[i]]
                {
                    &&& 0 <= i < ids.len()
                    &&& self.answers_first(ids, i, now_ms)
                    &&& self.answers(ids[i], self.ceiling(), now_ms) != self.expects(ids[i])
                    &&& detail@ == snapshot_detail(
                        ids[i],
                        self.ceiling(),
                        self.expects(ids[i]),
                        self.answers(ids[i], self.ceiling(), now_ms),
                    )
                },
        }
    }

    /// The verdict on a step that the engine could take.
    pub open spec fn step_judged(&self, step: StepView, now_ms: u64, r: StepEnd) -> bool {
        match step {
            StepView::Get { id } => {
                let got = self.answers(id, u64::MAX, now_ms);
                judged(r, got == self.expects(id), "get"@, get_detail(id, self.expects(id), got))
            },
            StepView::Scan { lo, hi } => {
                let from = numbered_key(lo);
                let to = numbered_key(hi);
                let expected = self.expects_in(from, to);
                let got = self.lists_in(from, to, now_ms);
                judged(r, got == expected, "scan"@, scan_detail(from, to, expected, got))
            },
            StepView::Snapshot { ids } => self.snapshot_judged(ids, now_ms, r),
            _ => r is Agreed,
        }
    }
}

/// The history after a step that took the sequence number `seq` where it wrote.
pub open spec fn history_after(w: Seq<WriteView>, step: StepView, seq: u64) -> Seq<WriteView> {
    match step {
        StepView::Put { id, value } => w.push(
            WriteView { key: numbered_key(id), seq, value: Some(value) },
        ),
        StepView::Delete { id } => w.push(WriteView { key: numbered_key(id), seq, value: None }),
        _ => w,
    }
}

impl Harness {
    /// The engine cannot take the step now.
    pub open spec fn blocks(&self, step: StepView, gate: WriteGate) -> bool {
        let e = self.engine;
        match step {
            StepView::Put { id, value } => {
                let key = numbered_key(id);
                ||| !e.measurable()
                ||| !e.can_take(seq![put_op(key, value, 0)])
                ||| e.put_refusal(key, value, gate) is Some
            },
            StepView::Delete { id } => {
                let key = numbered_key(id);
                ||| !e.measurable()
                ||| !e.can_take(seq![del_op(key)])
                ||| e.del_refusal(key, gate) is Some
            },
            StepView::Scan { lo, hi } => !lex_le(numbered_key(lo), numbered_key(hi)),
            StepView::Flush => !flushable(&e) || e.apply_scheduler.shut_down,
            StepView::Compact => e.apply_scheduler.pending_count == u64::MAX
                || e.apply_scheduler.shut_down,
            StepView::Snapshot { ids } => !e.pins.room_for(ids_of(e.catalog()), self.ceiling()),
            _ => false,
        }
    }

    /// Starts a run over an engine that holds nothing.
    pub fn new(engine: Engine) -> (h: Harness)
        requires
            engine.wf(),
            engine.store() == Set::<Version>::empty(),
            forall|id: u64| #[trigger] count_of(engine.pins.pin_counts@, id) == 0,
            engine.pins.live_snapshot_seqs@ == Map::<u64, u64>::empty(),
        ensures
            h.in_step(),
            h.engine == engine,
            h.model@ == Seq::<WriteView>::empty(),
    {
        let h = Harness { engine, model: Model::new() };
        proof {
            assert forall|key: Seq<u8>, upper: u64, now_ms: u64|
                upper >= u64::MAX implies #[trigger] value_at(
                h.engine.store(),
                key,
                upper,
                now_ms,
            ) == model_value(h.model@, key, upper) by {
                newest_is_none(h.engine.store(), key, upper);
            }
        }
        h
    }

    fn put(&mut self, id: u64, value: Vec<u8>, gate: WriteGate) -> (r: StepEnd)
        requires
            old(self).engine.wf(),
        ensures
            final(self).engine.wf(),
            old(self).in_step() ==> final(self).in_step(),
            r is Blocked || r is Agreed,
            r is Blocked <==> old(self).blocks(StepView::Put { id, value: value@ }, gate),
            final(self).model@ == (if r is Agreed {
                history_after(
                    old(self).model@,
                    StepView::Put { id, value: value@ },
                    old(self).engine.seq@,
                )
            } else {
                old(self).model@
            }),
            r is Blocked ==> final(self).engine.untouched(&old(self).engine),
            r is Agreed ==> final(self).engine.wrote(
                &old(self).engine,
                WalView {
                    seq: old(self).engine.seq@,
                    ops: seq![put_op(numbered_key(id), value@, 0)],
                },
            ),
    {
        let ghost before = *self;
        let key: Vec<u8> = key_of(id);
        let mut ops: Vec<WalOp> = Vec::new();
        ops.push(
            WalOp {
                command: WalCommand::Put,
                expires_at: 0,
                key: copy_bytes(key.as_slice()),
                value: copy_bytes(value.as_slice()),
            },
        );
        assert(op_views(ops@) =~= seq![put_op(key@, value@, 0)]);
        if !self.engine.can_measure() || !self.engine.has_room(&ops) {
            return StepEnd::Blocked;
        }
        let kept: Vec<u8> = copy_bytes(value.as_slice());
        match self.engine.put(copy_bytes(key.as_slice()), value, 0, gate) {
            Ok(seq) => {
                proof {
                    if before.in_step() {
                        put_keeps_agreement(
                            before.engine,
                            self.engine,
                            before.model@,
                            u64::MAX,
                            key@,
                            kept@,
                        );
                    }
                }
                self.model.put(key, seq, kept);
                StepEnd::Agreed
            },
            Err(e) => StepEnd::Blocked,
        }
    }

    fn delete(&mut self, id: u64, gate: WriteGate, now_ms: u64) -> (r: StepEnd)
        requires
            old(self).engine.wf(),
        ensures
            final(self).engine.wf(),
            old(self).in_step() ==> final(self).in_step(),
            r is Blocked || r is Agreed,
            r is Blocked <==> old(self).blocks(StepView::Delete { id }, gate),
            final(self).model@ == (if r is Agreed {
                history_after(old(self).model@, StepView::Delete { id }, old(self).engine.seq@)
            } else {
                old(self).model@
            }),
            r is Blocked ==> final(self).engine.untouched(&old(self).engine),
            r is Agreed ==> final(self).engine.wrote(
                &old(self).engine,
                WalView { seq: old(self).engine.seq@, ops: seq![del_op(numbered_key(id))] },
            ),
    {
        let ghost before = *self;
        let key: Vec<u8> = key_of(id);
        let mut ops: Vec<WalOp> = Vec::new();
        ops.push(
            WalOp {
                command: WalCommand::Del,
                expires_at: 0,
                key: copy_bytes(key.as_slice()),
                value: Vec::new(),
            },
        );
        assert(op_views(ops@) =~= seq![del_op(key@)]);
        if !self.engine.can_measure() || !self.engine.has_room(&ops) {
            return StepEnd::Blocked;
        }
        match self.engine.del(copy_bytes(key.as_slice()), gate, now_ms) {
            Ok((existed, seq)) => {
                proof {
                    if before.in_step() {
                        del_keeps_agreement(
                            before.engine,
                            self.engine,
                            before.model@,
                            u64::MAX,
                            key@,
                        );
                    }
                }
                self.model.del(key, seq);
                StepEnd::Agreed
            },
            Err(e) => StepEnd::Blocked,
        }
    }

    /// Reads a key, and holds the answer against the model.
    fn get(&mut self, id: u64, now_ms: u64) -> (r: StepEnd)
        requires
            old(self).engine.wf(),
        ensures
            final(self).engine.wf(),
            old(self).step_judged(StepView::Get { id }, now_ms, r),
            old(self).in_step() ==> r is Agreed && final(self).in_step(),
            final(self).model == old(self).model,
            final(self).engine == (Engine {
                result_cache: final(self).engine.result_cache,
                ..old(self).engine
            }),
    {
        let key: Vec<u8> = key_of(id);
        let expected: Option<Vec<u8>> = self.model.value_at(
            key.as_slice(),
            self.engine.current_seq(),
        );
        proof {
            if self.in_step() {
                answers_agree(*self, key@, now_ms);
            }
            be_bytes_len(id as nat, 8);
            assert(value_view(expected) == self.expects(id));
        }
        match self.engine.get(key.as_slice(), now_ms) {
            Ok(got) => {
                assert(value_view(got) == old(self).answers(id, u64::MAX, now_ms));
                match check_get(id, &expected, &got) {
                    None => StepEnd::Agreed,
                    Some(detail) => StepEnd::Diverged { op: "get", detail },
                }
            },
            Err(e) => StepEnd::Diverged { op: "get", detail: e.describe() },
        }
    }

    /// The pairs that engine and model have in a range.
    fn both_lists(&self, lo: &[u8], hi: &[u8], now_ms: u64) -> (r: (
        Vec<(Vec<u8>, Vec<u8>)>,
        EngineResult<Vec<(Vec<u8>, Vec<u8>)>>,
    ))
        requires
            self.engine.wf(),
            lex_le(lo@, hi@),
            in_user_space(lo@),
            in_user_space(hi@) || hi@ == user_end(),
        ensures
            pair_views(r.0@) == self.expects_in(lo@, hi@),
            r.1 matches Ok(got) && pair_views(got@) == self.lists_in(lo@, hi@, now_ms),
            self.in_step() ==> self.expects_in(lo@, hi@) == self.lists_in(lo@, hi@, now_ms),
    {
        let expected: Vec<(Vec<u8>, Vec<u8>)> = self.model.live_in(
            lo,
            hi,
            self.engine.current_seq(),
        );
        proof {
            model_listing_is_unique(
                self.model@,
                lo@,
                hi@,
                self.ceiling(),
                pair_views(expected@),
            );
        }
        proof {
            user_bounds_stay(lo@, hi@);
        }
        match self.engine.scan(lo, hi, now_ms) {
            Ok(it) => {
                let got: Vec<(Vec<u8>, Vec<u8>)> = it.collect();
                proof {
                    let l = pair_views(got@);
                    listing_is_unique(
                        self.engine.store(),
                        lo@,
                        hi@,
                        self.ceiling(),
                        now_ms,
                        ScanDirection::Forward,
                        l,
                        self.lists_in(lo@, hi@, now_ms),
                    );
                    if self.in_step() {
                        scans_in_step(*self, lo@, hi@, now_ms, l, pair_views(expected@));
                    }
                }
                (expected, Ok(got))
            },
            Err(e) => (expected, Err(e)),
        }
    }

    /// Scans a range, and holds the list against the model.
    fn scan(&self, lo: u64, hi: u64, now_ms: u64) -> (r: StepEnd)
        requires
            self.engine.wf(),
        ensures
            r is Blocked <==> !lex_le(numbered_key(lo), numbered_key(hi)),
            !(r is Blocked) ==> self.step_judged(StepView::Scan { lo, hi }, now_ms, r),
            self.in_step() && !(r is Blocked) ==> r is Agreed,
    {
        let from: Vec<u8> = key_of(lo);
        let to: Vec<u8> = key_of(hi);
        if !bytes_le(from.as_slice(), to.as_slice()) {
            return StepEnd::Blocked;
        }
        let (expected, listed): (Vec<(Vec<u8>, Vec<u8>)>, EngineResult<Vec<(Vec<u8>, Vec<u8>)>>) =
            self.both_lists(from.as_slice(), to.as_slice(), now_ms);
        match listed {
            Ok(got) => match check_scan(from.as_slice(), to.as_slice(), &expected, &got) {
                None => StepEnd::Agreed,
                Some(detail) => StepEnd::Diverged { op: "scan", detail },
            },
            Err(e) => StepEnd::Diverged { op: "scan", detail: e.describe() },
        }
    }

    /// Holds the whole user key space against the model.
    pub fn checkpoint(&self, now_ms: u64) -> (r: StepEnd)
        requires
            self.engine.wf(),
        ensures
            ({
                let lo = seq![KS_USER];
                let hi = seq![(KS_USER + 1) as u8];
                let expected = self.expects_in(lo, hi);
                let got = self.lists_in(lo, hi, now_ms);
                judged(r, got == expected, "checkpoint"@, difference(expected, got))
            }),
            self.in_step() ==> r is Agreed,
    {
        let lo: Vec<u8> = vec![KS_USER];
        let hi: Vec<u8> = vec![KS_USER + 1];
        proof {
            assert(lex_le(lo@, hi@)) by {
                reveal_with_fuel(crate::bytes::lex_lt, 2);
            }
            assert(lo@ =~= seq![KS_USER]);
            assert(hi@ =~= seq![(KS_USER + 1) as u8]);
        }
        let (expected, listed): (Vec<(Vec<u8>, Vec<u8>)>, EngineResult<Vec<(Vec<u8>, Vec<u8>)>>) =
            self.both_lists(lo.as_slice(), hi.as_slice(), now_ms);
        match listed {
            Ok(got) => match check_state(&expected, &got) {
                None => StepEnd::Agreed,
                Some(detail) => StepEnd::Diverged { op: "checkpoint", detail },
            },
            Err(e) => StepEnd::Diverged { op: "checkpoint", detail: e.describe() },
        }
    }

    fn flush(&mut self) -> (r: StepEnd)
        requires
            old(self).engine.wf(),
        ensures
            final(self).engine.wf(),
            old(self).in_step() ==> final(self).in_step(),
            r is Agreed || r is Blocked,
            r is Blocked <==> !flushable(&old(self).engine) || old(
                self,
            ).engine.apply_scheduler.shut_down,
            final(self).model == old(self).model,
            r is Agreed ==> final(self).engine.flushed_from(&old(self).engine),
            r is Blocked ==> *final(self) == *old(self),
    {
        let ghost before = *self;
        if self.engine.apply_scheduler.shut_down || !self.engine.can_flush() {
            return StepEnd::Blocked;
        }
        match self.engine.force_flush() {
            Ok(_) => {
                proof {
                    stays_in_step(before, *self, before.engine.settled_watermark());
                }
                StepEnd::Agreed
            },
            Err(e) => StepEnd::Diverged { op: "flush", detail: e.describe() },
        }
    }

    fn compact(&mut self) -> (r: StepEnd)
        requires
            old(self).engine.wf(),
        ensures
            final(self).engine.wf(),
            old(self).in_step() ==> final(self).in_step(),
            r is Agreed || r is Blocked,
            r is Blocked <==> old(self).engine.apply_scheduler.pending_count == u64::MAX || old(
                self,
            ).engine.apply_scheduler.shut_down,
            final(self).model == old(self).model,
            r is Agreed ==> final(self).engine.at_rest() && exists|n: nat| #[trigger]
                compaction_chain(old(self).engine, final(self).engine, n),
            r is Blocked ==> *final(self) == *old(self),
    {
        let ghost before = *self;
        if self.engine.apply_scheduler.pending_count == u64::MAX
            || self.engine.apply_scheduler.shut_down {
            return StepEnd::Blocked;
        }
        match self.engine.drain_compaction() {
            Ok(done) => {
                proof {
                    stays_in_step(
                        before,
                        *self,
                        before.engine.pins.watermark(before.engine.synced_seq),
                    );
                }
                StepEnd::Agreed
            },
            Err(e) => StepEnd::Diverged { op: "compact", detail: e.describe() },
        }
    }

    /// Reads keys from a snapshot, holds the answers against the model, and lets go of
    /// the snapshot.
    fn snapshot(&mut self, ids: &Vec<u64>, now_ms: u64) -> (r: StepEnd)
        requires
            old(self).engine.wf(),
        ensures
            final(self).engine.wf(),
            r is Blocked <==> !old(self).engine.pins.room_for(
                ids_of(old(self).engine.catalog()),
                old(self).ceiling(),
            ),
            !(r is Blocked) ==> old(self).snapshot_judged(ids@, now_ms, r),
            old(self).in_step() ==> r is Agreed && final(self).in_step(),
            final(self).model == old(self).model,
            final(self).engine == (Engine { pins: final(self).engine.pins, ..old(self).engine }),
            final(self).engine.pins.same_pins(&old(self).engine.pins),
    {
        let ghost before = *self;
        let ghost tables = ids_of(self.engine.catalog());
        let count: usize = self.engine.sstable_count();
        proof {
            assert(tables.len() == count);
            if self.in_step() {
                assert forall|id: u64| #[trigger]
                    count_of(self.engine.pins.pin_counts@, id) + times(tables, id) <= u64::MAX by {
                    times_bound(tables, id);
                }
            }
        }
        if !self.engine.can_snapshot() {
            return StepEnd::Blocked;
        }
        let ceiling: u64 = self.engine.current_seq();
        let h: SnapshotHandle = self.engine.snapshot_owned();
        let ghost held = self.engine;
        let mut end: StepEnd = StepEnd::Agreed;
        let mut i: usize = 0;
        while i < ids.len() && matches!(end, StepEnd::Agreed)
            invariant
                i <= ids@.len(),
                before.engine.wf(),
                self.model == before.model,
                self.engine == held,
                h.wf(),
                h.ceiling() == ceiling,
                ceiling == before.ceiling(),
                h.content().store() == before.engine.store(),
                end is Agreed ==> before.answers_first(ids@, i as int, now_ms),
                !(end is Agreed) ==> before.snapshot_judged(ids@, now_ms, end),
                before.in_step() ==> end is Agreed,
            decreases ids.len() - i,
        {
            let id: u64 = ids[i];
            let key: Vec<u8> = key_of(id);
            let expected: Option<Vec<u8>> = self.model.value_at(key.as_slice(), ceiling);
            let got: Option<Vec<u8>> = h.get(key.as_slice(), now_ms);
            proof {
                if before.in_step() {
                    answers_agree(before, key@, now_ms);
                }
                assert(value_view(expected) == before.expects(id));
                assert(value_view(got) == before.answers(id, ceiling, now_ms));
                assert(ids@[i as int] == id);
            }
            match check_snapshot(id, ceiling, &expected, &got) {
                None => {},
                Some(detail) => {
                    end = StepEnd::Diverged { op: "snapshot", detail };
                },
            }
            i = i + 1;
        }
        let gone: Vec<u64> = h.release(&mut self.engine.pins);
        proof {
            release_undoes_acquire(before.engine.pins, held.pins, self.engine.pins, tables, ceiling);
        }
        end
    }

    /// Takes a step, and holds what came of it against the model. An engine in step with
    /// its model stays so, and never gives anything but what the model says.
    pub fn step(&mut self, step: Step, gate: WriteGate, now_ms: u64) -> (r: StepEnd)
        requires
            old(self).engine.wf(),
            !(step is Crash),
        ensures
            final(self).engine.wf(),
            r is Blocked <==> old(self).blocks(step@, gate),
            !(r is Blocked) ==> old(self).step_judged(step@, now_ms, r),
            old(self).in_step() ==> final(self).in_step() && !(r is Diverged),
            old(self).in_step() && step is Snapshot ==> r is Agreed,
            final(self).model@ == (if r is Agreed {
                history_after(old(self).model@, step@, old(self).engine.seq@)
            } else {
                old(self).model@
            }),
            r is Blocked || step is Get || step is Scan || step is Snapshot
                ==> final(self).engine.store() == old(self).engine.store(),
            r is Agreed ==> match step@ {
                StepView::Put { id, value } => final(self).engine.wrote(
                    &old(self).engine,
                    WalView {
                        seq: old(self).engine.seq@,
                        ops: seq![put_op(numbered_key(id), value, 0)],
                    },
                ),
                StepView::Delete { id } => final(self).engine.wrote(
                    &old(self).engine,
                    WalView { seq: old(self).engine.seq@, ops: seq![del_op(numbered_key(id))] },
                ),
                StepView::Flush => final(self).engine.flushed_from(&old(self).engine),
                StepView::Compact => final(self).engine.at_rest() && exists|n: nat| #[trigger]
                    compaction_chain(old(self).engine, final(self).engine, n),
                _ => true,
            },
    {
        match step {
            Step::Put { id, value } => self.put(id, value, gate),
            Step::Delete { id } => self.delete(id, gate, now_ms),
            Step::Get { id } => self.get(id, now_ms),
            Step::Scan { lo, hi } => self.scan(lo, hi, now_ms),
            Step::Flush => self.flush(),
            Step::Compact => self.compact(),
            Step::Snapshot { ids } => self.snapshot(&ids, now_ms),
            Step::Crash => StepEnd::Blocked,
        }
    }
}

/// Holds an engine that was opened again after a crash against the model: nothing
/// past the last acknowledged write `ack` may be there and nothing up to the last
/// durable one be missing, and the state is that of the sequence number it gave.
pub fn judge_recovery(
    model: &Model,
    recovered: &Engine,
    ack: u64,
    durable: u64,
    now_ms: u64,
) -> (r: StepEnd)
    requires
        recovered.wf(),
    ensures
        ({
            let at = last_seq(recovered.seq@);
            let lo = seq![KS_USER];
            let hi = seq![(KS_USER + 1) as u8];
            match r {
                StepEnd::Agreed => durable <= at <= ack && exists|l: Seq<(Seq<u8>, Seq<u8>)>|
                    #![trigger model_lists(model@, lo, hi, at, l)]
                    listing(
                        recovered.store(),
                        lo,
                        hi,
                        at,
                        now_ms,
                        ScanDirection::Forward,
                        l,
                    ) && model_lists(model@, lo, hi, at, l),
                StepEnd::Blocked => false,
                StepEnd::Diverged { op, detail } => op@ == "crash"@ && if at > ack {
                    detail@ == "replay fabricated writes: recovered seq "@ + decimal(at as nat)
                        + " > ack "@ + decimal(ack as nat)
                } else if at < durable {
                    detail@ == "replay lost fsynced writes: recovered seq "@ + decimal(
                        at as nat,
                    ) + " < durable "@ + decimal(durable as nat)
                } else {
                    exists|l: Seq<(Seq<u8>, Seq<u8>)>, m: Seq<(Seq<u8>, Seq<u8>)>|
                        #![trigger difference(m, l)]
                        l != m && listing(
                            recovered.store(),
                            lo,
                            hi,
                            at,
                            now_ms,
                            ScanDirection::Forward,
                            l,
                        ) && model_lists(model@, lo, hi, at, m) && detail@
                            == "state != model at seq "@ + decimal(at as nat) + ": "@
                            + difference(m, l)
                },
            }
        }),
{
    let at: u64 = recovered.current_seq();
    match check_recovered(at, ack, durable) {
        Some(detail) => {
            return StepEnd::Diverged { op: "crash", detail };
        },
        None => {},
    }
    let lo: Vec<u8> = vec![KS_USER];
    let hi: Vec<u8> = vec![KS_USER + 1];
    proof {
        assert(lex_le(lo@, hi@)) by {
            reveal_with_fuel(crate::bytes::lex_lt, 2);
        }
        assert(lo@ =~= seq![KS_USER]);
        assert(hi@ =~= seq![(KS_USER + 1) as u8]);
    }
    let expected: Vec<(Vec<u8>, Vec<u8>)> = model.live_in(
        lo.as_slice(),
        hi.as_slice(),
        at,
    );
    proof {
        user_bounds_stay(lo@, hi@);
    }
    match recovered.scan(lo.as_slice(), hi.as_slice(), now_ms) {
        Ok(it) => {
            let got: Vec<(Vec<u8>, Vec<u8>)> = it.collect();
            match check_state(&expected, &got) {
                None => {
                    assert(model_lists(model@, lo@, hi@, at, pair_views(got@)));
                    StepEnd::Agreed
                },
                Some(detail) => StepEnd::Diverged {
                    op: "crash",
                    detail: recovery_detail(at, detail.as_str()),
                },
            }
        },
        Err(e) => StepEnd::Diverged { op: "crash", detail: e.describe() },
    }
}

} // verus!
