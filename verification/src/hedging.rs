//! Hedging: when a replica starts to propose for a slot that makes no
//! progress.

use vstd::prelude::*;

use crate::proposer::lemma_none_set;
use crate::sorted::{
    ascending, ascends, lemma_ascending, lemma_ascends_distinct, lemma_filter_ascends, Key,
};
use crate::state::{ActionView, State};
use crate::types::{batch_bytes, ReplicaId};

verus! {

/// How many of the ids `q` are smaller than `me`.
pub open spec fn smaller_ids(q: Seq<ReplicaId>, me: ReplicaId) -> nat
    decreases q.len(),
{
    if q.len() == 0 {
        0
    } else {
        smaller_ids(q.drop_last(), me) + (if q.last().0 < me.0 {
            1nat
        } else {
            0nat
        })
    }
}

/// In ascending order, the place of an id is the number of smaller ones.
pub proof fn lemma_place(q: Seq<ReplicaId>, me: ReplicaId, i: int)
    requires
        ascends(q),
        0 <= i < q.len(),
        q[i] == me,
    ensures
        smaller_ids(q, me) == i,
{
    lemma_place_upto(q, me, i, q.len() as int);
    assert(q.take(q.len() as int) =~= q);
}

pub proof fn lemma_place_upto(q: Seq<ReplicaId>, me: ReplicaId, i: int, j: int)
    requires
        ascends(q),
        0 <= i < q.len(),
        q[i] == me,
        0 <= j <= q.len(),
    ensures
        smaller_ids(q.take(j), me) == (if j < i {
            j
        } else {
            i
        }),
    decreases j,
{
    if j > 0 {
        lemma_place_upto(q, me, i, j - 1);
        assert(q.take(j).drop_last() =~= q.take(j - 1));
        assert(q.take(j).last() == q[j - 1]);
        if j - 1 < i {
            assert(q[j - 1].rank() < q[i].rank());
        } else if j - 1 > i {
            assert(q[i].rank() < q[j - 1].rank());
        }
    }
}

impl State {
    /// No known slot is beyond the last one.
    pub proof fn lemma_last_known(self, k: u64)
        requires
            self.slots.dom().finite(),
            self.slots.contains_key(k),
        ensures
            k <= self.last_known(),
            self.slots.contains_key(self.last_known()),
    {
        lemma_ascending(self.slots.dom());
        let keys = ascending(self.slots.dom());
        assert(keys.to_set().contains(k));
        let x = choose|x: int| 0 <= x < keys.len() && keys[x] == k;
        let last = keys.len() - 1;
        if x < last {
            assert(keys[x].rank() < keys[last].rank());
        }
        assert(keys.to_set().contains(keys[last]));
        assert(self.slots.dom().contains(keys[last]));
    }

    pub proof fn lemma_activated_leaves(self, now: u64, j: u64, value: Seq<u8>, k: u64)
        requires
            self.wf(),
            self.m.n >= 2,
            self.rested(),
            j > self.gc_floor,
            j != k,
            self.slots.contains_key(k),
        ensures
            self.leaves(self.activated(now, j, value), k),
    {
        let s = self.observed(now, j);
        self.lemma_observed_wf(now, j);
        if s.slots[j].proposer is Idle && !s.slots[j].is_decided() {
            let t = s.started(now, j, value);
            s.lemma_started_wf(now, j, value);
            lemma_none_set(s.m.n as nat);
            assert(t.poised(j)) by {
                assert forall|x: u64| #[trigger] t.slots.contains_key(x) implies (x != j
                    ==> t.slots[x].rested(t.m.me_idx as int)) && t.slots[x].poised(
                    t.m.me_idx as int,
                ) by {
                    if x != j {
                        assert(self.slots.contains_key(x));
                    }
                }
            }
            let _ = t.lemma_drive_emits(now, j, k);
        }
    }

    /// Opening slots leaves the known ones alone.
    pub proof fn lemma_opened_leaves(self, now: u64, k: u64)
        requires
            self.wf(),
            self.m.n >= 2,
            self.rested(),
            self.slots.contains_key(k),
        ensures
            self.leaves(self.open_more(now), k),
            self.leaves(self.opened(now), k),
        decreases u64::MAX - self.max_open,
    {
        if self.can_open() {
            let j = (self.highest() + 1) as u64;
            let value = batch_bytes(self.next_batch());
            self.lemma_last_known(k);
            let s = self.opening();
            self.lemma_claimed_wf(j, self.next_batch());
            assert(s.wf());
            assert(s.rested());
            s.lemma_activated_leaves(now, j, value, k);
            let _ = s.lemma_activated_emits(now, j, value, k);
            s.lemma_activated_wf(now, j, value);
            s.activated(now, j, value).lemma_opened_leaves(now, k);
        }
    }

    /// Hedging leaves the slots that are not due alone.
    pub proof fn lemma_hedge_each_leaves(self, now: u64, due: Seq<u64>, k: u64)
        requires
            self.wf(),
            self.m.n >= 2,
            self.rested(),
            self.slots.contains_key(k),
            !due.contains(k),
        ensures
            self.leaves(self.hedge_each(now, due), k),
        decreases due.len(),
    {
        if due.len() > 0 {
            let init = due.drop_last();
            let j = due.last();
            assert(due[due.len() - 1] == j);
            assert(!init.contains(k)) by {
                if init.contains(k) {
                    let x = choose|x: int| 0 <= x < init.len() && init[x] == k;
                    assert(due[x] == k);
                }
            }
            self.lemma_hedge_each_leaves(now, init, k);
            let _ = self.lemma_hedge_each_emits(now, init, k);
            self.lemma_hedge_each_wf(now, init);
            let s = self.hedge_each(now, init);
            if j > s.decided {
                let t = s.claimed(j, s.next_batch());
                s.lemma_claimed_wf(j, s.next_batch());
                assert(t.rested());
                t.lemma_activated_leaves(now, j, batch_bytes(s.next_batch()), k);
            }
        }
    }

    /// Hedging starts a proposer for each slot that is due.
    pub proof fn lemma_hedge_each_starts(self, now: u64, due: Seq<u64>, k: u64)
        requires
            self.wf(),
            self.m.n >= 2,
            self.rested(),
            due.no_duplicates(),
            due.contains(k),
            k > self.decided,
            self.slots.contains_key(k),
            self.slots[k].proposer is Idle,
            !self.slots[k].is_decided(),
        ensures
            self.hedge_each(now, due).runs(k),
        decreases due.len(),
    {
        let init = due.drop_last();
        let j = due.last();
        assert(due[due.len() - 1] == j);
        let _ = self.lemma_hedge_each_emits(now, init, k);
        self.lemma_hedge_each_wf(now, init);
        let s = self.hedge_each(now, init);
        let value = batch_bytes(s.next_batch());
        let t = s.claimed(j, s.next_batch());
        s.lemma_claimed_wf(j, s.next_batch());
        assert(t.rested());
        if j == k {
            assert(!init.contains(k)) by {
                if init.contains(k) {
                    let x = choose|x: int| 0 <= x < init.len() && init[x] == k;
                    assert(due[x] == due[due.len() - 1]);
                }
            }
            self.lemma_hedge_each_leaves(now, init, k);
            let u = t.started(now, k, value);
            t.lemma_started_wf(now, k, value);
            lemma_none_set(t.m.n as nat);
            assert(u.poised(k));
            let _ = u.lemma_drive_emits(now, k, k);
            assert(t.observed(now, k) == t);
        } else {
            let x = choose|x: int| 0 <= x < due.len() && due[x] == k;
            assert(init[x] == k);
            assert(init.contains(k));
            assert(init.no_duplicates());
            self.lemma_hedge_each_starts(now, init, k);
            if j > s.decided {
                t.lemma_activated_leaves(now, j, value, k);
            }
        }
    }

    /// Transmitting again stops no proposer and starts none.
    pub proof fn lemma_resend_each_runs(self, now: u64, stale: Seq<u64>)
        requires
            self.wf(),
            self.m.n >= 2,
            self.rested(),
        ensures
            ({
                let t = self.resend_each(now, stale);
                &&& t == (State { slots: t.slots, rng: t.rng, actions: t.actions, ..self })
                &&& t.slots.dom() == self.slots.dom()
                &&& t.rested()
                &&& forall|x: u64| #[trigger] t.runs(x) == self.runs(x)
            }),
        decreases stale.len(),
    {
        if stale.len() > 0 {
            let init = stale.drop_last();
            let j = stale.last();
            self.lemma_resend_each_runs(now, init);
            self.lemma_resend_each_wf(now, init);
            let s = self.resend_each(now, init);
            let t = s.renewed(j);
            s.lemma_renewed_wf(j);
            assert(t.poised(j)) by {
                assert forall|x: u64| #[trigger] t.slots.contains_key(x) implies (x != j
                    ==> t.slots[x].rested(t.m.me_idx as int)) && t.slots[x].poised(
                    t.m.me_idx as int,
                ) by {
                    assert(s.slots.contains_key(x));
                }
            }
            let _ = t.lemma_drive_emits(now, j, j);
            t.lemma_drive_frame(now, j);
            let u = t.drive(now, j);
            assert(t.slots.dom() =~= s.slots.dom());
            assert forall|x: u64| #[trigger] u.runs(x) == self.runs(x) by {
                assert(u.runs(x) == t.runs(x));
                assert(s.runs(x) == self.runs(x));
            }
        }
    }

    /// Each replica waits for its turn. For a slot beyond the watermark that is
    /// undecided and that this replica does not propose for, first observed at
    /// one time and last seen to make progress at another, a tick starts the
    /// proposer exactly once the later of the two lies as many hedging delays
    /// back as there are replicas with smaller ids (or time has run out), and
    /// transmits its step to the others. Until then it leaves the slot alone.
    pub proof fn hedging_goes_by_position(self, now: u64, k: u64) -> (sent: Seq<ActionView>)
        requires
            self.wf(),
            self.m.n >= 2,
            self.rested(),
            k > self.decided,
            self.slots.contains_key(k),
            self.slots[k].proposer is Idle,
            !self.slots[k].is_decided(),
        ensures
            ({
                let t = self.ticked(now);
                let slot = self.slots[k];
                let wait = smaller_ids(self.config.replicas, self.config.me)
                    * self.config.hedge_delay as nat;
                let due = now == u64::MAX || (now >= slot.first_observed + wait && now
                    >= slot.last_progress + wait);
                &&& t.slots.contains_key(k)
                &&& due <==> t.slots[k].is_running()
                &&& !due <==> t.slots[k] == slot
                &&& self.transmitted(t, k) == sent
                &&& due ==> sent.len() >= self.m.n - 1 && exists|d: u64|
                    sent.skip(sent.len() - (self.m.n - 1)) == #[trigger] t.records(k, d)
                &&& !due ==> sent.len() == 0
            }),
    {
        let slot = self.slots[k];
        lemma_place(self.config.replicas, self.config.me, self.m.me_idx as int);
        let s1 = self.frontier_observed(now);
        self.lemma_frontier_follows(now);
        assert(self.settles_into(s1));
        assert(self.leaves(s1, k));
        assert(s1.rested()) by {
            assert forall|x: u64| #[trigger] s1.slots.contains_key(x) implies s1.slots[x].rested(
                s1.m.me_idx as int,
            ) by {
                if s1.runs(x) {
                    assert(self.runs(x));
                    assert(self.slots.contains_key(x));
                }
            }
        }
        let due = s1.hedge_due(now);
        let pred = |x: u64| s1.hedges(x) && now >= s1.hedge_deadline(s1.slots[x]);
        lemma_ascending(s1.slots.dom());
        let keys = ascending(s1.slots.dom());
        lemma_filter_ascends(keys, pred);
        assert(due == keys.filter(pred));
        lemma_ascends_distinct(due);
        assert(keys.to_set().contains(k));
        assert(due.contains(k) <==> pred(k));
        let _ = s1.lemma_hedge_each_emits(now, due, k);
        s1.lemma_hedge_each_wf(now, due);
        let h = s1.hedge_each(now, due);
        if due.contains(k) {
            s1.lemma_hedge_each_starts(now, due, k);
        } else {
            s1.lemma_hedge_each_leaves(now, due, k);
        }
        let s2 = s1.hedged(now);
        let _ = s1.lemma_hedged_follows(now);
        assert(s2.slots == h.slots);
        assert(s2.rested());
        let _ = s2.lemma_opened_emits(now, k);
        s2.lemma_opened_leaves(now, k);
        s2.lemma_opened_wf(now);
        let s3 = s2.opened(now);
        let stale = s3.stale(now);
        s3.lemma_resend_each_runs(now, stale);
        let s4 = s3.retransmitted(now);
        s3.lemma_resend_each_wf(now, stale);
        assert(s4.runs(k) == s3.runs(k));
        let t = self.ticked(now);
        self.lemma_tick_parts(now);
        let more = self.lemma_ticked_emits(now, k);
        self.lemma_transmitted(t, k, more);
        if due.contains(k) {
            assert(t.runs(k));
            assert(more.len() > 0);
            let d = choose|d: u64| #[trigger] t.stands_for(k, d, now, more);
            assert(t.stands_for(k, d, now, more));
        } else {
            assert(t.slots[k] == slot);
        }
        more
    }

    /// Of two replicas that see a slot alike, the one with the larger id waits
    /// at least one hedging delay longer: when it starts to propose, the other
    /// would have done so one delay before. (Time does not run out.)
    pub proof fn larger_ids_wait_longer(a: State, b: State, now: u64, k: u64)
        requires
            a.wf(),
            b.wf(),
            a.m.n >= 2,
            a.rested(),
            b.rested(),
            a.config.replicas == b.config.replicas,
            a.config.hedge_delay == b.config.hedge_delay,
            a.config.me.0 < b.config.me.0,
            k > a.decided,
            k > b.decided,
            a.slots.contains_key(k),
            b.slots.contains_key(k),
            a.slots[k].proposer is Idle,
            b.slots[k].proposer is Idle,
            !a.slots[k].is_decided(),
            !b.slots[k].is_decided(),
            a.slots[k].first_observed == b.slots[k].first_observed,
            a.slots[k].last_progress == b.slots[k].last_progress,
            a.config.hedge_delay <= now < u64::MAX,
            b.ticked(now).slots[k].is_running(),
        ensures
            a.ticked((now - a.config.hedge_delay) as u64).slots[k].is_running(),
    {
        let q = a.config.replicas;
        let i = a.m.me_idx as int;
        let j = b.m.me_idx as int;
        let h = a.config.hedge_delay as int;
        let _ = b.hedging_goes_by_position(now, k);
        let _ = a.hedging_goes_by_position((now - h) as u64, k);
        lemma_place(q, a.config.me, i);
        lemma_place(q, b.config.me, j);
        if i > j {
            assert(q[j].rank() < q[i].rank());
        }
        assert(i < j);
        assert(j * h >= i * h + h) by (nonlinear_arith)
            requires
                i + 1 <= j,
                h >= 0,
        ;
    }
}

} // verus!
