//! When slots are observed: what a replica remembers of when it first heard of
//! a slot and when the slot last made progress.

use vstd::prelude::*;

use crate::config::ConfigView;
use crate::invariants::lemma_least;
use crate::lifetime::{belongs, Input, Lifetime};
use crate::proposer::{lemma_none_set, Member};
use crate::rng::Rng;
use crate::slot::ProgressView;
use crate::state::{batch_of, least, State};
use crate::types::{batch_bytes, CommandId, Slot};
use crate::wire::{MessageView, PayloadView};

verus! {

impl State {
    /// Whether `t` follows from this replica at `now` as to when slots were
    /// observed: a slot that is new was first observed and made progress at
    /// `now`; one that was known was first observed when it was, and made no
    /// progress since or made it at `now`. Slots are forgotten when freed only.
    pub open spec fn dates(self, t: State, now: u64) -> bool {
        &&& t.gc_floor >= self.gc_floor
        &&& forall|k: u64| #[trigger]
            self.slots.contains_key(k) ==> t.slots.contains_key(k) || k <= t.gc_floor
        &&& forall|k: u64| #[trigger]
            t.slots.contains_key(k) ==> k > t.gc_floor && self.dates_slot(t, k, now)
    }

    pub open spec fn dates_slot(self, t: State, k: u64, now: u64) -> bool {
        if self.slots.contains_key(k) {
            &&& t.slots[k].first_observed == self.slots[k].first_observed
            &&& t.slots[k].last_progress == self.slots[k].last_progress
                || t.slots[k].last_progress == now
        } else {
            t.slots[k].first_observed == now && t.slots[k].last_progress == now
        }
    }

    proof fn lemma_dates_trans(self, t: State, u: State, now: u64)
        requires
            self.dates(t, now),
            t.dates(u, now),
        ensures
            self.dates(u, now),
    {
        assert forall|k: u64| #[trigger] self.slots.contains_key(k) implies
            u.slots.contains_key(k) || k <= u.gc_floor by {
            if t.slots.contains_key(k) {}
        }
        assert forall|k: u64| #[trigger] u.slots.contains_key(k) implies k > u.gc_floor
            && self.dates_slot(u, k, now) by {
            assert(t.dates_slot(u, k, now));
            if t.slots.contains_key(k) {
                assert(self.dates_slot(t, k, now));
            } else if self.slots.contains_key(k) {
                assert(k <= t.gc_floor);
            }
        }
    }

    proof fn lemma_same_dates(self, t: State, now: u64)
        requires
            self.wf(),
            t.slots == self.slots,
            t.gc_floor == self.gc_floor,
        ensures
            self.dates(t, now),
    {
    }

    proof fn lemma_observed_dates(self, now: u64, j: u64)
        requires
            self.wf(),
            j > self.gc_floor,
        ensures
            self.dates(self.observed(now, j), now),
    {
    }

    proof fn lemma_drive_dates(self, now: u64, j: u64)
        requires
            self.wf(),
            self.m.n >= 2,
            self.poised(j),
        ensures
            self.dates(self.drive(now, j), now),
    {
        let t = self.drive(now, j);
        self.lemma_drive_frame(now, j);
        if self.slots.contains_key(j) {
            let before = self.slots[j];
            if before.proposer is Running {
                before.lemma_driven_poised(self.m, now, self.rng);
            }
            before.lemma_driven_wf(self.m, now, self.rng);
            let s = self.drive_local(now, j);
            if before.driven(self.m, now, self.rng).next is Send {
                let run = s.slots[j].proposer->Running_0;
                let f = |idx: int|
                    PayloadView::Record {
                        slot: Slot(j),
                        step: run.step,
                        proposal: run.proposal_for(idx),
                    };
                s.lemma_send_upto_frame(s.m.n as nat, f);
            }
            assert(t.slots == s.slots);
        }
    }

    proof fn lemma_activated_dates(self, now: u64, j: u64, value: Seq<u8>)
        requires
            self.wf(),
            self.m.n >= 2,
            self.rested(),
            j > self.gc_floor,
        ensures
            self.dates(self.activated(now, j, value), now),
    {
        let s = self.observed(now, j);
        self.lemma_observed_wf(now, j);
        self.lemma_observed_dates(now, j);
        if s.slots[j].proposer is Idle && !s.slots[j].is_decided() {
            let t = s.started(now, j, value);
            s.lemma_started_wf(now, j, value);
            lemma_none_set(s.m.n as nat);
            assert(t.poised(j)) by {
                assert forall|x: u64| #[trigger] t.slots.contains_key(x) implies (x != j
                    ==> t.slots[x].rested(t.m.me_idx as int)) && t.slots[x].poised(
                    t.m.me_idx as int,
                ) by {
                    if x != j {
                        assert(self.slots.contains_key(x));
                    }
                }
            }
            assert(s.dates(t, now));
            t.lemma_drive_dates(now, j);
            self.lemma_dates_trans(s, t, now);
            self.lemma_dates_trans(t, t.drive(now, j), now);
        }
    }

    proof fn lemma_opened_dates(self, now: u64)
        requires
            self.wf(),
            self.m.n >= 2,
            self.rested(),
        ensures
            self.dates(self.open_more(now), now),
            self.dates(self.opened(now), now),
        decreases u64::MAX - self.max_open,
    {
        self.lemma_same_dates(self, now);
        if self.can_open() {
            let j = (self.highest() + 1) as u64;
            let value = batch_bytes(self.next_batch());
            let s = self.opening();
            self.lemma_claimed_wf(j, self.next_batch());
            assert(s.wf());
            assert(s.rested());
            self.lemma_same_dates(s, now);
            s.lemma_activated_dates(now, j, value);
            let _ = s.lemma_activated_emits(now, j, value, 0);
            s.lemma_activated_wf(now, j, value);
            let t = s.activated(now, j, value);
            t.lemma_opened_dates(now);
            self.lemma_dates_trans(s, t, now);
            self.lemma_dates_trans(t, t.open_more(now), now);
        }
    }

    proof fn lemma_hedge_each_dates(self, now: u64, due: Seq<u64>)
        requires
            self.wf(),
            self.m.n >= 2,
            self.rested(),
        ensures
            self.dates(self.hedge_each(now, due), now),
        decreases due.len(),
    {
        self.lemma_same_dates(self, now);
        if due.len() > 0 {
            let init = due.drop_last();
            let j = due.last();
            self.lemma_hedge_each_dates(now, init);
            let _ = self.lemma_hedge_each_emits(now, init, 0);
            self.lemma_hedge_each_wf(now, init);
            let s = self.hedge_each(now, init);
            if j > s.decided {
                let t = s.claimed(j, s.next_batch());
                s.lemma_claimed_wf(j, s.next_batch());
                assert(t.rested());
                s.lemma_same_dates(t, now);
                t.lemma_activated_dates(now, j, batch_bytes(s.next_batch()));
                self.lemma_dates_trans(s, t, now);
                self.lemma_dates_trans(t, self.hedge_each(now, due), now);
            }
        }
    }

    proof fn lemma_resend_each_dates(self, now: u64, stale: Seq<u64>)
        requires
            self.wf(),
            self.m.n >= 2,
            self.rested(),
        ensures
            self.dates(self.resend_each(now, stale), now),
        decreases stale.len(),
    {
        self.lemma_same_dates(self, now);
        if stale.len() > 0 {
            let init = stale.drop_last();
            let j = stale.last();
            self.lemma_resend_each_dates(now, init);
            self.lemma_resend_each_runs(now, init);
            self.lemma_resend_each_wf(now, init);
            let s = self.resend_each(now, init);
            let t = s.renewed(j);
            s.lemma_renewed_wf(j);
            assert(t.poised(j)) by {
                assert forall|x: u64| #[trigger] t.slots.contains_key(x) implies (x != j
                    ==> t.slots[x].rested(t.m.me_idx as int)) && t.slots[x].poised(
                    t.m.me_idx as int,
                ) by {
                    assert(s.slots.contains_key(x));
                }
            }
            assert(s.dates(t, now));
            t.lemma_drive_dates(now, j);
            self.lemma_dates_trans(s, t, now);
            self.lemma_dates_trans(t, t.drive(now, j), now);
        }
    }

    proof fn lemma_gced_dates(self, now: u64)
        requires
            self.wf(),
        ensures
            self.dates(self.gced(), now),
    {
        let s = self.acknowledged();
        assert(s.wf());
        lemma_least(s.peer_acked);
        assert(s.peer_acked[s.m.me_idx as int] == s.decided);
        let l = least(s.peer_acked);
        s.lemma_freed_wf(l);
        s.freed(l).lemma_evicted_dates(now);
        assert(s.dates(s.freed(l), now));
        self.lemma_same_dates(s, now);
        self.lemma_dates_trans(s, s.freed(l), now);
        self.lemma_dates_trans(s.freed(l), self.gced(), now);
    }

    proof fn lemma_evicted_dates(self, now: u64)
        requires
            self.wf(),
        ensures
            self.dates(self.evicted(), now),
        decreases self.decided - self.gc_floor,
    {
        self.lemma_same_dates(self, now);
        if self.kept() > self.config.max_retained_bytes && self.gc_floor < self.decided {
            let next = (self.gc_floor + 1) as u64;
            self.lemma_freed_wf(next);
            let t = self.freed(next);
            t.lemma_evicted_dates(now);
            assert(self.dates(t, now));
            self.lemma_dates_trans(t, t.evicted(), now);
        }
    }

    proof fn lemma_decide_dates(self, now: u64, slot: u64, value: Seq<u8>, is_decider: bool)
        requires
            self.wf(),
            self.m.n >= 2,
            self.rested(),
        ensures
            self.dates(self.decide(now, slot, value, is_decider), now),
    {
        let t = self.settled(now, slot, value, is_decider);
        self.lemma_same_dates(self, now);
        if !self.drops(slot, value, is_decider) {
            let s = self.observed(now, slot);
            self.lemma_observed_wf(now, slot);
            self.lemma_observed_dates(now, slot);
            if s.slots[slot].is_decided() {
                assert(s.dates(t, now));
                self.lemma_dates_trans(s, t, now);
            } else {
                let s1 = s.installed(slot, value);
                s.lemma_installed_wf(slot, value);
                let f = |idx: int| PayloadView::Decide { slot: Slot(slot), value };
                s1.lemma_send_all_wf(f);
                s1.lemma_send_upto_frame(s1.m.n as nat, f);
                let s2 = if is_decider {
                    s1.send_all(f)
                } else {
                    s1
                };
                s2.lemma_released_wf(slot, batch_of(value));
                let s3 = s2.released(slot, batch_of(value)).refreshed(now);
                s3.lemma_delivered_wf();
                s3.lemma_delivered_frame();
                let s5 = s3.delivered().acknowledged().refreshed(now);
                assert(s5.wf());
                assert(s.dates(s5, now));
                s5.lemma_gced_dates(now);
                assert(t == s5.gced());
                self.lemma_dates_trans(s, s5, now);
                self.lemma_dates_trans(s5, t, now);
                self.lemma_settled_wf(now, slot, value, is_decider);
                self.lemma_settled_emits(now, slot, value, is_decider, 0);
                t.lemma_opened_dates(now);
                self.lemma_dates_trans(t, t.opened(now), now);
            }
        }
    }

    proof fn lemma_learned_dates(self, now: u64, first: u64, values: Seq<Seq<u8>>)
        requires
            self.wf(),
            self.m.n >= 2,
            self.rested(),
        ensures
            self.dates(self.learned(now, first, values), now),
        decreases values.len(),
    {
        self.lemma_same_dates(self, now);
        if values.len() > 0 {
            let init = values.drop_last();
            self.lemma_learned_dates(now, first, init);
            self.lemma_learned_wf(now, first, init);
            let _ = self.lemma_learned_emits(now, first, init, 0);
            let slot = first + values.len() - 1;
            let s = self.learned(now, first, init);
            if slot <= u64::MAX {
                s.lemma_decide_dates(now, slot as u64, values.last(), false);
                self.lemma_dates_trans(s, self.learned(now, first, values), now);
            }
        }
    }

    proof fn lemma_handled_dates(self, now: u64, idx: int, payload: PayloadView)
        requires
            self.wf(),
            self.m.n >= 2,
            self.rested(),
            0 <= idx < self.m.n,
        ensures
            self.dates(self.handled(now, idx, payload), now),
    {
        self.lemma_same_dates(self, now);
        match payload {
            PayloadView::RecordReply { slot, req_step, step, first, prior_agg } => {
                let k = slot.0;
                if self.slots.contains_key(k) {
                    let s = self.answered(now, idx, k, req_step, step, first, prior_agg);
                    self.lemma_answered_state_wf(now, idx, k, req_step, step, first, prior_agg);
                    self.lemma_answered_poised(now, idx, k, req_step, step, first, prior_agg);
                    self.slots[k].lemma_answered_wf(
                        self.m,
                        now,
                        self.rng,
                        idx,
                        req_step,
                        step,
                        first,
                        prior_agg,
                    );
                    assert(self.dates(s, now));
                    match self.slots[k].answer_progress(
                        self.m,
                        idx,
                        req_step,
                        step,
                        first,
                        prior_agg,
                    ) {
                        ProgressView::Wait => {},
                        ProgressView::Send => {
                            s.lemma_drive_dates(now, k);
                            self.lemma_dates_trans(s, s.drive(now, k), now);
                        },
                        ProgressView::Decided(value) => {
                            s.lemma_decide_dates(now, k, value, true);
                            self.lemma_dates_trans(s, s.decide(now, k, value, true), now);
                        },
                    }
                }
            },
            PayloadView::Decide { slot, value } => {
                self.lemma_decide_dates(now, slot.0, value, false);
            },
            PayloadView::Forward { commands } => {
                let s = self.pooled(now, commands).refreshed(now);
                self.lemma_pooled_wf(now, commands);
                self.lemma_same_dates(s, now);
                s.lemma_opened_dates(now);
                self.lemma_dates_trans(s, s.opened(now), now);
            },
            PayloadView::LearnReply { first_slot, values } => {
                let s = State { learn_in_flight: None, ..self };
                assert(s.wf());
                assert(s.rested());
                self.lemma_same_dates(s, now);
                s.lemma_learned_dates(now, first_slot.0, values);
                self.lemma_dates_trans(s, s.learned(now, first_slot.0, values), now);
            },
            _ => {},
        }
    }

    proof fn lemma_received_dates(self, now: u64, message: MessageView)
        requires
            self.wf(),
            self.m.n >= 2,
            self.rested(),
        ensures
            self.dates(self.received(now, message), now),
    {
        self.lemma_same_dates(self, now);
        if self.heeds(message.from) {
            self.lemma_index(message.from);
            let idx = self.index(message.from);
            let s = self.noted(idx, message.decided.0);
            assert(s.wf());
            assert(s.rested());
            self.lemma_same_dates(s, now);
            s.lemma_handled_dates(now, idx, message.payload);
            s.lemma_handled_wf(now, idx, message.payload);
            let h = s.handled(now, idx, message.payload);
            h.lemma_request_learn_wf(now, idx, message.decided.0);
            let r = h.request_learn(now, idx, message.decided.0);
            h.lemma_same_dates(r, now);
            r.lemma_gced_dates(now);
            self.lemma_dates_trans(s, h, now);
            self.lemma_dates_trans(h, r, now);
            self.lemma_dates_trans(r, r.gced(), now);
        }
    }

    proof fn lemma_ticked_dates(self, now: u64)
        requires
            self.wf(),
            self.m.n >= 2,
            self.rested(),
        ensures
            self.dates(self.ticked(now), now),
    {
        let s1 = self.frontier_observed(now);
        self.lemma_frontier_follows(now);
        self.lemma_same_dates(self, now);
        assert(self.dates(s1, now));
        assert(self.settles_into(s1));
        assert(s1.rested()) by {
            assert forall|x: u64| #[trigger] s1.slots.contains_key(x) implies s1.slots[x].rested(
                s1.m.me_idx as int,
            ) by {
                if s1.runs(x) {
                    assert(self.runs(x));
                    assert(self.slots.contains_key(x));
                }
            }
        }
        let due = s1.hedge_due(now);
        let h = s1.hedge_each(now, due);
        s1.lemma_hedge_each_dates(now, due);
        let _ = s1.lemma_hedge_each_emits(now, due, 0);
        s1.lemma_hedge_each_wf(now, due);
        let _ = s1.lemma_hedged_follows(now);
        let s2 = s1.hedged(now);
        h.lemma_same_dates(s2, now);
        assert(s2.rested());
        s2.lemma_opened_dates(now);
        let _ = s2.lemma_opened_emits(now, 0);
        s2.lemma_opened_wf(now);
        let s3 = s2.opened(now);
        let stale = s3.stale(now);
        s3.lemma_resend_each_dates(now, stale);
        let s4 = s3.retransmitted(now);
        self.lemma_dates_trans(s1, h, now);
        self.lemma_dates_trans(h, s2, now);
        self.lemma_dates_trans(s2, s3, now);
        self.lemma_dates_trans(s3, s4, now);
        assert(s4 == self.tick_middle(now));
        self.lemma_tick_parts(now);
        let s5 = s4.reforwarded(now);
        s4.lemma_reforwarded_follows(now);
        s5.lemma_learn_ticked_follows(now);
        let s6 = s5.learn_ticked(now);
        s6.lemma_pinged_follows(now);
        let t = self.ticked(now);
        assert(t.gc_floor == s4.gc_floor);
        s4.lemma_same_dates(t, now);
        self.lemma_dates_trans(s4, t, now);
    }
}

impl Lifetime {
    /// A replica of a group of two or more remembers when it heard of a slot.
    /// Whatever it was given, after one more input at `now` a slot that is new
    /// to it was first observed and made progress at `now`, and one that it
    /// knew was first observed when it was before; that one made progress at
    /// `now` or has not since.
    pub proof fn slots_are_dated(config: ConfigView, m: Member, inputs: Seq<Input>)
        requires
            belongs(config, m),
            m.n >= 2,
            inputs.len() > 0,
            inputs.last().time() is Some,
        ensures
            Lifetime::begun(config, m).run(inputs.drop_last()).state.dates(
                Lifetime::begun(config, m).run(inputs).state,
                inputs.last().time()->0,
            ),
    {
        let init = inputs.drop_last();
        let s = Lifetime::begun(config, m).run(init).state;
        Lifetime::replicas_stay_sound(config, m, init);
        Lifetime::lemma_rested(config, m, init);
        Lifetime::lemma_same_place(config, m, init);
        match inputs.last() {
            Input::Submit { now, data } => {
                s.lemma_same_dates(s, now);
                if s.submit_error(data.len()) is None && s.next_seq < u64::MAX {
                    let e = s.enqueued(now, data);
                    s.lemma_enqueued_wf(now, data);
                    assert(e.rested());
                    s.lemma_same_dates(e, now);
                    e.lemma_opened_dates(now);
                    s.lemma_dates_trans(e, e.opened(now), now);
                }
            },
            Input::Receive { now, message } => {
                s.lemma_received_dates(now, message);
            },
            Input::Tick { now } => {
                s.lemma_ticked_dates(now);
            },
            Input::Poll => {},
        }
    }

    /// A replica begins with nothing: no slot known or decided, no command held
    /// or delivered, nothing asked or sent, and nobody ahead of it. Its clock
    /// for heartbeats starts at zero.
    pub proof fn replicas_begin_with_nothing(config: ConfigView, m: Member)
        requires
            belongs(config, m),
        ensures
            ({
                let s = Lifetime::begun(config, m).state;
                &&& s.slots.dom() == Set::<u64>::empty()
                &&& s.retained.dom() == Set::<u64>::empty()
                &&& s.pool.entries.dom() == Set::<CommandId>::empty()
                &&& s.pool.bytes == 0
                &&& s.decided == 0 && s.gc_floor == 0 && s.max_open == 0
                &&& s.next_seq == 0 && s.learn_attempts == 0 && s.last_ping == 0
                &&& s.pending_since is None && s.learn_in_flight is None
                &&& s.actions.len() == 0
                &&& s.rng == Rng::seeded(config.rng_seed)
                &&& forall|id: CommandId| !#[trigger] s.dedup.is_delivered(id)
                &&& forall|j: int| 0 <= j < m.n ==> #[trigger] s.peer_acked[j] == 0
            }),
    {
        let s = Lifetime::begun(config, m).state;
        assert(s.slots.dom() =~= Set::<u64>::empty());
        assert(s.retained.dom() =~= Set::<u64>::empty());
        assert(s.pool.entries.dom() =~= Set::<CommandId>::empty());
    }

    /// The ids that a replica gives out name the boot that its seed stands for.
    pub proof fn boots_are_told_apart_by_the_seed(
        config: ConfigView,
        m: Member,
        inputs: Seq<Input>,
    )
        requires
            belongs(config, m),
        ensures
            Lifetime::begun(config, m).run(inputs).state.boot == config.rng_seed,
            Lifetime::begun(config, m).run(inputs).state.config == config,
        decreases inputs.len(),
    {
        if inputs.len() > 0 {
            Lifetime::boots_are_told_apart_by_the_seed(config, m, inputs.drop_last());
            Lifetime::lemma_last(config, m, inputs);
        }
    }
}

} // verus!
