//! Commands that wait: a replica that holds commands which ride in no slot
//! knows since when, and watches the next slot.

use vstd::prelude::*;

use crate::config::ConfigView;
use crate::lifetime::{belongs, Input, Lifetime};
use crate::proposer::Member;
use crate::slot::ProgressView;
use crate::state::{batch_of, State};
use crate::types::{batch_bytes, CommandId, Slot};
use crate::wire::PayloadView;

verus! {

impl State {
    /// Whether the replica knows since when commands wait, exactly if some do.
    pub open spec fn timed(self) -> bool {
        self.pending_since is Some <==> exists|id: CommandId| #[trigger]
            self.pool.entries.contains_key(id) && self.pool.entries[id].proposed_in is None
    }

    /// Whether, at `now`, commands wait since that time or since the time that
    /// was known before, if any do.
    pub open spec fn timed_since(self, before: Option<u64>, now: u64) -> bool {
        &&& self.timed()
        &&& self.pending_since is None || self.pending_since == before || self.pending_since
            == Some(now)
    }

    proof fn lemma_opened_timed(self, before: Option<u64>, now: u64)
        requires
            self.wf(),
            self.m.n >= 2,
            self.rested(),
            self.timed_since(before, now),
        ensures
            self.opened(now).timed_since(before, now),
    {
        self.lemma_open_more_waits(now);
    }

    proof fn lemma_open_more_waits(self, now: u64)
        requires
            self.wf(),
            self.m.n >= 2,
            self.rested(),
        ensures
            self.open_more(now).pending_since == self.pending_since,
        decreases u64::MAX - self.max_open,
    {
        if self.can_open() {
            let j = (self.highest() + 1) as u64;
            let value = batch_bytes(self.next_batch());
            let s = self.opening();
            self.lemma_claimed_wf(j, self.next_batch());
            assert(s.wf());
            assert(s.rested());
            let _ = s.lemma_activated_emits(now, j, value, 0);
            s.lemma_activated_wf(now, j, value);
            s.lemma_activated_pool(now, j, value);
            s.activated(now, j, value).lemma_open_more_waits(now);
        }
    }

    proof fn lemma_decide_timed(
        self,
        before: Option<u64>,
        now: u64,
        slot: u64,
        value: Seq<u8>,
        is_decider: bool,
    )
        requires
            self.wf(),
            self.m.n >= 2,
            self.rested(),
            self.timed_since(before, now),
        ensures
            self.decide(now, slot, value, is_decider).timed_since(before, now),
    {
        let t = self.settled(now, slot, value, is_decider);
        if self.settles(slot, value, is_decider) {
            let s = self.observed(now, slot);
            self.lemma_observed_wf(now, slot);
            let s1 = s.installed(slot, value);
            s.lemma_installed_wf(slot, value);
            let f = |idx: int| PayloadView::Decide { slot: Slot(slot), value };
            s1.lemma_send_all_wf(f);
            let s2 = if is_decider {
                s1.send_all(f)
            } else {
                s1
            };
            s2.lemma_released_wf(slot, batch_of(value));
            let s3 = s2.released(slot, batch_of(value)).refreshed(now);
            s1.lemma_send_upto_frame(s1.m.n as nat, f);
            s3.lemma_delivered_wf();
            s3.lemma_delivered_frame();
            let s5 = s3.delivered().acknowledged().refreshed(now);
            assert(s5.wf());
            assert(s5.timed_since(before, now));
            s5.lemma_gced_wf();
            assert(t == s5.gced());
            self.lemma_settled_emits(now, slot, value, is_decider, 0);
            t.lemma_opened_timed(before, now);
        }
    }

    proof fn lemma_learned_timed(
        self,
        before: Option<u64>,
        now: u64,
        first: u64,
        values: Seq<Seq<u8>>,
    )
        requires
            self.wf(),
            self.m.n >= 2,
            self.rested(),
            self.timed_since(before, now),
        ensures
            self.learned(now, first, values).timed_since(before, now),
        decreases values.len(),
    {
        if values.len() > 0 {
            let init = values.drop_last();
            self.lemma_learned_timed(before, now, first, init);
            self.lemma_learned_wf(now, first, init);
            let _ = self.lemma_learned_emits(now, first, init, 0);
            let slot = first + values.len() - 1;
            if slot <= u64::MAX {
                self.learned(now, first, init).lemma_decide_timed(
                    before,
                    now,
                    slot as u64,
                    values.last(),
                    false,
                );
            }
        }
    }

    proof fn lemma_handled_timed(self, now: u64, idx: int, payload: PayloadView)
        requires
            self.wf(),
            self.m.n >= 2,
            self.rested(),
            0 <= idx < self.m.n,
            self.timed(),
        ensures
            self.handled(now, idx, payload).timed_since(self.pending_since, now),
    {
        match payload {
            PayloadView::RecordReply { slot, req_step, step, first, prior_agg } => {
                let k = slot.0;
                if self.slots.contains_key(k) {
                    let s = self.answered(now, idx, k, req_step, step, first, prior_agg);
                    self.lemma_answered_state_wf(now, idx, k, req_step, step, first, prior_agg);
                    self.lemma_answered_poised(now, idx, k, req_step, step, first, prior_agg);
                    match self.slots[k].answer_progress(
                        self.m,
                        idx,
                        req_step,
                        step,
                        first,
                        prior_agg,
                    ) {
                        ProgressView::Wait => {},
                        ProgressView::Send => {
                            s.lemma_drive_frame(now, k);
                        },
                        ProgressView::Decided(value) => {
                            s.lemma_decide_timed(self.pending_since, now, k, value, true);
                        },
                    }
                }
            },
            PayloadView::Decide { slot, value } => {
                self.lemma_decide_timed(self.pending_since, now, slot.0, value, false);
            },
            PayloadView::Forward { commands } => {
                let s = self.pooled(now, commands).refreshed(now);
                self.lemma_pooled_wf(now, commands);
                assert(s.rested());
                s.lemma_opened_timed(self.pending_since, now);
            },
            PayloadView::LearnReply { first_slot, values } => {
                let s = State { learn_in_flight: None, ..self };
                assert(s.wf());
                assert(s.rested());
                s.lemma_learned_timed(self.pending_since, now, first_slot.0, values);
            },
            _ => {},
        }
    }

    proof fn lemma_hedge_each_frontier(self, now: u64, due: Seq<u64>)
        requires
            self.wf(),
            self.m.n >= 2,
            self.rested(),
        ensures
            self.hedge_each(now, due).pending_since == self.pending_since,
            self.slots.dom().subset_of(self.hedge_each(now, due).slots.dom()),
        decreases due.len(),
    {
        if due.len() > 0 {
            let init = due.drop_last();
            let j = due.last();
            self.lemma_hedge_each_frontier(now, init);
            let _ = self.lemma_hedge_each_emits(now, init, 0);
            self.lemma_hedge_each_wf(now, init);
            let s = self.hedge_each(now, init);
            if j > s.decided {
                let t = s.claimed(j, s.next_batch());
                s.lemma_claimed_wf(j, s.next_batch());
                assert(t.rested());
                t.lemma_activated_pool(now, j, batch_bytes(s.next_batch()));
            }
        }
    }

    proof fn lemma_open_more_slots(self, now: u64)
        requires
            self.wf(),
            self.m.n >= 2,
            self.rested(),
        ensures
            self.slots.dom().subset_of(self.open_more(now).slots.dom()),
        decreases u64::MAX - self.max_open,
    {
        if self.can_open() {
            let j = (self.highest() + 1) as u64;
            let value = batch_bytes(self.next_batch());
            let s = self.opening();
            self.lemma_claimed_wf(j, self.next_batch());
            assert(s.wf());
            assert(s.rested());
            let _ = s.lemma_activated_emits(now, j, value, 0);
            s.lemma_activated_wf(now, j, value);
            s.lemma_activated_pool(now, j, value);
            s.activated(now, j, value).lemma_open_more_slots(now);
        }
    }

    proof fn lemma_resend_each_slots(self, now: u64, stale: Seq<u64>)
        requires
            self.wf(),
            self.m.n >= 2,
            self.rested(),
        ensures
            self.slots.dom().subset_of(self.resend_each(now, stale).slots.dom()),
        decreases stale.len(),
    {
        if stale.len() > 0 {
            let init = stale.drop_last();
            let j = stale.last();
            self.lemma_resend_each_slots(now, init);
            self.lemma_resend_each_runs(now, init);
            self.lemma_resend_each_wf(now, init);
            let s = self.resend_each(now, init);
            let t = s.renewed(j);
            s.lemma_renewed_wf(j);
            assert(t.poised(j)) by {
                assert forall|x: u64| #[trigger] t.slots.contains_key(x) implies (x != j
                    ==> t.slots[x].rested(t.m.me_idx as int)) && t.slots[x].poised(
                    t.m.me_idx as int,
                ) by {
                    assert(s.slots.contains_key(x));
                }
            }
            t.lemma_drive_frame(now, j);
        }
    }

    proof fn lemma_tick_timed(self, now: u64)
        requires
            self.wf(),
            self.m.n >= 2,
            self.rested(),
            self.timed(),
        ensures
            self.ticked(now).timed_since(self.pending_since, now),
            self.ticked(now).decided == self.decided,
            self.decided < u64::MAX && (self.known_from((self.decided + 1) as u64)
                || self.pending_since is Some) ==> self.ticked(now).slots.contains_key(
                (self.decided + 1) as u64,
            ),
    {
        let s1 = self.frontier_observed(now);
        self.lemma_frontier_follows(now);
        assert(self.settles_into(s1));
        assert(s1.rested()) by {
            assert forall|x: u64| #[trigger] s1.slots.contains_key(x) implies s1.slots[x].rested(
                s1.m.me_idx as int,
            ) by {
                if s1.runs(x) {
                    assert(self.runs(x));
                    assert(self.slots.contains_key(x));
                }
            }
        }
        let due = s1.hedge_due(now);
        let h = s1.hedge_each(now, due);
        s1.lemma_hedge_each_pools(now, due);
        s1.lemma_hedge_each_frontier(now, due);
        let _ = s1.lemma_hedge_each_emits(now, due, 0);
        let _ = s1.lemma_hedged_follows(now);
        let s2 = s1.hedged(now);
        assert(s2.rested());
        assert(s2.timed_since(self.pending_since, now)) by {
            if h.pool.has_unassigned() {
                let id = choose|id: CommandId| #[trigger]
                    h.pool.entries.contains_key(id) && h.pool.entries[id].proposed_in is None;
                assert(self.pool.entries.contains_key(id));
            }
        }
        s2.lemma_opened_timed(self.pending_since, now);
        s2.lemma_open_more_slots(now);
        let _ = s2.lemma_opened_emits(now, 0);
        s2.lemma_opened_wf(now);
        let s3 = s2.opened(now);
        s3.lemma_resend_each_pool(now, s3.stale(now));
        s3.lemma_resend_each_slots(now, s3.stale(now));
        let s4 = s3.retransmitted(now);
        assert(s4 == self.tick_middle(now));
        self.lemma_tick_middle_proposes(now);
        let s5 = s4.reforwarded(now);
        s4.lemma_reforwarded_follows(now);
        assert(s5.timed()) by {
            if !s4.m.leads() {
                assert forall|id: CommandId| #[trigger]
                    s5.pool.entries.contains_key(id) == s4.pool.entries.contains_key(id) && (
                    s4.pool.entries.contains_key(id) ==> s5.pool.entries[id].proposed_in
                        == s4.pool.entries[id].proposed_in) by {
                    s4.lemma_reforwards(now, id);
                }
                if s4.pool.has_unassigned() {
                    let id = choose|id: CommandId| #[trigger]
                        s4.pool.entries.contains_key(id) && s4.pool.entries[id].proposed_in is None;
                    assert(s5.pool.entries.contains_key(id));
                }
                if s5.pool.has_unassigned() {
                    let id = choose|id: CommandId| #[trigger]
                        s5.pool.entries.contains_key(id) && s5.pool.entries[id].proposed_in is None;
                    assert(s4.pool.entries.contains_key(id));
                }
            }
        }
        let s6 = s5.learn_ticked(now);
        s5.lemma_learn_ticked_follows(now);
        s6.lemma_pinged_follows(now);
        let s7 = State { last_ping: now, ..s6 };
        s7.lemma_send_upto_frame(s7.m.n as nat, |idx: int| PayloadView::Ping);
        assert(self.ticked(now) == s6.pinged(now));
    }
}

impl Lifetime {
    /// A replica of a group of two or more knows since when commands wait,
    /// whatever it is given, exactly if its pool holds a command that rides in
    /// no slot: since it was given the last input, or since it knew before.
    pub proof fn waiting_commands_are_noticed(config: ConfigView, m: Member, inputs: Seq<Input>)
        requires
            belongs(config, m),
            m.n >= 2,
        ensures
            Lifetime::begun(config, m).run(inputs).state.timed(),
            inputs.len() > 0 && inputs.last().time() is Some ==> Lifetime::begun(config, m).run(
                inputs,
            ).state.timed_since(
                Lifetime::begun(config, m).run(inputs.drop_last()).state.pending_since,
                inputs.last().time()->0,
            ),
        decreases inputs.len(),
    {
        if inputs.len() > 0 {
            let init = inputs.drop_last();
            let s = Lifetime::begun(config, m).run(init).state;
            Lifetime::waiting_commands_are_noticed(config, m, init);
            Lifetime::replicas_stay_sound(config, m, init);
            Lifetime::lemma_rested(config, m, init);
            Lifetime::lemma_same_place(config, m, init);
            match inputs.last() {
                Input::Receive { now, message } => {
                    if s.heeds(message.from) {
                        s.lemma_index(message.from);
                        let idx = s.index(message.from);
                        let n = s.noted(idx, message.decided.0);
                        assert(n.wf());
                        assert(n.rested());
                        assert(n.timed());
                        n.lemma_handled_timed(now, idx, message.payload);
                        n.lemma_handled_wf(now, idx, message.payload);
                        let h = n.handled(now, idx, message.payload);
                        h.lemma_request_learn_wf(now, idx, message.decided.0);
                        h.request_learn(now, idx, message.decided.0).lemma_gced_wf();
                    }
                },
                Input::Tick { now } => {
                    s.lemma_tick_timed(now);
                },
                Input::Submit { now, data } => {
                    if s.submit_error(data.len()) is None && s.next_seq < u64::MAX {
                        let e = s.enqueued(now, data);
                        s.lemma_enqueued_wf(now, data);
                        assert(e.rested());
                        e.lemma_open_more_waits(now);
                    }
                },
                Input::Poll => {},
            }
        }
    }

    /// Whatever a replica of a group of two or more was given, once it is told
    /// the time it watches the slot after its watermark if commands wait in its
    /// pool, or if it knows of a later slot.
    pub proof fn ticks_watch_the_next_slot(
        config: ConfigView,
        m: Member,
        inputs: Seq<Input>,
        now: u64,
    )
        requires
            belongs(config, m),
            m.n >= 2,
        ensures
            ({
                let s = Lifetime::begun(config, m).run(inputs).state;
                let t = s.ticked(now);
                let waits = exists|id: CommandId| #[trigger]
                    s.pool.entries.contains_key(id) && s.pool.entries[id].proposed_in is None;
                let knows = exists|k: u64| #[trigger] s.slots.contains_key(k) && k > s.decided;
                (waits || knows) && s.decided < u64::MAX ==> t.slots.contains_key(
                    (s.decided + 1) as u64,
                )
            }),
    {
        let s = Lifetime::begun(config, m).run(inputs).state;
        Lifetime::waiting_commands_are_noticed(config, m, inputs);
        Lifetime::replicas_stay_sound(config, m, inputs);
        Lifetime::lemma_rested(config, m, inputs);
        Lifetime::lemma_same_place(config, m, inputs);
        s.lemma_tick_timed(now);
        if exists|k: u64| #[trigger] s.slots.contains_key(k) && k > s.decided {
            let k = choose|k: u64| #[trigger] s.slots.contains_key(k) && k > s.decided;
            assert(s.known_from((s.decided + 1) as u64));
        }
    }
}

} // verus!
