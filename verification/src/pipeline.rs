//! The leader's pipeline: no command waits while there is room for it.

use vstd::prelude::*;

use crate::config::ConfigView;
use crate::lifetime::{belongs, Input, Lifetime};
use crate::pool::origin_of;
use crate::proposer::Member;
use crate::slot::ProgressView;
use crate::sorted::{ascending, lemma_ascending, lemma_filter_ascends};
use crate::state::State;
use crate::types::{batch_bytes, CommandId};
use crate::wire::{MessageView, PayloadView};

verus! {

impl State {
    /// A leader has opened all the slots that it can.
    pub open spec fn brimming(self) -> bool {
        self.m.leads() ==> !self.can_open()
    }

    /// Whether `t` has the commands of this replica and no more room for them.
    pub open spec fn as_full(self, t: State) -> bool {
        &&& t.m == self.m
        &&& t.config == self.config
        &&& t.decided == self.decided
        &&& t.pool == self.pool
        &&& t.dedup == self.dedup
        &&& t.highest() >= self.highest()
        &&& forall|x: u64| #[trigger] self.runs(x) && x > self.decided ==> t.runs(x)
    }

    pub proof fn lemma_as_full(self, t: State)
        requires
            self.wf(),
            t.wf(),
            self.as_full(t),
            self.brimming(),
        ensures
            t.brimming(),
    {
        if t.m.leads() && t.can_open() {
            assert(self.running().subset_of(t.running())) by {
                assert forall|x: u64| #[trigger] self.running().contains(x) implies
                    t.running().contains(x) by {
                    assert(self.runs(x));
                }
            }
            assert(t.running().finite()) by {
                assert(t.running().subset_of(t.slots.dom()));
                vstd::set_lib::lemma_set_subset_finite(t.slots.dom(), t.running());
            }
            vstd::set_lib::lemma_len_subset(self.running(), t.running());
            assert(t.eligible() =~= self.eligible());
        }
    }

    /// With the same slots or more, the highest is no lower.
    pub proof fn lemma_highest(self, t: State)
        requires
            self.slots.dom().finite(),
            t.slots.dom().finite(),
            t.max_open == self.max_open,
            t.decided == self.decided,
            forall|x: u64| #[trigger] self.slots.contains_key(x) && x > self.decided
                ==> t.slots.contains_key(x),
        ensures
            t.highest() >= self.highest(),
    {
        lemma_ascending(self.slots.dom());
        let keys = ascending(self.slots.dom());
        if keys.len() > 0 {
            assert(keys.to_set().contains(keys.last()));
            assert(self.slots.contains_key(self.last_known()));
            if self.last_known() > self.decided {
                t.lemma_last_known(self.last_known());
            }
        }
    }

    /// The leader stops opening slots only when it can open no more.
    pub proof fn lemma_opened_brimming(self, now: u64)
        requires
            self.wf(),
        ensures
            !self.open_more(now).can_open(),
            self.opened(now).brimming(),
        decreases u64::MAX - self.max_open,
    {
        if self.can_open() {
            let k = (self.highest() + 1) as u64;
            let value = batch_bytes(self.next_batch());
            self.lemma_claimed_wf(k, self.next_batch());
            let s = self.opening();
            assert(s.wf());
            s.lemma_activated_wf(now, k, value);
            s.activated(now, k, value).lemma_opened_brimming(now);
        }
        let t = self.open_more(now);
        let u = self.opened(now);
        assert(u.m.leads() ==> u.eligible() =~= t.eligible());
        assert(u.m.leads() ==> u.running() =~= t.running());
        self.lemma_opened_wf(now);
    }

    pub proof fn lemma_decide_brimming(
        self,
        now: u64,
        slot: u64,
        value: Seq<u8>,
        is_decider: bool,
    )
        requires
            self.wf(),
            self.brimming(),
        ensures
            self.decide(now, slot, value, is_decider).brimming(),
    {
        if self.settles(slot, value, is_decider) {
            self.lemma_settled_wf(now, slot, value, is_decider);
            self.settled(now, slot, value, is_decider).lemma_opened_brimming(now);
        } else if !self.drops(slot, value, is_decider) {
            assert(self.retained.contains_key(slot));
            self.second_decisions_change_nothing(now, slot, value, is_decider);
        }
    }

    proof fn lemma_learned_brimming(self, now: u64, first: u64, values: Seq<Seq<u8>>)
        requires
            self.wf(),
            self.brimming(),
        ensures
            self.learned(now, first, values).brimming(),
        decreases values.len(),
    {
        if values.len() > 0 {
            let init = values.drop_last();
            self.lemma_learned_brimming(now, first, init);
            self.lemma_learned_wf(now, first, init);
            let slot = first + values.len() - 1;
            if slot <= u64::MAX {
                self.learned(now, first, init).lemma_decide_brimming(
                    now,
                    slot as u64,
                    values.last(),
                    false,
                );
            }
        }
    }

    proof fn lemma_handled_brimming(self, now: u64, idx: int, payload: PayloadView)
        requires
            self.wf(),
            self.m.n >= 2,
            self.rested(),
            self.brimming(),
            0 <= idx < self.m.n,
        ensures
            self.handled(now, idx, payload).brimming(),
    {
        let t = self.handled(now, idx, payload);
        self.lemma_handled_wf(now, idx, payload);
        match payload {
            PayloadView::Record { slot, step, proposal } => {
                self.lemma_highest(t);
                self.lemma_as_full(t);
            },
            PayloadView::RecordReply { slot, req_step, step, first, prior_agg } => {
                let j = slot.0;
                if self.slots.contains_key(j) {
                    let s = self.answered(now, idx, j, req_step, step, first, prior_agg);
                    self.lemma_answered_state_wf(now, idx, j, req_step, step, first, prior_agg);
                    self.lemma_answered_poised(now, idx, j, req_step, step, first, prior_agg);
                    self.slots[j].lemma_answered_wf(
                        self.m,
                        now,
                        self.rng,
                        idx,
                        req_step,
                        step,
                        first,
                        prior_agg,
                    );
                    assert(s.slots.dom() =~= self.slots.dom());
                    self.lemma_highest(s);
                    self.lemma_as_full(s);
                    match self.slots[j].answer_progress(
                        self.m,
                        idx,
                        req_step,
                        step,
                        first,
                        prior_agg,
                    ) {
                        ProgressView::Wait => {},
                        ProgressView::Send => {
                            s.lemma_drive_frame(now, j);
                            s.lemma_highest(t);
                            s.lemma_as_full(t);
                        },
                        ProgressView::Decided(value) => {
                            s.lemma_decide_brimming(now, j, value, true);
                        },
                    }
                }
            },
            PayloadView::Decide { slot, value } => {
                self.lemma_decide_brimming(now, slot.0, value, false);
            },
            PayloadView::Forward { commands } => {
                let s = self.pooled(now, commands).refreshed(now);
                self.lemma_pooled_wf(now, commands);
                s.lemma_opened_brimming(now);
            },
            PayloadView::Learn { .. } => {
                self.lemma_highest(t);
                self.lemma_as_full(t);
            },
            PayloadView::LearnReply { first_slot, values } => {
                let s = State { learn_in_flight: None, ..self };
                self.lemma_highest(s);
                self.lemma_as_full(s);
                s.lemma_learned_brimming(now, first_slot.0, values);
            },
            PayloadView::Ping => {},
        }
    }

    pub proof fn lemma_received_brimming(self, now: u64, message: MessageView)
        requires
            self.wf(),
            self.m.n >= 2,
            self.rested(),
            self.brimming(),
        ensures
            self.received(now, message).brimming(),
    {
        if self.heeds(message.from) {
            self.lemma_index(message.from);
            let idx = self.index(message.from);
            let s = self.noted(idx, message.decided.0);
            assert(s.wf());
            self.lemma_highest(s);
            self.lemma_as_full(s);
            assert(s.rested());
            s.lemma_handled_brimming(now, idx, message.payload);
            s.lemma_handled_wf(now, idx, message.payload);
            let t = s.handled(now, idx, message.payload);
            t.lemma_request_learn_wf(now, idx, message.decided.0);
            let u = t.request_learn(now, idx, message.decided.0);
            t.lemma_highest(u);
            t.lemma_as_full(u);
            let v = u.gced();
            u.lemma_gced_wf();
            assert forall|x: u64| #[trigger] u.slots.contains_key(x) && x > u.decided implies
                v.slots.contains_key(x) by {
                u.lemma_gced_keeps_ahead(x);
            }
            u.lemma_highest(v);
            assert forall|x: u64| #[trigger] u.runs(x) && x > u.decided implies v.runs(x) by {
                u.lemma_gced_keeps_ahead(x);
            }
            u.lemma_as_full(v);
        }
    }

    pub proof fn lemma_submitted_brimming(self, now: u64, data: Seq<u8>)
        requires
            self.wf(),
            self.submit_error(data.len()) is None,
        ensures
            self.submitted(now, data).brimming(),
    {
        if self.m.leads() {
            let s = self.enqueued(now, data);
            self.lemma_enqueued_wf(now, data);
            s.lemma_opened_wf(now);
            s.lemma_opened_brimming(now);
            let t = s.opened(now);
            let u = self.submitted(now, data);
            self.lemma_submitted_wf(now, data);
            t.lemma_highest(u);
            t.lemma_as_full(u);
        }
    }

    pub proof fn lemma_ticked_brimming(self, now: u64)
        requires
            self.wf(),
            self.m.n >= 2,
            self.rested(),
        ensures
            self.ticked(now).brimming(),
    {
        let s1 = self.frontier_observed(now);
        self.lemma_frontier_follows(now);
        assert(self.settles_into(s1));
        assert(s1.rested()) by {
            assert forall|x: u64| #[trigger] s1.slots.contains_key(x) implies s1.slots[x].rested(
                s1.m.me_idx as int,
            ) by {
                if s1.runs(x) {
                    assert(self.runs(x));
                    assert(self.slots.contains_key(x));
                }
            }
        }
        let _ = s1.lemma_hedged_follows(now);
        let _ = s1.lemma_hedge_each_emits(now, s1.hedge_due(now), 0);
        let s2 = s1.hedged(now);
        assert(s2.rested());
        let _ = s2.lemma_opened_emits(now, 0);
        s2.lemma_opened_wf(now);
        s2.lemma_opened_brimming(now);
        let s3 = s2.opened(now);
        let stale = s3.stale(now);
        s3.lemma_resend_each_runs(now, stale);
        s3.lemma_resend_each_wf(now, stale);
        let s4 = s3.retransmitted(now);
        s3.lemma_highest(s4);
        s3.lemma_as_full(s4);
        let t = self.ticked(now);
        self.lemma_tick_parts(now);
        self.lemma_ticked_wf(now);
        if t.m.leads() {
            let s5 = s4.reforwarded(now);
            assert(s5 == s4);
            s5.lemma_learn_ticked_follows(now);
            let s6 = s5.learn_ticked(now);
            s6.lemma_pinged_follows(now);
            s4.lemma_highest(t);
            s4.lemma_as_full(t);
        }
    }
}

impl Lifetime {
    /// Between inputs, a leader with peers has opened all the slots it can.
    pub proof fn lemma_brimming(config: ConfigView, m: Member, inputs: Seq<Input>)
        requires
            belongs(config, m),
            m.n >= 2,
        ensures
            Lifetime::begun(config, m).run(inputs).state.brimming(),
        decreases inputs.len(),
    {
        let t = Lifetime::begun(config, m).run(inputs).state;
        Lifetime::replicas_stay_sound(config, m, inputs);
        if inputs.len() == 0 {
            t.lemma_eligible();
            crate::invariants::lemma_fitting(t.eligible(), t.config.max_batch_bytes as nat);
            if t.eligible().len() > 0 {
                assert(t.pool.entries.contains_key(t.eligible()[0].0));
            }
        } else {
            let init = inputs.drop_last();
            let s = Lifetime::begun(config, m).run(init).state;
            Lifetime::lemma_brimming(config, m, init);
            Lifetime::lemma_rested(config, m, init);
            Lifetime::replicas_stay_sound(config, m, init);
            Lifetime::lemma_same_place(config, m, init);
            match inputs.last() {
                Input::Submit { now, data } => {
                    if s.submit_error(data.len()) is None && s.next_seq < u64::MAX {
                        s.lemma_submitted_brimming(now, data);
                    }
                },
                Input::Receive { now, message } => {
                    s.lemma_received_brimming(now, message);
                },
                Input::Tick { now } => {
                    s.lemma_ticked_brimming(now);
                },
                Input::Poll => {
                    s.lemma_highest(t);
                    s.lemma_as_full(t);
                },
            }
        }
    }

    /// No command waits at the leader while there is room for it: if one that
    /// rides in no proposal is within 1024 of what has been delivered of its
    /// origin, then as many proposers run beyond the watermark as the pipeline
    /// has places, or a slot as far beyond it is open or known already.
    pub proof fn leaders_fill_the_pipeline(
        config: ConfigView,
        m: Member,
        inputs: Seq<Input>,
        id: CommandId,
    )
        requires
            belongs(config, m),
            m.n >= 2,
            m.me_idx == 0,
            ({
                let s = Lifetime::begun(config, m).run(inputs).state;
                &&& s.pool.entries.contains_key(id)
                &&& s.pool.entries[id].proposed_in is None
                &&& id.seq <= s.dedup.high_water(origin_of(id)) + 1024
                &&& s.decided + config.pipeline <= u64::MAX
            }),
        ensures
            ({
                let s = Lifetime::begun(config, m).run(inputs).state;
                let running = Set::new(|k: u64| k > s.decided && s.runs(k));
                ||| running.len() >= config.pipeline
                ||| s.max_open >= s.decided + config.pipeline
                ||| exists|k: u64| #[trigger]
                    s.slots.contains_key(k) && k >= s.decided + config.pipeline
            }),
    {
        let s = Lifetime::begun(config, m).run(inputs).state;
        Lifetime::lemma_brimming(config, m, inputs);
        Lifetime::replicas_stay_sound(config, m, inputs);
        Lifetime::lemma_same_place(config, m, inputs);
        Lifetime::lemma_same_config(config, m, inputs);
        let running = Set::new(|k: u64| k > s.decided && s.runs(k));
        assert(running =~= s.running());
        let dom = s.pool.entries.dom();
        let keys = ascending(dom);
        let pred = |x: CommandId|
            s.pool.entries[x].proposed_in is None && x.seq <= s.dedup.high_water(origin_of(x))
                + crate::state::DEDUP_WINDOW;
        lemma_ascending(dom);
        lemma_filter_ascends(keys, pred);
        assert(keys.to_set().contains(id));
        assert(keys.filter(pred).contains(id));
        assert(s.eligible().len() > 0);
        crate::invariants::lemma_fitting(s.eligible(), s.config.max_batch_bytes as nat);
        s.lemma_fitting_some();
        lemma_ascending(s.slots.dom());
        let known = ascending(s.slots.dom());
        if known.len() > 0 {
            assert(known.to_set().contains(known.last()));
            assert(s.slots.contains_key(s.last_known()));
        }
    }
}

impl State {
    /// Some command is batched if some can be.
    proof fn lemma_fitting_some(self)
        requires
            self.eligible().len() > 0,
        ensures
            self.next_batch().len() > 0,
    {
        lemma_fitting_len(self.eligible(), self.config.max_batch_bytes as nat);
    }
}

proof fn lemma_fitting_len(cs: Seq<crate::types::Command>, limit: nat)
    requires
        cs.len() > 0,
    ensures
        crate::state::fitting(cs, limit).len() > 0,
    decreases cs.len(),
{
    if cs.len() > 1 {
        lemma_fitting_len(cs.drop_last(), limit);
    }
}

impl State {
    /// The slots beyond the watermark that this replica proposes for.
    pub open spec fn in_progress(self) -> Set<u64> {
        Set::new(|k: u64| k > self.decided && self.runs(k))
    }

    proof fn lemma_open_more_bounded(self, now: u64)
        requires
            self.wf(),
            self.m.n >= 2,
            self.rested(),
        ensures
            ({
                let t = self.open_more(now);
                &&& t.in_progress().finite()
                &&& t.in_progress().len() <= self.in_progress().len() || t.in_progress().len()
                    <= self.config.pipeline
                &&& forall|k: u64| #[trigger]
                    t.runs(k) && !self.runs(k) ==> k <= self.decided + self.config.pipeline
            }),
        decreases u64::MAX - self.max_open,
    {
        let before = self.in_progress();
        assert(before =~= self.running());
        assert(before.subset_of(self.slots.dom()));
        vstd::set_lib::lemma_set_subset_finite(self.slots.dom(), before);
        if self.can_open() {
            let j = (self.highest() + 1) as u64;
            let value = batch_bytes(self.next_batch());
            let s = self.opening();
            self.lemma_claimed_wf(j, self.next_batch());
            assert(s.wf());
            assert(s.rested());
            let _ = s.lemma_activated_emits(now, j, value, 0);
            s.lemma_activated_wf(now, j, value);
            s.lemma_activated_pool(now, j, value);
            let t = s.activated(now, j, value);
            t.lemma_open_more_bounded(now);
            let more = t.in_progress();
            assert(more.subset_of(before.insert(j))) by {
                assert forall|k: u64| more.contains(k) implies before.insert(j).contains(k) by {
                    assert(t.runs(k));
                    assert(k == j || s.runs(k));
                }
            }
            vstd::set_lib::lemma_len_subset(more, before.insert(j));
            let u = self.open_more(now);
            assert forall|k: u64| #[trigger] u.runs(k) && !self.runs(k) implies k <= self.decided
                + self.config.pipeline by {
                if t.runs(k) {
                    assert(k == j || s.runs(k));
                }
            }
        }
    }

    /// A leader keeps to its pipeline: as it opens slots, the number of those
    /// that it proposes for beyond the watermark does not grow past the
    /// pipeline's depth, and no slot is opened further beyond the watermark
    /// than that.
    pub proof fn pipelines_are_bounded(self, now: u64)
        requires
            self.wf(),
            self.m.n >= 2,
            self.rested(),
        ensures
            ({
                let t = self.opened(now);
                &&& t.in_progress().finite()
                &&& t.in_progress().len() <= self.in_progress().len() || t.in_progress().len()
                    <= self.config.pipeline
                &&& forall|k: u64| #[trigger]
                    t.runs(k) && !self.runs(k) ==> k <= self.decided + self.config.pipeline
            }),
    {
        self.lemma_open_more_bounded(now);
        assert(self.in_progress() =~= self.running());
        assert(self.in_progress().subset_of(self.slots.dom()));
        vstd::set_lib::lemma_set_subset_finite(self.slots.dom(), self.in_progress());
        let o = self.open_more(now);
        let t = self.opened(now);
        assert(self.m.leads() ==> t.in_progress() =~= o.in_progress());
        assert forall|k: u64| #[trigger] t.runs(k) && !self.runs(k) implies k <= self.decided
            + self.config.pipeline by {
            assert(o.runs(k));
        }
    }
}

} // verus!
