//! A replica over its lifetime transmits the step of a proposer, and again
//! when no answer comes.

use vstd::prelude::*;

use crate::config::ConfigView;
use crate::lifetime::{belongs, Input, Lifetime};
use crate::proposer::{Member, ProposerView};
use crate::sorted::{ascending, lemma_ascending, lemma_ascends_distinct, lemma_filter_ascends};
use crate::state::{ActionView, State};
use crate::transmission::records_in;
use crate::types::{Command, Slot};
use crate::wire::PayloadView;

verus! {

impl State {
    proof fn lemma_send_forwards_records(self, chunks: Seq<(int, Seq<Command>)>, k: u64)
        ensures
            records_in(self.send_forwards(chunks).actions, k) == records_in(self.actions, k),
        decreases chunks.len(),
    {
        if chunks.len() > 0 {
            self.lemma_send_forwards_records(chunks.drop_last(), k);
            self.send_forwards(chunks.drop_last()).lemma_send_records_in(
                chunks.last().0,
                PayloadView::Forward { commands: chunks.last().1 },
                k,
            );
        }
    }

    /// The parts of a tick after the retransmissions transmit no step and
    /// leave slots alone.
    proof fn lemma_tick_end_emits(self, now: u64, k: u64)
        requires
            self.wf(),
        ensures
            ({
                let t = self.reforwarded(now).learn_ticked(now).pinged(now);
                &&& self.emits(t, k, now, false, Seq::empty())
                &&& t.slots == self.slots
                &&& t.decided == self.decided
                &&& t.m == self.m
            }),
    {
        let s5 = self.reforwarded(now);
        self.lemma_reforwarded_follows(now);
        if !self.m.leads() {
            let ids = self.forward_due(now);
            self.refreshed_forwards(now, ids).lemma_send_forwards_records(
                self.chunked(ids).flushed(self.m.n as nat),
                k,
            );
        }
        s5.lemma_learn_ticked_follows(now);
        let s6 = s5.learn_ticked(now);
        let e = s5.learn_expired(now);
        if e.learn_in_flight is None && e.ahead().len() > 0 {
            let idx = e.ahead()[e.learn_attempts as int % e.ahead().len() as int];
            State { learn_in_flight: Some((idx as usize, now)), ..e }.lemma_send_records_in(
                idx,
                PayloadView::Learn { from_slot: Slot((e.decided + 1) as u64) },
                k,
            );
        }
        s6.lemma_pinged_follows(now);
        let s7 = State { last_ping: now, ..s6 };
        s7.lemma_send_upto_records_in(s7.m.n as nat, |idx: int| PayloadView::Ping, k);
        let t = s6.pinged(now);
        assert(self.settles_into(t));
        self.lemma_emits_nothing(t, k, now);
    }

    /// The step of a standing slot is transmitted again when it is due.
    proof fn lemma_retransmitted_emits(self, now: u64, k: u64) -> (more: Seq<ActionView>)
        requires
            self.wf(),
            self.m.n >= 2,
            self.rested(),
        ensures
            self.emits(self.retransmitted(now), k, now, false, more),
            self.retransmitted(now).rested(),
            self.retransmitted(now).decided == self.decided,
            self.slots.contains_key(k) && self.slots[k].standing(self.m.me_idx as int) ==> more
                == self.repeated(now, k),
            self.slots.contains_key(k) && !self.runs(k) ==> more.len() == 0 && self.leaves(
                self.retransmitted(now),
                k,
            ),
    {
        let pred = |x: u64|
            x > self.decided && (self.slots[x].proposer matches ProposerView::Running(run)
                && now.saturating_sub(run.sent_at) >= self.config.retransmit_delay);
        lemma_ascending(self.slots.dom());
        let keys = ascending(self.slots.dom());
        lemma_filter_ascends(keys, pred);
        let stale = self.stale(now);
        assert(stale == keys.filter(pred));
        lemma_ascends_distinct(stale);
        if self.slots.contains_key(k) && self.slots[k].standing(self.m.me_idx as int) {
            self.lemma_runs_ahead(k);
            assert(keys.to_set().contains(k));
            assert(stale.contains(k) <==> pred(k));
        }
        assert(stale.contains(k) ==> pred(k));
        let more = self.lemma_resend_each_emits(now, stale, k);
        if self.slots.contains_key(k) && self.slots[k].standing(self.m.me_idx as int) && !pred(k) {
            assert(more =~= Seq::empty());
        }
        more
    }

    /// Proposers run beyond the watermark only.
    proof fn lemma_runs_ahead(self, k: u64)
        requires
            self.wf(),
            self.runs(k),
        ensures
            k > self.decided,
            !self.slots[k].is_decided(),
    {
        if k <= self.decided {
            assert(self.retained.contains_key(k));
        }
    }

    /// What is transmitted for the standing slot `k` at `now`: its step, once to
    /// each other replica, if the retransmission delay has passed since it was
    /// transmitted last.
    pub open spec fn repeated(self, now: u64, k: u64) -> Seq<ActionView> {
        let run = self.slots[k].proposer->Running_0;
        if now.saturating_sub(run.sent_at) >= self.config.retransmit_delay {
            self.records(k, self.decided)
        } else {
            Seq::empty()
        }
    }

    /// A tick never moves the watermark of a replica that has peers, and
    /// transmits the step of a standing slot again when it is due.
    pub proof fn lemma_ticked_emits(self, now: u64, k: u64) -> (more: Seq<ActionView>)
        requires
            self.wf(),
            self.m.n >= 2,
            self.rested(),
        ensures
            self.emits(self.ticked(now), k, now, false, more),
            self.ticked(now).rested(),
            self.ticked(now).decided == self.decided,
            self.slots.contains_key(k) && self.slots[k].standing(self.m.me_idx as int) ==> more
                == self.repeated(now, k),
            self.slots.contains_key(k) && !self.runs(k) && !self.frontier_observed(now).hedge_due(
                now,
            ).contains(k) ==> more.len() == 0 && self.leaves(self.ticked(now), k),
    {
        let me = self.m.me_idx as int;
        let s1 = self.frontier_observed(now);
        self.lemma_frontier_follows(now);
        assert(self.settles_into(s1));
        self.lemma_emits_nothing(s1, k, now);
        assert(s1.rested());
        let due = s1.hedge_due(now);
        let a = s1.lemma_hedge_each_emits(now, due, k);
        s1.lemma_hedge_each_wf(now, due);
        let h = s1.hedge_each(now, due);
        self.lemma_emits_trans(s1, h, k, now, false, Seq::empty(), a);
        let s2 = s1.hedged(now);
        assert(h.settles_into(s2));
        h.lemma_emits_nothing(s2, k, now);
        self.lemma_emits_trans(h, s2, k, now, false, Seq::empty() + a, Seq::empty());
        let _ = s1.lemma_hedged_follows(now);
        let b = s2.lemma_opened_emits(now, k);
        s2.lemma_opened_wf(now);
        let s3 = s2.opened(now);
        let ab = Seq::empty() + a + Seq::empty() + b;
        self.lemma_emits_trans(s2, s3, k, now, false, Seq::empty() + a + Seq::empty(), b);
        let c = s3.lemma_retransmitted_emits(now, k);
        s3.lemma_resend_each_wf(now, s3.stale(now));
        let s4 = s3.retransmitted(now);
        self.lemma_emits_trans(s3, s4, k, now, false, ab, c);
        s4.lemma_tick_end_emits(now, k);
        let t = self.ticked(now);
        if self.slots.contains_key(k) && !self.runs(k) && !due.contains(k) {
            s1.lemma_hedge_each_leaves(now, due, k);
            s2.lemma_opened_leaves(now, k);
            assert(!s3.runs(k));
        }
        self.lemma_emits_trans(s4, t, k, now, false, ab + c, Seq::empty());
        let more = ab + c + Seq::empty();
        if self.slots.contains_key(k) && self.slots[k].standing(me) {
            assert(s1.runs(k));
            assert(s2.runs(k));
            assert(s3.slots[k] == self.slots[k]);
            self.lemma_like_records(s3, k, self.decided, self.m.n as nat);
            assert(more =~= c);
        }
        assert(t.rested());
        more
    }

    /// The transmissions for slot `k` that are in `t` but not here.
    pub open spec fn transmitted(self, t: State, k: u64) -> Seq<ActionView> {
        records_in(t.actions, k).skip(records_in(self.actions, k).len() as int)
    }

    pub proof fn lemma_transmitted(self, t: State, k: u64, more: Seq<ActionView>)
        requires
            records_in(t.actions, k) == records_in(self.actions, k) + more,
        ensures
            self.transmitted(t, k) == more,
    {
        assert((records_in(self.actions, k) + more).skip(records_in(self.actions, k).len() as int)
            =~= more);
    }
}

impl Input {
    /// Whether this is a message about the recorder or proposer of slot `k`.
    pub open spec fn concerns(self, k: u64) -> bool {
        self matches Input::Receive { message, .. } && State::concerns(message.payload, k)
    }

    /// The time of an input. Effects are carried out at no particular time.
    pub open spec fn time(self) -> Option<u64> {
        match self {
            Input::Submit { now, .. } => Some(now),
            Input::Receive { now, .. } => Some(now),
            Input::Tick { now } => Some(now),
            Input::Poll => None,
        }
    }
}

impl Lifetime {
    /// Between inputs, every proposer of a replica with peers rests.
    pub proof fn lemma_rested(config: ConfigView, m: Member, inputs: Seq<Input>)
        requires
            belongs(config, m),
            m.n >= 2,
        ensures
            Lifetime::begun(config, m).run(inputs).state.rested(),
        decreases inputs.len(),
    {
        if inputs.len() > 0 {
            let s = Lifetime::begun(config, m).run(inputs.drop_last()).state;
            Lifetime::lemma_rested(config, m, inputs.drop_last());
            if inputs.last() is Poll {
                assert(forall|k: u64| #[trigger]
                    s.slots.contains_key(k) ==> s.slots[k].rested(s.m.me_idx as int));
            } else {
                let _ = Lifetime::lemma_last_emits(config, m, inputs, 0);
            }
        }
    }

    /// What an input other than `Poll` transmits for slot `k`.
    pub proof fn lemma_last_emits(config: ConfigView, m: Member, inputs: Seq<Input>, k: u64) -> (more:
        Seq<ActionView>)
        requires
            belongs(config, m),
            m.n >= 2,
            inputs.len() > 0,
            inputs.last() !is Poll,
            Lifetime::begun(config, m).run(inputs.drop_last()).state.rested(),
        ensures
            ({
                let l = Lifetime::begun(config, m);
                let s = l.run(inputs.drop_last()).state;
                let t = l.run(inputs).state;
                &&& s.emits(t, k, inputs.last().time()->0, inputs.last().concerns(k), more)
                &&& t.rested()
            }),
    {
        let s = Lifetime::begun(config, m).run(inputs.drop_last()).state;
        Lifetime::replicas_stay_sound(config, m, inputs.drop_last());
        Lifetime::lemma_same_place(config, m, inputs.drop_last());
        match inputs.last() {
            Input::Submit { now, data } => if s.submit_error(data.len()) is None && s.next_seq
                < u64::MAX {
                s.lemma_submitted_emits(now, data, k)
            } else {
                s.lemma_emits_nothing(s, k, now);
                Seq::empty()
            },
            Input::Receive { now, message } => s.lemma_received_emits(now, message, k),
            Input::Tick { now } => s.lemma_ticked_emits(now, k),
            Input::Poll => Seq::empty(),
        }
    }

    /// Whether the last of `inputs` is not about slot `k` and has no step for
    /// it transmitted.
    pub open spec fn quiet_last(self, inputs: Seq<Input>, k: u64) -> bool {
        &&& !inputs.last().concerns(k)
        &&& inputs.last() is Poll || self.run(inputs.drop_last()).state.transmitted(
            self.run(inputs).state,
            k,
        ).len() == 0
    }

    /// Whether none of `inputs`, given after `before`, is about slot `k` or has
    /// a step for it transmitted.
    pub open spec fn quiet(self, before: Seq<Input>, inputs: Seq<Input>, k: u64) -> bool {
        forall|x: int|
            0 < x <= inputs.len() ==> self.quiet_last(before + #[trigger] inputs.take(x), k)
    }

    /// A quiet input leaves a slot whose proposer runs as it is.
    proof fn lemma_quiet_last(config: ConfigView, m: Member, inputs: Seq<Input>, k: u64)
        requires
            belongs(config, m),
            m.n >= 2,
            inputs.len() > 0,
            Lifetime::begun(config, m).quiet_last(inputs, k),
            Lifetime::begun(config, m).run(inputs).state.runs(k),
        ensures
            ({
                let l = Lifetime::begun(config, m);
                let s = l.run(inputs.drop_last()).state;
                let t = l.run(inputs).state;
                &&& s.runs(k)
                &&& s.slots[k].proposer == t.slots[k].proposer
                &&& s.slots[k].recorder == t.slots[k].recorder
            }),
    {
        if inputs.last() !is Poll {
            Lifetime::lemma_rested(config, m, inputs.drop_last());
            let more = Lifetime::lemma_last_emits(config, m, inputs, k);
            let l = Lifetime::begun(config, m);
            l.run(inputs.drop_last()).state.lemma_transmitted(l.run(inputs).state, k, more);
        }
    }

    /// After a transmission and quiet inputs, the slot is as the transmission
    /// left it.
    proof fn lemma_quiet(
        config: ConfigView,
        m: Member,
        before: Seq<Input>,
        inputs: Seq<Input>,
        k: u64,
    )
        requires
            belongs(config, m),
            m.n >= 2,
            Lifetime::begun(config, m).quiet(before, inputs, k),
            Lifetime::begun(config, m).run(before + inputs).state.runs(k),
        ensures
            ({
                let l = Lifetime::begun(config, m);
                let s = l.run(before).state;
                let t = l.run(before + inputs).state;
                &&& s.runs(k)
                &&& s.slots[k].proposer == t.slots[k].proposer
                &&& s.slots[k].recorder == t.slots[k].recorder
            }),
        decreases inputs.len(),
    {
        if inputs.len() == 0 {
            assert(before + inputs =~= before);
        } else {
            let l = Lifetime::begun(config, m);
            let init = inputs.drop_last();
            assert(inputs.take(inputs.len() as int) =~= inputs);
            assert(l.quiet_last(before + inputs, k));
            assert((before + inputs).drop_last() =~= before + init);
            Lifetime::lemma_quiet_last(config, m, before + inputs, k);
            assert(l.quiet(before, init, k)) by {
                assert forall|x: int| 0 < x <= init.len() implies l.quiet_last(
                    before + #[trigger] init.take(x),
                    k,
                ) by {
                    assert(init.take(x) =~= inputs.take(x));
                }
            }
            Lifetime::lemma_quiet(config, m, before, init, k);
        }
    }

    /// A proposer that is not answered repeats itself. Say that `sent` is what
    /// the input `first` last had transmitted for slot `k`, one message to each
    /// other replica, and that since then no message about the slot has
    /// arrived, nothing was transmitted for it, it was not decided, and the
    /// watermark is the one in those messages. Then a tick transmits exactly
    /// `sent` again, if the retransmission delay has passed since `first`, and
    /// nothing for the slot before.
    pub proof fn unanswered_steps_are_repeated(
        config: ConfigView,
        m: Member,
        before: Seq<Input>,
        first: Input,
        between: Seq<Input>,
        k: u64,
        sent: Seq<ActionView>,
        now: u64,
    )
        requires
            belongs(config, m),
            config.replicas.len() >= 2,
            first !is Poll,
            ({
                let l = Lifetime::begun(config, m);
                let s0 = l.run(before).state;
                let s1 = l.run(before.push(first)).state;
                let s2 = l.run(before.push(first) + between).state;
                let all = s0.transmitted(s1, k);
                let n = config.replicas.len();
                &&& all.len() >= n - 1
                &&& sent == all.skip(all.len() - (n - 1))
                &&& l.quiet(before.push(first), between, k)
                &&& s2.runs(k)
                &&& sent[0]->message.decided == Slot(s2.decided)
            }),
        ensures
            ({
                let s = Lifetime::begun(config, m).run(before.push(first) + between).state;
                let due = now.saturating_sub(first.time()->0) >= config.retransmit_delay;
                let again = if due {
                    sent
                } else {
                    Seq::empty()
                };
                &&& s.transmitted(s.ticked(now), k) == again
                &&& s.transmitted(s.retransmitted(now), k) == again
            }),
            sent.len() == config.replicas.len() - 1,
            forall|j: int|
                0 <= j < config.replicas.len() && j != m.me_idx ==> (#[trigger] config.replicas[j])
                    == sent[if j < m.me_idx {
                    j
                } else {
                    j - 1
                }]->to,
    {
        let l = Lifetime::begun(config, m);
        let upto = before.push(first);
        let s0 = l.run(before).state;
        let s1 = l.run(upto).state;
        let s2 = l.run(upto + between).state;
        assert(upto.drop_last() =~= before);
        Lifetime::lemma_rested(config, m, before);
        Lifetime::lemma_rested(config, m, upto + between);
        Lifetime::replicas_stay_sound(config, m, upto + between);
        Lifetime::lemma_same_place(config, m, upto);
        Lifetime::lemma_same_place(config, m, upto + between);
        Lifetime::lemma_same_config(config, m, upto);
        Lifetime::lemma_same_config(config, m, upto + between);
        let more = Lifetime::lemma_last_emits(config, m, upto, k);
        s0.lemma_transmitted(s1, k, more);
        Lifetime::lemma_quiet(config, m, upto, between, k);
        let t = first.time()->0;
        let d = choose|d: u64| #[trigger] s1.stands_for(k, d, t, more);
        assert(s1.stands_for(k, d, t, more));
        s1.lemma_like_records(s2, k, d, m.n as nat);
        assert(sent == s2.records(k, d));
        s2.lemma_records(k, d, m.n as nat);
        assert forall|j: int| 0 <= j < config.replicas.len() && j != m.me_idx implies (
        #[trigger] config.replicas[j]) == sent[if j < m.me_idx {
            j
        } else {
            j - 1
        }]->to by {
            s2.lemma_records_to(k, d, m.n as nat, j);
        }
        let z: int = if m.me_idx == 0 {
            1
        } else {
            0
        };
        s2.lemma_records_to(k, d, m.n as nat, z);
        assert(sent[0]->message.decided == Slot(d));
        let a = s2.lemma_ticked_emits(now, k);
        s2.lemma_transmitted(s2.ticked(now), k, a);
        let b = s2.lemma_retransmitted_emits(now, k);
        s2.lemma_transmitted(s2.retransmitted(now), k, b);
    }

    pub proof fn lemma_same_config(config: ConfigView, m: Member, inputs: Seq<Input>)
        requires
            belongs(config, m),
        ensures
            Lifetime::begun(config, m).run(inputs).state.config == config,
        decreases inputs.len(),
    {
        if inputs.len() > 0 {
            Lifetime::lemma_same_config(config, m, inputs.drop_last());
            Lifetime::lemma_last(config, m, inputs);
        }
    }
}

impl State {
    /// Whom the transmissions go to, and what they say of the watermark.
    proof fn lemma_records_to(self, k: u64, d: u64, j: nat, x: int)
        requires
            self.m.wf(),
            j <= self.m.n,
            0 <= x < j,
            x != self.m.me_idx,
        ensures
            ({
                let all = self.records_upto(k, d, j);
                let y = if x < self.m.me_idx {
                    x
                } else {
                    x - 1
                };
                &&& 0 <= y < all.len()
                &&& all[y]->to == self.config.replicas[x]
                &&& all[y]->message.decided == Slot(d)
            }),
        decreases j,
    {
        self.lemma_records(k, d, j);
        self.lemma_records(k, d, (j - 1) as nat);
        if x < j - 1 {
            self.lemma_records_to(k, d, (j - 1) as nat, x);
        }
    }
}

} // verus!
