//! What counts as progress, and how answers move a proposer on.

use vstd::prelude::*;

use crate::invariants::lemma_least;
use crate::proposer::{
    after_draws, drawn, lemma_drawn, lemma_none_set, lemma_set_count_update, set_count, Member,
    RunView,
};
use crate::recorder::{recording_is_idempotent, RecorderView};
use crate::rng::{draws_follow_the_output, Rng};
use crate::sending::{lemma_sent_push, sent_of, Kind};
use crate::slot::{ProgressView, SlotView};
use crate::sorted::Key;
use crate::state::{batch_of, least, ActionView, State};
use crate::types::{proposal_order_is_total, ProposalView, Slot};
use crate::wire::{MessageView, PayloadView, ReplyFirstView};

verus! {

impl SlotView {
    /// Only news counts as progress. A proposal for a later step than the
    /// recorder's does; one for its own step does if it outranks all that came
    /// before in that step; a repeated one, or one for an earlier step, does
    /// not. Nothing is progress for a decided slot.
    pub proof fn only_news_is_progress(self, now: u64, later: u64, step: u32, p: ProposalView)
        ensures
            ({
                let once = self.recorded(now, step, p);
                &&& once.first_observed == self.first_observed
                &&& once.proposer == self.proposer
                &&& once.recorded(later, step, p) == once
                &&& self.recorder is Decided ==> once == self
                &&& self.recorder is Open && step > self.recorder->Open_0.step
                    ==> once.last_progress == now && once.recorder->Open_0.step == step
                &&& self.recorder is Open && step < self.recorder->Open_0.step ==> once == self
                &&& self.recorder is Open && step == self.recorder->Open_0.step ==> (match
                self.recorder->Open_0.current_agg {
                    None => once.last_progress == now,
                    Some(best) => if best.lt(p) {
                        once.last_progress == now
                    } else {
                        once == self
                    },
                })
            }),
    {
        proposal_order_is_total(p, p, p);
        if let RecorderView::Open(isr) = self.recorder {
            recording_is_idempotent(isr, step, p);
            if let Some(best) = isr.current_agg {
                proposal_order_is_total(best, p, best);
                proposal_order_is_total(p, best, p);
            }
        }
    }
}

impl RunView {
    /// How an answer moves a proposer on. One from a recorder that is at a
    /// later step takes it there, with the proposal that was first there. One
    /// that completes a majority in the proposer's step takes it to the next
    /// step, or decides: in phase 0 if every recorder of the majority saw a
    /// proposal of the leader's priority first, in phase 2 if no aggregate
    /// outranks the proposer's own proposal. Any other leaves it in its step.
    /// A proposer that enters phase 0 draws a new priority for every recorder;
    /// in the other phases it makes all of them the same proposal.
    pub proof fn answers_move_proposers_on(
        self,
        m: Member,
        now: u64,
        rng: Rng,
        from: int,
        req_step: u32,
        step: u32,
        first: ProposalView,
        agg: Option<ProposalView>,
    )
        requires
            m.wf(),
            self.wf(m.n as nat),
            0 <= from < m.n,
        ensures
            ({
                let t = self.absorbed(m, now, rng, from, req_step, step, first, agg);
                let next = self.progress(m, from, req_step, step, first, agg);
                let counts = req_step == self.step && step == self.step && !self.replied[from];
                let full = counts && set_count(self.replied) + 1 == m.quorum;
                &&& step > self.step ==> next is Send && t.step == step && t.proposal.value
                    == first.value && t.needs_send && set_count(t.replied) == 0
                &&& step > self.step && step % 4 != 0 ==> t.proposal == first
                &&& m.quorum == m.n / 2 + 1
                &&& next is Send && t.step % 4 == 0 && !(t.step == 4 && m.me_idx == 0) ==> {
                    &&& t.proposal.proposer == m.me
                    &&& self.absorbed_rng(m, rng, from, req_step, step, first, agg) == after_draws(
                        rng,
                        m.n as nat,
                    )
                    &&& forall|j: int|
                        0 <= j < m.n ==> (#[trigger] t.proposal_for(j)).priority == drawn(
                            rng,
                            m.n as nat,
                        )[j] && t.proposal_for(j).value == t.proposal.value
                }
                &&& next is Send && t.step % 4 != 0 ==> {
                    &&& self.absorbed_rng(m, rng, from, req_step, step, first, agg) == rng
                    &&& forall|j: int| #[trigger] t.proposal_for(j) == t.proposal
                }
                &&& step <= self.step && !full ==> next is Wait && t.step == self.step
                    && t.proposal == self.proposal && t.sent_at == self.sent_at
                &&& counts && !full ==> set_count(t.replied) == set_count(self.replied) + 1
                &&& !counts && step <= self.step ==> t == self
                &&& full && self.step % 4 == 0 ==> if first.priority == 0xffff_ffff
                    && self.all_first_high {
                    next is Decided
                } else {
                    &&& next is Send
                    &&& t.step == self.step + 1
                    &&& first.le(t.proposal)
                    &&& t.proposal == first || Some(t.proposal) == self.best_first
                }
                &&& full && self.step % 4 == 1 ==> next is Send && t.step == self.step + 1
                    && t.proposal == self.proposal
                &&& full && self.step % 4 == 2 && agg == Some(self.proposal) && (self.best_agg
                    is None || self.best_agg == Some(self.proposal)) ==> next
                    == ProgressView::Decided(self.proposal.value)
                &&& full && self.step % 4 == 2 && !(next is Decided) ==> next is Send && t.step
                    == self.step + 1 && t.proposal == self.proposal
                &&& full && self.step % 4 == 3 && self.step < u32::MAX && agg is Some ==> {
                    &&& next is Send
                    &&& t.step == self.step + 1
                    &&& agg == Some(t.proposal) || self.best_agg == Some(t.proposal)
                        || t.proposal.proposer == m.me
                }
            }),
    {
        lemma_none_set(m.n as nat);
        lemma_drawn(rng, m.n as nat);
        if req_step == self.step && step == self.step && !self.replied[from] {
            lemma_set_count_update(self.replied, from);
        }
        proposal_order_is_total(first, first, first);
        if let Some(b) = self.best_first {
            proposal_order_is_total(b, first, b);
            proposal_order_is_total(first, b, first);
        }
        proposal_order_is_total(self.proposal, self.proposal, self.proposal);
    }
}

/// Priorities are drawn one by one: the `i`-th of them follows the output of
/// the generator after `i` draws.
pub proof fn priorities_are_drawn_one_by_one(rng: Rng, n: nat, i: int)
    requires
        0 <= i < n,
    ensures
        ({
            let p = drawn(rng, n)[i];
            &&& drawn(rng, n).len() == n
            &&& 1 <= p < 0xffff_ffff
            &&& (after_draws(rng, i as nat).output() - (p - 1)) % 0xffff_fffe == 0
            &&& after_draws(rng, 0) == rng
            &&& after_draws(rng, (i + 1) as nat) == after_draws(rng, i as nat).advanced()
        }),
    decreases n,
{
    lemma_drawn(rng, n);
    if i == n - 1 {
        draws_follow_the_output(after_draws(rng, i as nat), 1, 0xffff_fffe);
        lemma_drawn(rng, (n - 1) as nat);
    } else {
        priorities_are_drawn_one_by_one(rng, (n - 1) as nat, i);
        lemma_drawn(rng, (n - 1) as nat);
    }
}

impl State {
    /// A proposer that starts is at the first step of round 1 with the value it
    /// is given. The leader's has the reserved priority for every recorder;
    /// that of any other replica draws one for each, and the generator moves on
    /// past them.
    pub proof fn proposers_start_with_fresh_priorities(self, now: u64, k: u64, value: Seq<u8>)
        requires
            self.wf(),
            self.slots.contains_key(k),
        ensures
            ({
                let t = self.started(now, k, value);
                let run = t.slots[k].proposer->Running_0;
                let n = self.m.n as nat;
                &&& t.slots[k].is_running()
                &&& run.step == 4
                &&& run.needs_send
                &&& set_count(run.replied) == 0
                &&& self.config.me == self.config.replicas[0] ==> t.rng == self.rng && forall|
                    j: int,
                |
                    0 <= j < n ==> #[trigger] run.proposal_for(j) == (ProposalView {
                        priority: 0xffff_ffff,
                        proposer: self.config.me,
                        value,
                    })
                &&& self.config.me != self.config.replicas[0] ==> t.rng == after_draws(self.rng, n)
                    && forall|j: int|
                    0 <= j < n ==> #[trigger] run.proposal_for(j) == (ProposalView {
                        priority: drawn(self.rng, n)[j],
                        proposer: self.config.me,
                        value,
                    })
            }),
    {
        lemma_none_set(self.m.n as nat);
        lemma_drawn(self.rng, self.m.n as nat);
        let ids = self.config.replicas;
        if self.m.me_idx > 0 {
            assert(ids[0].rank() < ids[self.m.me_idx as int].rank());
        }
    }
}

impl State {
    /// Whether `a` tells the replica at `j` of the value decided for `slot`.
    pub open spec fn announces(self, j: int, slot: Slot, value: Seq<u8>, a: ActionView) -> bool {
        a == (ActionView::Send {
            to: self.config.replicas[j],
            message: MessageView {
                from: self.config.me,
                decided: Slot(self.decided),
                payload: PayloadView::Decide { slot, value },
            },
        })
    }

    /// Whether the replica at `j` is told of the value decided for `slot` among
    /// `sent`.
    pub open spec fn announced(
        self,
        j: int,
        slot: Slot,
        value: Seq<u8>,
        sent: Seq<ActionView>,
    ) -> bool {
        exists|x: int|
            0 <= x < sent.len() && self.announces(j, slot, value, #[trigger] sent[x])
    }

    proof fn lemma_announced(self, k: nat, slot: Slot, value: Seq<u8>) -> (more: Seq<ActionView>)
        requires
            self.m.wf(),
            self.m.me == self.config.me,
            k <= self.m.n,
        ensures
            sent_of(
                self.send_upto(k, |idx: int| PayloadView::Decide { slot, value }).actions,
                Kind::Decide,
            ) == sent_of(self.actions, Kind::Decide) + more,
            more.len() == (if self.m.me_idx < k {
                k - 1
            } else {
                k as int
            }),
            forall|j: int|
                0 <= j < k && j != self.m.me_idx ==> #[trigger] self.announced(
                    j,
                    slot,
                    value,
                    more,
                ),
        decreases k,
    {
        let p = PayloadView::Decide { slot, value };
        let f = |idx: int| PayloadView::Decide { slot, value };
        let q = sent_of(self.actions, Kind::Decide);
        if k == 0 {
            assert(q =~= q + Seq::empty());
            Seq::empty()
        } else {
            let earlier = self.lemma_announced((k - 1) as nat, slot, value);
            let before = self.send_upto((k - 1) as nat, f);
            self.lemma_send_upto_frame((k - 1) as nat, f);
            if k - 1 == self.m.me_idx {
                earlier
            } else {
                before.lemma_send_kind(k - 1, p, Kind::Decide);
                let last = before.send(k - 1, p).actions.last();
                let more = earlier.push(last);
                assert(sent_of(self.send_upto(k, f).actions, Kind::Decide) =~= q + more);
                assert forall|j: int| 0 <= j < k && j != self.m.me_idx implies #[trigger]
                    self.announced(j, slot, value, more) by {
                    if j < k - 1 {
                        assert(self.announced(j, slot, value, earlier));
                        let x = choose|x: int|
                            0 <= x < earlier.len() && self.announces(
                                j,
                                slot,
                                value,
                                #[trigger] earlier[x],
                            );
                        assert(more[x] == earlier[x]);
                    } else {
                        assert(self.announces(j, slot, value, more[earlier.len() as int]));
                    }
                }
                more
            }
        }
    }

    pub proof fn lemma_delivered_sends(self, kind: Kind)
        ensures
            sent_of(self.delivered().actions, kind) == sent_of(self.actions, kind),
        decreases u64::MAX - self.decided,
    {
        if self.can_deliver() {
            let t = self.delivered_one();
            lemma_sent_push(self.actions, t.actions.last(), kind);
            t.lemma_delivered_sends(kind);
        }
    }

    proof fn lemma_decide_announces(self, now: u64, slot: u64, value: Seq<u8>) -> (sent: Seq<
        ActionView,
    >)
        requires
            self.wf(),
            self.m.n >= 2,
            self.rested(),
            self.settles(slot, value, true),
        ensures
            ({
                let t = self.decide(now, slot, value, true);
                &&& sent_of(t.actions, Kind::Decide) == sent_of(self.actions, Kind::Decide) + sent
                &&& sent.len() == self.m.n - 1
                &&& forall|j: int|
                    0 <= j < self.m.n && j != self.m.me_idx ==> #[trigger] self.announced(
                        j,
                        Slot(slot),
                        value,
                        sent,
                    )
                &&& t.retained.contains_key(slot) ==> t.retained[slot] == value
            }),
    {
        let s = self.observed(now, slot);
        self.lemma_observed_wf(now, slot);
        let s1 = s.installed(slot, value);
        s.lemma_installed_wf(slot, value);
        let f = |idx: int| PayloadView::Decide { slot: Slot(slot), value };
        let sent = s1.lemma_announced(s1.m.n as nat, Slot(slot), value);
        s1.lemma_send_all_wf(f);
        s1.lemma_send_upto_frame(s1.m.n as nat, f);
        let s2 = s1.send_all(f);
        s2.lemma_released_wf(slot, batch_of(value));
        let s3 = s2.released(slot, batch_of(value)).refreshed(now);
        s3.lemma_delivered_wf();
        s3.lemma_delivered_frame();
        s3.lemma_delivered_sends(Kind::Decide);
        let s5 = s3.delivered().acknowledged().refreshed(now);
        assert(s5.wf());
        s5.lemma_gced_wf();
        s5.retention_is_bounded();
        let s6 = self.settled(now, slot, value, true);
        assert(s6 == s5.gced());
        self.lemma_settled_emits(now, slot, value, true, 0);
        s6.lemma_opened_proposes(now);
        let t = self.decide(now, slot, value, true);
        assert(sent_of(t.actions, Kind::Decide) == sent_of(s6.actions, Kind::Decide));
        assert forall|j: int| 0 <= j < self.m.n && j != self.m.me_idx implies #[trigger]
            self.announced(j, Slot(slot), value, sent) by {
            assert(s1.announced(j, Slot(slot), value, sent));
            let x = choose|x: int|
                0 <= x < sent.len() && s1.announces(j, Slot(slot), value, #[trigger] sent[x]);
            assert(self.announces(j, Slot(slot), value, sent[x]));
        }
        sent
    }

    /// A replica that decides lets all others know: if an answer decides a slot
    /// that was not decided here before, each of the others is sent the value,
    /// which is the one retained.
    pub proof fn decisions_are_announced(self, now: u64, message: MessageView) -> (value: Seq<u8>)
        requires
            self.wf(),
            self.m.n >= 2,
            self.rested(),
            self.has_peer(message.from),
            message.payload is RecordReply,
            ({
                let k = message.payload->RecordReply_slot.0;
                let t = self.received(now, message);
                &&& k > self.decided
                &&& !self.retained.contains_key(k)
                &&& k <= t.decided || t.retained.contains_key(k)
            }),
        ensures
            ({
                let slot = message.payload->RecordReply_slot;
                let t = self.received(now, message);
                let sent = self.newly_sent(t, Kind::Decide);
                &&& sent.len() == self.m.n - 1
                &&& forall|j: int|
                    0 <= j < self.m.n && self.config.replicas[j] != self.config.me ==> #[trigger]
                        self.announced(j, slot, value, sent)
                &&& t.retained.contains_key(slot.0) ==> t.retained[slot.0] == value
            }),
    {
        let (k, req_step, step, first, agg) = match message.payload {
            PayloadView::RecordReply { slot, req_step, step, first, prior_agg } => (
                slot.0,
                req_step,
                step,
                first,
                prior_agg,
            ),
            _ => (0u64, 0u32, 0u32, ReplyFirstView::Echo, None),
        };
        self.lemma_noted(message);
        let idx = self.index(message.from);
        let s = self.noted(idx, message.decided.0);
        assert(s.rested());
        s.lemma_handled_wf(now, idx, message.payload);
        let u = s.handled(now, idx, message.payload);
        assert(u == s.on_record_reply(now, idx, k, req_step, step, first, agg));
        u.lemma_after_handling(now, idx, message.decided.0, Kind::Decide);
        let t = self.received(now, message);
        let a = s.answered(now, idx, k, req_step, step, first, agg);
        s.lemma_answered_state_wf(now, idx, k, req_step, step, first, agg);
        s.lemma_answered_poised(now, idx, k, req_step, step, first, agg);
        match s.slots[k].answer_progress(s.m, idx, req_step, step, first, agg) {
            ProgressView::Decided(value) => {
                if a.settles(k, value, true) {
                    let sent = a.lemma_decide_announces(now, k, value);
                    self.lemma_newly_sent(t, Kind::Decide, sent);
                    assert forall|j: int|
                        0 <= j < self.m.n && self.config.replicas[j]
                            != self.config.me implies #[trigger] self.announced(
                        j,
                        Slot(k),
                        value,
                        sent,
                    ) by {
                        assert(a.announced(j, Slot(k), value, sent));
                        let x = choose|x: int|
                            0 <= x < sent.len() && a.announces(
                                j,
                                Slot(k),
                                value,
                                #[trigger] sent[x],
                            );
                        assert(self.announces(j, Slot(k), value, sent[x]));
                    }
                }
                value
            },
            ProgressView::Send => {
                a.lemma_drive_frame(now, k);
                Seq::empty()
            },
            ProgressView::Wait => Seq::empty(),
        }
    }
}

impl SlotView {
    /// An echo stands for the proposal that the recorder was sent: to a running
    /// proposer an echo of its step is the same as that proposal in full, and
    /// one of another step is nothing.
    pub proof fn echoes_stand_for_the_proposal(
        self,
        m: Member,
        now: u64,
        rng: Rng,
        from: int,
        req_step: u32,
        step: u32,
        agg: Option<ProposalView>,
    )
        requires
            self.is_running(),
        ensures
            ({
                let run = self.proposer->Running_0;
                let echo = ReplyFirstView::Echo;
                let full = ReplyFirstView::Full(run.proposal_for(from));
                &&& req_step == run.step ==> {
                    &&& self.answered(m, now, rng, from, req_step, step, echo, agg)
                        == self.answered(m, now, rng, from, req_step, step, full, agg)
                    &&& self.answer_progress(m, from, req_step, step, echo, agg)
                        == self.answer_progress(m, from, req_step, step, full, agg)
                }
                &&& req_step != run.step ==> {
                    &&& self.answered(m, now, rng, from, req_step, step, echo, agg) == self
                    &&& self.answer_progress(m, from, req_step, step, echo, agg) is Wait
                }
            }),
    {
    }
}

impl State {
    /// Answers reach the proposer. A first answer of another replica to the
    /// step that a proposer is in, from a recorder in that step, is counted,
    /// and does nothing else as long as it does not complete a majority.
    pub proof fn answers_are_counted(self, now: u64, message: MessageView, j: int)
        requires
            self.wf(),
            self.m.n >= 2,
            self.rested(),
            self.has_peer(message.from),
            0 <= j < self.m.n,
            self.config.replicas[j] == message.from,
            message.payload is RecordReply,
            ({
                let k = message.payload->RecordReply_slot.0;
                let run = self.slots[k].proposer->Running_0;
                &&& k > self.decided
                &&& self.runs(k)
                &&& message.payload->req_step == run.step
                &&& message.payload->RecordReply_step == run.step
                &&& !run.replied[j]
                &&& set_count(run.replied) + 1 < self.m.n / 2 + 1
            }),
        ensures
            ({
                let k = message.payload->RecordReply_slot.0;
                let run = self.slots[k].proposer->Running_0;
                let t = self.received(now, message);
                let after = t.slots[k].proposer->Running_0;
                &&& t.runs(k)
                &&& after.replied == run.replied.update(j, true)
                &&& after.step == run.step
                &&& after.proposal == run.proposal
                &&& t.decided == self.decided
            }),
    {
        let (k, req_step, step, first, agg) = match message.payload {
            PayloadView::RecordReply { slot, req_step, step, first, prior_agg } => (
                slot.0,
                req_step,
                step,
                first,
                prior_agg,
            ),
            _ => (0u64, 0u32, 0u32, ReplyFirstView::Echo, None),
        };
        self.lemma_noted(message);
        let idx = self.index(message.from);
        let ids = self.config.replicas;
        if idx < j {
            assert(ids[idx].rank() < ids[j].rank());
        } else if j < idx {
            assert(ids[j].rank() < ids[idx].rank());
        }
        let s = self.noted(idx, message.decided.0);
        s.lemma_handled_wf(now, idx, message.payload);
        let u = s.handled(now, idx, message.payload);
        assert(u == s.answered(now, idx, k, req_step, step, first, agg));
        u.lemma_after_handling(now, idx, message.decided.0, Kind::Ping);
        let v = u.request_learn(now, idx, message.decided.0);
        u.lemma_request_learn_wf(now, idx, message.decided.0);
        v.lemma_gced_wf();
        v.lemma_gced_slots(k);
    }

    /// Garbage collection leaves slots beyond the watermark alone.
    proof fn lemma_gced_slots(self, k: u64)
        requires
            self.wf(),
            k > self.decided,
            self.slots.contains_key(k),
        ensures
            self.gced().slots.contains_key(k),
            self.gced().slots[k] == self.slots[k],
    {
        let s = self.acknowledged();
        assert(s.wf());
        lemma_least(s.peer_acked);
        assert(s.peer_acked[s.m.me_idx as int] == s.decided);
        let l = least(s.peer_acked);
        s.lemma_freed_wf(l);
        s.freed(l).lemma_evicted_slots(k);
    }

    /// The fast path, message by message: if the recorders that a leader's
    /// proposer has heard of all saw its proposal first, and one more answers
    /// with an echo so that it is a majority, then the slot is decided with
    /// the leader's value, which is delivered or held. (The value fits in
    /// memory.)
    pub proof fn echoes_decide_at_once(self, now: u64, message: MessageView, j: int)
        requires
            self.wf(),
            self.m.n >= 2,
            self.rested(),
            !self.can_deliver(),
            self.has_peer(message.from),
            0 <= j < self.m.n,
            self.config.replicas[j] == message.from,
            message.payload is RecordReply,
            ({
                let k = message.payload->RecordReply_slot.0;
                let run = self.slots[k].proposer->Running_0;
                &&& k > self.decided
                &&& self.runs(k)
                &&& run.on_fast_path()
                &&& message.payload->req_step == 4
                &&& message.payload->RecordReply_step == 4
                &&& message.payload->first is Echo
                &&& !run.replied[j]
                &&& set_count(run.replied) + 1 == self.m.n / 2 + 1
                &&& self.kept() + run.proposal.value.len() <= usize::MAX
            }),
        ensures
            ({
                let k = message.payload->RecordReply_slot.0;
                let value = self.slots[k].proposer->Running_0.proposal.value;
                let t = self.received(now, message);
                &&& t.decided >= k || t.retained.contains_key(k)
                &&& t.retained.contains_key(k) ==> t.retained[k] == value
                &&& k == self.decided + 1 ==> t.decided >= k
            }),
    {
        let (k, agg) = match message.payload {
            PayloadView::RecordReply { slot, prior_agg, .. } => (slot.0, prior_agg),
            _ => (0u64, None),
        };
        let echo = ReplyFirstView::Echo;
        self.lemma_noted(message);
        let idx = self.index(message.from);
        let ids = self.config.replicas;
        if idx < j {
            assert(ids[idx].rank() < ids[j].rank());
        } else if j < idx {
            assert(ids[j].rank() < ids[idx].rank());
        }
        let s = self.noted(idx, message.decided.0);
        assert(s.rested());
        let run = self.slots[k].proposer->Running_0;
        let value = run.proposal.value;
        assert(s.slots[k].wf(s.m.n as nat));
        run.echoes_decide_on_the_fast_path(s.m, now, s.rng, idx, agg, value);
        s.lemma_handled_wf(now, idx, message.payload);
        let u = s.handled(now, idx, message.payload);
        let a = s.answered(now, idx, k, 4, 4, echo, agg);
        s.lemma_answered_state_wf(now, idx, k, 4, 4, echo, agg);
        s.lemma_answered_poised(now, idx, k, 4, 4, echo, agg);
        assert(u == a.decide(now, k, value, true));
        assert(!self.slots[k].is_decided()) by {
            if self.slots[k].is_decided() {
                assert(self.retained.contains_key(k));
            }
        }
        assert(!a.can_deliver());
        a.lemma_decide_takes(now, k, value, true);
        u.lemma_after_handling(now, idx, message.decided.0, Kind::Ping);
        if self.retained.contains_key(k) {
            assert(self.slots[k].recorder is Decided);
        }
    }
}

} // verus!
