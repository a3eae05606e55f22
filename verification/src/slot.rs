//! What a replica holds for one slot: its recorder role, its proposer role,
//! and the steps that involve nothing but the two.

use vstd::prelude::*;

use crate::proposer::{
    lemma_drawn, lemma_none_set, lemma_set_count_update, set_count, Folded, FoldedView, Member,
    OutcomeView, ProposerState, ProposerView, Run, RunView, StepOutcome,
};
use crate::recorder::{elided, reply_first, IsrView, RecorderSlot, RecorderView};
use crate::rng::Rng;
use crate::types::{share, Bytes, Proposal, ProposalView, Slot, PRIORITY_H};
use crate::wire::{proposal_opt, Payload, PayloadView, ReplyFirst, ReplyFirstView};

verus! {

/// Per-slot state: this replica's recorder role and proposer role for the
/// slot, plus the timestamps that drive hedging.
pub struct SlotState {
    pub recorder: RecorderSlot,
    pub proposer: ProposerState,
    /// When this replica first learned the slot exists.
    pub first_observed: u64,
    /// Last time this replica's recorder saw traffic for the slot. Progress
    /// extends hedging deadlines: as one of the recorders, local traffic
    /// approximates "some proposer is driving this slot".
    pub last_progress: u64,
}

/// What a [`SlotState`] holds.
#[verifier::ext_equal]
pub struct SlotView {
    pub recorder: RecorderView,
    pub proposer: ProposerView,
    pub first_observed: u64,
    pub last_progress: u64,
}

/// What a run has to do next.
pub enum Progress {
    /// Nothing until more replies arrive.
    Wait,
    /// Transmit the step that it began.
    Send,
    /// Install the value that it decided.
    Decided(Bytes),
}

/// What a [`Progress`] holds.
#[verifier::ext_equal]
pub enum ProgressView {
    Wait,
    Send,
    Decided(Seq<u8>),
}

impl View for SlotState {
    type V = SlotView;

    open spec fn view(&self) -> SlotView {
        SlotView {
            recorder: self.recorder@,
            proposer: self.proposer@,
            first_observed: self.first_observed,
            last_progress: self.last_progress,
        }
    }
}

impl View for Progress {
    type V = ProgressView;

    open spec fn view(&self) -> ProgressView {
        match self {
            Progress::Wait => ProgressView::Wait,
            Progress::Send => ProgressView::Send,
            Progress::Decided(value) => ProgressView::Decided(value@),
        }
    }
}

impl Member {
    /// The leader is the first replica of the schedule.
    pub open spec fn leads(self) -> bool {
        self.me_idx == 0
    }
}

impl RunView {
    /// What a run has to do after a reply.
    pub open spec fn progress(
        self,
        m: Member,
        from_idx: int,
        req_step: u32,
        reply_step: u32,
        first: ProposalView,
        prior_agg: Option<ProposalView>,
    ) -> ProgressView {
        match self.fold_result(from_idx, req_step, reply_step, first, m.quorum as nat) {
            FoldedView::Ignored => ProgressView::Wait,
            FoldedView::CatchUp { .. } => ProgressView::Send,
            FoldedView::Quorum => match self.folded(
                from_idx,
                req_step,
                reply_step,
                first,
                prior_agg,
            ).outcome() {
                OutcomeView::Decided(value) => ProgressView::Decided(value),
                OutcomeView::Advance => ProgressView::Send,
                OutcomeView::Retry => ProgressView::Wait,
            },
        }
    }

    /// The run that begins its next step after a reply, if the reply leads to
    /// one: the adopted step and proposal of a recorder that is ahead, or the
    /// step after the one whose quorum the reply completes.
    pub open spec fn entered(
        self,
        m: Member,
        from_idx: int,
        req_step: u32,
        reply_step: u32,
        first: ProposalView,
        prior_agg: Option<ProposalView>,
    ) -> RunView {
        match self.fold_result(from_idx, req_step, reply_step, first, m.quorum as nat) {
            FoldedView::CatchUp { step, adopt } => RunView { step, proposal: adopt, ..self },
            _ => self.folded(from_idx, req_step, reply_step, first, prior_agg).completed(),
        }
    }

    /// The run after a reply.
    pub open spec fn absorbed(
        self,
        m: Member,
        now: u64,
        rng: Rng,
        from_idx: int,
        req_step: u32,
        reply_step: u32,
        first: ProposalView,
        prior_agg: Option<ProposalView>,
    ) -> RunView {
        let next = self.entered(m, from_idx, req_step, reply_step, first, prior_agg);
        match self.progress(m, from_idx, req_step, reply_step, first, prior_agg) {
            ProgressView::Send => next.begun(m, m.leads(), now, rng),
            ProgressView::Decided(_) => next,
            ProgressView::Wait => if self.fold_result(
                from_idx,
                req_step,
                reply_step,
                first,
                m.quorum as nat,
            ) is Quorum {
                next
            } else {
                self.folded(from_idx, req_step, reply_step, first, prior_agg)
            },
        }
    }

    /// The generator after a reply.
    pub open spec fn absorbed_rng(
        self,
        m: Member,
        rng: Rng,
        from_idx: int,
        req_step: u32,
        reply_step: u32,
        first: ProposalView,
        prior_agg: Option<ProposalView>,
    ) -> Rng {
        match self.progress(m, from_idx, req_step, reply_step, first, prior_agg) {
            ProgressView::Send => self.entered(
                m,
                from_idx,
                req_step,
                reply_step,
                first,
                prior_agg,
            ).begun_rng(m, m.leads(), rng),
            _ => rng,
        }
    }
}

impl SlotView {
    /// A slot that this replica learns of at `now`.
    pub open spec fn fresh(now: u64) -> SlotView {
        SlotView {
            recorder: RecorderView::Open(IsrView::empty()),
            proposer: ProposerView::Idle,
            first_observed: now,
            last_progress: now,
        }
    }

    pub open spec fn wf(self, n: nat) -> bool {
        &&& self.recorder matches RecorderView::Open(isr) ==> isr.wf()
        &&& self.proposer matches ProposerView::Running(run) ==> run.wf(n)
    }

    pub open spec fn is_decided(self) -> bool {
        self.recorder is Decided
    }

    pub open spec fn is_running(self) -> bool {
        self.proposer is Running
    }

    /// The slot after a proposer's `record(step, p)`. Only a change of the
    /// register counts as progress.
    pub open spec fn recorded(self, now: u64, step: u32, p: ProposalView) -> SlotView {
        match self.recorder {
            RecorderView::Decided(_) => self,
            RecorderView::Open(isr) => SlotView {
                recorder: RecorderView::Open(isr.record(step, p)),
                last_progress: if isr.record(step, p) != isr {
                    now
                } else {
                    self.last_progress
                },
                ..self
            },
        }
    }

    /// The reply to a proposer's `record(step, p)`: the decided value, or the
    /// register's summary. A reply from the same step elides the proposer's
    /// own proposal.
    pub open spec fn record_reply(self, slot: Slot, step: u32, p: ProposalView) -> PayloadView {
        match self.recorder {
            RecorderView::Decided(value) => PayloadView::Decide { slot, value },
            RecorderView::Open(isr) => {
                let after = isr.record(step, p);
                PayloadView::RecordReply {
                    slot,
                    req_step: step,
                    step: after.step,
                    first: if after.step == step {
                        elided(after.first->0, p)
                    } else {
                        ReplyFirstView::Full(after.first->0)
                    },
                    prior_agg: after.prior_agg,
                }
            },
        }
    }

    /// The first proposal that a reply to the run `run` reports, if it can be
    /// told: an elided one is the run's own proposal of the same step.
    pub open spec fn resolved(
        run: RunView,
        from_idx: int,
        req_step: u32,
        first: ReplyFirstView,
    ) -> Option<ProposalView> {
        match first {
            ReplyFirstView::Full(p) => Some(p),
            ReplyFirstView::Echo => if req_step == run.step {
                Some(run.proposal_for(from_idx))
            } else {
                None
            },
        }
    }

    /// The slot after a recorder's reply.
    pub open spec fn answered(
        self,
        m: Member,
        now: u64,
        rng: Rng,
        from_idx: int,
        req_step: u32,
        reply_step: u32,
        first: ReplyFirstView,
        prior_agg: Option<ProposalView>,
    ) -> SlotView {
        match self.proposer {
            ProposerView::Running(run) => match Self::resolved(run, from_idx, req_step, first) {
                Some(f) => SlotView {
                    proposer: ProposerView::Running(
                        run.absorbed(m, now, rng, from_idx, req_step, reply_step, f, prior_agg),
                    ),
                    ..self
                },
                None => self,
            },
            _ => self,
        }
    }

    /// The generator after a recorder's reply.
    pub open spec fn answered_rng(
        self,
        m: Member,
        rng: Rng,
        from_idx: int,
        req_step: u32,
        reply_step: u32,
        first: ReplyFirstView,
        prior_agg: Option<ProposalView>,
    ) -> Rng {
        match self.proposer {
            ProposerView::Running(run) => match Self::resolved(run, from_idx, req_step, first) {
                Some(f) => run.absorbed_rng(m, rng, from_idx, req_step, reply_step, f, prior_agg),
                None => rng,
            },
            _ => rng,
        }
    }

    /// What there is to do after a recorder's reply.
    pub open spec fn answer_progress(
        self,
        m: Member,
        from_idx: int,
        req_step: u32,
        reply_step: u32,
        first: ReplyFirstView,
        prior_agg: Option<ProposalView>,
    ) -> ProgressView {
        match self.proposer {
            ProposerView::Running(run) => match Self::resolved(run, from_idx, req_step, first) {
                Some(f) => run.progress(m, from_idx, req_step, reply_step, f, prior_agg),
                None => ProgressView::Wait,
            },
            _ => ProgressView::Wait,
        }
    }
}

/// What driving a slot leaves behind, and what it asks for: nothing
/// (`Wait`), a broadcast of the run's step (`Send`), or the installation of a
/// decided value.
#[verifier::ext_equal]
pub struct Driven {
    pub slot: SlotView,
    pub rng: Rng,
    pub next: ProgressView,
}

impl SlotView {
    /// One local transmission of the running proposer's step: record with our
    /// own recorder and fold its answer.
    pub open spec fn self_recorded(self, m: Member, now: u64, rng: Rng) -> Driven {
        match (self.proposer, self.recorder) {
            (ProposerView::Running(run), RecorderView::Open(isr)) => {
                let sent = RunView { needs_send: false, sent_at: now, ..run };
                let me = m.me_idx as int;
                let isr1 = isr.record(run.step, sent.proposal_for(me));
                let first = isr1.first->0;
                Driven {
                    slot: SlotView {
                        recorder: RecorderView::Open(isr1),
                        proposer: ProposerView::Running(
                            sent.absorbed(m, now, rng, me, run.step, isr1.step, first, isr1.prior_agg),
                        ),
                        ..self
                    },
                    rng: sent.absorbed_rng(m, rng, me, run.step, isr1.step, first, isr1.prior_agg),
                    next: sent.progress(m, me, run.step, isr1.step, first, isr1.prior_agg),
                }
            },
            _ => Driven { slot: self, rng, next: ProgressView::Wait },
        }
    }

    /// Transmits the proposer's current step to the local recorder, which may
    /// catch the proposer up or complete a quorum immediately; repeats for
    /// every step that this begins.
    pub open spec fn driven(self, m: Member, now: u64, rng: Rng) -> Driven
        decreases self.steps_left(),
    {
        match self.proposer {
            ProposerView::Running(run) => if !run.needs_send {
                Driven { slot: self, rng, next: ProgressView::Wait }
            } else if self.is_decided() {
                Driven {
                    slot: SlotView { proposer: ProposerView::Done, ..self },
                    rng,
                    next: ProgressView::Wait,
                }
            } else {
                let d = self.self_recorded(m, now, rng);
                match d.next {
                    ProgressView::Decided(_) => d,
                    ProgressView::Wait => Driven { next: ProgressView::Send, ..d },
                    ProgressView::Send => d.slot.driven(m, now, d.rng),
                }
            },
            _ => Driven { slot: self, rng, next: ProgressView::Wait },
        }
    }

    /// How many step numbers a running proposer has left.
    pub open spec fn steps_left(self) -> int {
        match self.proposer {
            ProposerView::Running(run) => u32::MAX - run.step,
            _ => 0,
        }
    }
}

impl RunView {
    /// A reply leaves a run consistent.
    pub proof fn lemma_absorbed_wf(
        self,
        m: Member,
        now: u64,
        rng: Rng,
        from_idx: int,
        req_step: u32,
        reply_step: u32,
        first: ProposalView,
        prior_agg: Option<ProposalView>,
    )
        requires
            self.wf(m.n as nat),
            0 <= from_idx < m.n,
        ensures
            self.absorbed(m, now, rng, from_idx, req_step, reply_step, first, prior_agg).wf(
                m.n as nat,
            ),
            self.progress(m, from_idx, req_step, reply_step, first, prior_agg) is Send
                ==> self.absorbed(
                m,
                now,
                rng,
                from_idx,
                req_step,
                reply_step,
                first,
                prior_agg,
            ).step > self.step,
    {
        lemma_none_set(m.n as nat);
        lemma_drawn(rng, m.n as nat);
    }
}

impl RunView {
    /// Whether a run is in round 1 phase 0 as the leader's, and every
    /// recorder that answered saw its proposal first.
    pub open spec fn on_fast_path(self) -> bool {
        &&& self.step == 4
        &&& self.priorities.len() == 0
        &&& self.proposal.priority == PRIORITY_H
        &&& self.all_first_high
        &&& self.best_first is None || self.best_first == Some(self.proposal)
    }

    /// The fast path: the leader's run starts on it, stays on it as long as
    /// recorders echo its proposal, and decides its value as soon as a quorum
    /// has.
    pub proof fn echoes_decide_on_the_fast_path(
        self,
        m: Member,
        now: u64,
        rng: Rng,
        from_idx: int,
        prior_agg: Option<ProposalView>,
        value: Seq<u8>,
    )
        requires
            m.wf(),
            self.wf(m.n as nat),
            self.on_fast_path(),
            0 <= from_idx < m.n,
            !self.replied[from_idx],
        ensures
            RunView::started(value, m, true, now, rng).on_fast_path(),
            ({
                let after = self.absorbed(
                    m,
                    now,
                    rng,
                    from_idx,
                    4,
                    4,
                    self.proposal_for(from_idx),
                    prior_agg,
                );
                &&& after.on_fast_path()
                &&& after.proposal == self.proposal
                &&& set_count(after.replied) == set_count(self.replied) + 1
            }),
            self.progress(m, from_idx, 4, 4, self.proposal_for(from_idx), prior_agg) == (
            if set_count(self.replied) + 1 == m.quorum {
                ProgressView::Decided(self.proposal.value)
            } else {
                ProgressView::Wait
            }),
    {
        lemma_set_count_update(self.replied, from_idx);
        crate::types::proposal_order_is_total(self.proposal, self.proposal, self.proposal);
    }
}

impl SlotView {
    /// A recorder that reaches a step with a proposal echoes that proposal: on
    /// the fast path, every recorder that the leader reaches first does.
    pub proof fn first_proposals_are_echoed(self, slot: Slot, step: u32, p: ProposalView)
        requires
            self.recorder is Open,
            step > self.recorder->Open_0.step,
        ensures
            self.record_reply(slot, step, p) == (PayloadView::RecordReply {
                slot,
                req_step: step,
                step,
                first: ReplyFirstView::Echo,
                prior_agg: if step == self.recorder->Open_0.step + 1 {
                    self.recorder->Open_0.current_agg
                } else {
                    None
                },
            }),
    {
    }
}

impl SlotView {
    /// Driving leaves a slot consistent, its observation times alone, a
    /// decided recorder as it is, and an open one open.
    pub proof fn lemma_driven_wf(self, m: Member, now: u64, rng: Rng)
        requires
            self.wf(m.n as nat),
            m.wf(),
        ensures
            self.driven(m, now, rng).slot.wf(m.n as nat),
            self.driven(m, now, rng).slot.is_decided() == self.is_decided(),
            self.is_decided() ==> self.driven(m, now, rng).slot.recorder == self.recorder,
            self.driven(m, now, rng).slot.first_observed == self.first_observed,
            self.driven(m, now, rng).slot.last_progress == self.last_progress,
            self.is_running() && !self.is_decided() ==> self.driven(
                m,
                now,
                rng,
            ).slot.is_running(),
            !self.is_running() ==> self.driven(m, now, rng).slot == self,
            self.driven(m, now, rng).next is Send ==> self.driven(m, now, rng).slot.is_running(),
            self.driven(m, now, rng).next is Decided ==> !self.is_decided(),
        decreases self.steps_left(),
    {
        match self.proposer {
            ProposerView::Running(run) => if run.needs_send && !self.is_decided() {
                let sent = RunView { needs_send: false, sent_at: now, ..run };
                let isr1 = self.recorder->Open_0.record(
                    run.step,
                    sent.proposal_for(m.me_idx as int),
                );
                sent.lemma_absorbed_wf(
                    m,
                    now,
                    rng,
                    m.me_idx as int,
                    run.step,
                    isr1.step,
                    isr1.first->0,
                    isr1.prior_agg,
                );
                let d = self.self_recorded(m, now, rng);
                if d.next is Send {
                    d.slot.lemma_driven_wf(m, now, d.rng);
                }
            },
            _ => {},
        }
    }

    /// A proposer that is driven has its step sent at `now`, if it was due
    /// and is not done.
    pub proof fn lemma_driven_sent(self, m: Member, now: u64, rng: Rng)
        requires
            self.wf(m.n as nat),
            m.wf(),
            self.proposer is Running,
        ensures
            !(self.driven(m, now, rng).slot.proposer is Idle),
            !self.proposer->Running_0.needs_send ==> self.driven(m, now, rng).slot == self,
            self.proposer->Running_0.needs_send ==> (self.driven(m, now, rng).slot.proposer
                matches ProposerView::Running(run) ==> run.sent_at == now),
        decreases self.steps_left(),
    {
        let run = self.proposer->Running_0;
        if run.needs_send && !self.is_decided() {
            let sent = RunView { needs_send: false, sent_at: now, ..run };
            let isr1 = self.recorder->Open_0.record(run.step, sent.proposal_for(m.me_idx as int));
            sent.lemma_absorbed_wf(
                m,
                now,
                rng,
                m.me_idx as int,
                run.step,
                isr1.step,
                isr1.first->0,
                isr1.prior_agg,
            );
            let d = self.self_recorded(m, now, rng);
            if d.next is Send {
                d.slot.lemma_driven_sent(m, now, d.rng);
            }
        }
    }

    /// Transmitting a step again that the local recorder is still in repeats
    /// it: the proposals sent are the same, and so is the tally.
    pub proof fn retransmission_repeats_the_step(self, m: Member, now: u64, rng: Rng)
        requires
            m.wf(),
            self.proposer is Running,
            self.recorder is Open,
            self.proposer->Running_0.needs_send,
            self.proposer->Running_0.replied[m.me_idx as int],
            self.recorder->Open_0.step == self.proposer->Running_0.step,
        ensures
            ({
                let run = self.proposer->Running_0;
                let d = self.driven(m, now, rng);
                &&& d.next is Send
                &&& d.rng == rng
                &&& d.slot.proposer == ProposerView::Running(
                    RunView { needs_send: false, sent_at: now, ..run },
                )
                &&& forall|idx: int| #[trigger]
                    d.slot.proposer->Running_0.proposal_for(idx) == run.proposal_for(idx)
            }),
    {
    }

    /// A reply leaves a slot consistent, and its recorder alone.
    pub proof fn lemma_answered_wf(
        self,
        m: Member,
        now: u64,
        rng: Rng,
        from_idx: int,
        req_step: u32,
        reply_step: u32,
        first: ReplyFirstView,
        prior_agg: Option<ProposalView>,
    )
        requires
            self.wf(m.n as nat),
            0 <= from_idx < m.n,
        ensures
            ({
                let s = self.answered(m, now, rng, from_idx, req_step, reply_step, first, prior_agg);
                &&& s.wf(m.n as nat)
                &&& s.recorder == self.recorder
                &&& s.first_observed == self.first_observed
                &&& s.last_progress == self.last_progress
                &&& s.is_running() == self.is_running()
                &&& !self.is_running() ==> s == self
            }),
    {
        if let ProposerView::Running(run) = self.proposer {
            if let Some(f) = Self::resolved(run, from_idx, req_step, first) {
                run.lemma_absorbed_wf(m, now, rng, from_idx, req_step, reply_step, f, prior_agg);
            }
        }
    }
}

/// Folds a recorder's answer into a run and begins the step it leads to.
fn absorb(
    run: &mut Run,
    m: Member,
    now: u64,
    rng: &mut Rng,
    from_idx: usize,
    req_step: u32,
    reply_step: u32,
    first: Proposal,
    prior_agg: Option<Proposal>,
) -> (r: Progress)
    requires
        m.wf(),
        old(run).wf(m.n as nat),
        from_idx < m.n,
    ensures
        final(run)@ == old(run)@.absorbed(
            m,
            now,
            *old(rng),
            from_idx as int,
            req_step,
            reply_step,
            first@,
            proposal_opt(prior_agg),
        ),
        final(run).wf(m.n as nat),
        *final(rng) == old(run)@.absorbed_rng(
            m,
            *old(rng),
            from_idx as int,
            req_step,
            reply_step,
            first@,
            proposal_opt(prior_agg),
        ),
        r@ == old(run)@.progress(
            m,
            from_idx as int,
            req_step,
            reply_step,
            first@,
            proposal_opt(prior_agg),
        ),
{
    match run.fold(from_idx, req_step, reply_step, first, prior_agg, m.quorum) {
        Folded::Ignored => Progress::Wait,
        Folded::CatchUp { step, adopt } => {
            run.step = step;
            run.proposal = adopt;
            run.begin_step(m, m.me_idx == 0, now, rng);
            Progress::Send
        },
        Folded::Quorum => {
            match run.step_complete() {
                StepOutcome::Decided(value) => Progress::Decided(value),
                StepOutcome::Advance => {
                    run.begin_step(m, m.me_idx == 0, now, rng);
                    Progress::Send
                },
                StepOutcome::Retry => Progress::Wait,
            }
        },
    }
}

impl SlotState {
    pub open spec fn wf(&self, n: nat) -> bool {
        &&& self@.wf(n)
        &&& self.proposer matches ProposerState::Running(run) ==> run.wf(n)
    }

    pub fn new(now: u64) -> (r: SlotState)
        ensures
            r@ == SlotView::fresh(now),
            forall|n: nat| r.wf(n),
    {
        SlotState {
            recorder: RecorderSlot::new(),
            proposer: ProposerState::Idle,
            first_observed: now,
            last_progress: now,
        }
    }

    pub fn is_decided(&self) -> (r: bool)
        ensures
            r == self@.is_decided(),
    {
        matches!(self.recorder, RecorderSlot::Decided(_))
    }

    pub fn is_running(&self) -> (r: bool)
        ensures
            r == self@.is_running(),
    {
        matches!(self.proposer, ProposerState::Running(_))
    }

    pub fn is_idle(&self) -> (r: bool)
        ensures
            r == (self@.proposer is Idle),
    {
        matches!(self.proposer, ProposerState::Idle)
    }

    /// Handles a proposer's `record(step, proposal)` and builds the reply.
    pub fn record(&mut self, now: u64, slot: Slot, step: u32, proposal: Proposal) -> (r: Payload)
        requires
            step > 0,
            old(self)@.recorder matches RecorderView::Open(isr) ==> isr.wf(),
        ensures
            final(self)@ == old(self)@.recorded(now, step, proposal@),
            final(self).proposer == old(self).proposer,
            final(self)@.recorder matches RecorderView::Open(isr) ==> isr.wf(),
            r@ == old(self)@.record_reply(slot, step, proposal@),
    {
        match &mut self.recorder {
            RecorderSlot::Decided(value) => Payload::Decide { slot, value: share(value) },
            RecorderSlot::Open(isr) => {
                let request = proposal.clone();
                let (summary, changed) = isr.record(step, proposal);
                // Only genuine register changes extend hedging deadlines: a
                // proposer stuck retransmitting the same step must not
                // suppress the hedged proposers that would rescue the slot
                // (its retransmissions are byte-identical).
                if changed {
                    self.last_progress = now;
                }
                // Elide the echo only for same-step replies: that is the only
                // case the proposer can reconstruct from its own cached send
                // (and the only case it commonly happens: the fast path).
                let first = if summary.step == step {
                    reply_first(&summary.first, &request)
                } else {
                    ReplyFirst::Full(summary.first)
                };
                Payload::RecordReply {
                    slot,
                    req_step: step,
                    step: summary.step,
                    first,
                    prior_agg: summary.prior_agg,
                }
            },
        }
    }

    /// Handles a recorder's reply.
    pub fn answer(
        &mut self,
        m: Member,
        now: u64,
        rng: &mut Rng,
        from_idx: usize,
        req_step: u32,
        reply_step: u32,
        first: ReplyFirst,
        prior_agg: Option<Proposal>,
    ) -> (r: Progress)
        requires
            m.wf(),
            old(self).wf(m.n as nat),
            from_idx < m.n,
        ensures
            final(self)@ == old(self)@.answered(
                m,
                now,
                *old(rng),
                from_idx as int,
                req_step,
                reply_step,
                first@,
                proposal_opt(prior_agg),
            ),
            final(self).wf(m.n as nat),
            *final(rng) == old(self)@.answered_rng(
                m,
                *old(rng),
                from_idx as int,
                req_step,
                reply_step,
                first@,
                proposal_opt(prior_agg),
            ),
            r@ == old(self)@.answer_progress(
                m,
                from_idx as int,
                req_step,
                reply_step,
                first@,
                proposal_opt(prior_agg),
            ),
    {
        match &mut self.proposer {
            ProposerState::Running(run) => {
                let f = match first {
                    ReplyFirst::Full(proposal) => proposal,
                    ReplyFirst::Echo => {
                        if req_step != run.step {
                            // Stale echo: the send it refers to is no longer
                            // cached. Retransmission covers the loss.
                            return Progress::Wait;
                        }
                        run.proposal_for(from_idx)
                    },
                };
                absorb(&mut *run, m, now, rng, from_idx, req_step, reply_step, f, prior_agg)
            },
            _ => Progress::Wait,
        }
    }

    /// Transmits the running proposer's step to the local recorder and begins
    /// every step that this leads to. `Send` asks the caller to broadcast the
    /// run's current step to the other recorders.
    pub fn drive(&mut self, m: Member, now: u64, rng: &mut Rng) -> (r: Progress)
        requires
            m.wf(),
            old(self).wf(m.n as nat),
        ensures
            (Driven { slot: final(self)@, rng: *final(rng), next: r@ }) == old(self)@.driven(
                m,
                now,
                *old(rng),
            ),
            final(self).wf(m.n as nat),
            r@ is Send ==> final(self)@.is_running(),
    {
        loop
            invariant
                m.wf(),
                self.wf(m.n as nat),
                self@.driven(m, now, *rng) == old(self)@.driven(m, now, *old(rng)),
            decreases self@.steps_left(),
        {
            let ghost before = *self;
            let ghost rng_before = *rng;
            match &mut self.proposer {
                ProposerState::Running(run) => {
                    if !run.needs_send {
                        return Progress::Wait;
                    }
                    match &mut self.recorder {
                        RecorderSlot::Decided(_) => {
                            // The slot decided while this proposer was
                            // mid-flight.
                            self.proposer = ProposerState::Done;
                            return Progress::Wait;
                        },
                        RecorderSlot::Open(isr) => {
                            run.needs_send = false;
                            run.sent_at = now;
                            let step = run.step;
                            let my_proposal = run.proposal_for(m.me_idx);
                            let (summary, _) = isr.record(step, my_proposal);
                            let progress = absorb(
                                &mut *run,
                                m,
                                now,
                                rng,
                                m.me_idx,
                                step,
                                summary.step,
                                summary.first,
                                summary.prior_agg,
                            );
                            match progress {
                                Progress::Decided(value) => {
                                    return Progress::Decided(value);
                                },
                                Progress::Wait => {
                                    return Progress::Send;
                                },
                                Progress::Send => {},
                            }
                        },
                    }
                },
                _ => {
                    return Progress::Wait;
                },
            }
            assert(before@.self_recorded(m, now, rng_before) == (Driven {
                slot: self@,
                rng: *rng,
                next: ProgressView::Send,
            }));
        }
    }
}

} // verus!
