//! The proposer role for one slot.

use vstd::prelude::*;

use crate::recorder::{agg_less, clone_opt};
use crate::rng::Rng;
use crate::types::{
    larger_opt, share, Bytes, Priority, Proposal, ProposalView, ReplicaId, PRIORITY_H,
};
use crate::wire::proposal_opt;

verus! {

/// This replica's place in the group: its id, its index in the schedule, the
/// size of the group, and the size of a quorum.
#[derive(Clone, Copy, Debug, PartialEq, Eq, Structural)]
pub struct Member {
    pub me: ReplicaId,
    pub me_idx: usize,
    pub n: usize,
    pub quorum: usize,
}

impl Member {
    pub open spec fn wf(self) -> bool {
        &&& self.me_idx < self.n
        &&& self.quorum == self.n / 2 + 1
    }
}

/// The proposer role for one slot.
///
/// `Idle` proposers are hedging candidates: they hold no state and activate
/// only when the slot makes no observed progress for their position in the
/// hedging schedule. `Done` means the slot is decided locally.
pub enum ProposerState {
    Idle,
    Running(Box<Run>),
    Done,
}

/// An active proposer's state for one slot.
pub struct Run {
    /// Current step `s = 4 * round + phase`, starting at 4 (round 1 phase 0).
    pub step: u32,
    /// Current proposal template `p`. During a randomized phase 0 the
    /// priority and proposer components are overridden per recorder by
    /// `proposal_for`; the template is what phases 1-3 spread verbatim.
    pub proposal: Proposal,
    /// Per-recorder (by schedule index) priority draws for the current step,
    /// non-empty exactly when this step is a randomized phase 0. Cached so
    /// retransmissions are byte-identical: a re-draw would give this proposer
    /// two distinct identities within one step.
    pub phase0_priorities: Vec<Priority>,
    /// Which recorders (by schedule index) have been counted this step.
    pub replied: Vec<bool>,
    pub reply_count: usize,
    /// Running max of the `F_c` components of counted replies.
    pub best_first: Option<Proposal>,
    /// Running max of the non-nil `A_p` components of counted replies.
    pub best_agg: Option<Proposal>,
    /// Whether every counted reply's `F_c` carried the reserved priority `H`.
    pub all_first_high: bool,
    /// When the current step was last transmitted (drives retransmission).
    pub sent_at: u64,
    /// Whether the current step still needs to be (re)broadcast.
    pub needs_send: bool,
}

/// What a [`Run`] holds.
#[verifier::ext_equal]
pub struct RunView {
    pub step: u32,
    pub proposal: ProposalView,
    pub priorities: Seq<Priority>,
    pub replied: Seq<bool>,
    pub best_first: Option<ProposalView>,
    pub best_agg: Option<ProposalView>,
    pub all_first_high: bool,
    pub sent_at: u64,
    pub needs_send: bool,
}

/// What a [`ProposerState`] holds.
#[verifier::ext_equal]
pub enum ProposerView {
    Idle,
    Running(RunView),
    Done,
}

/// Result of folding one recorder reply into a run.
pub enum Folded {
    /// Duplicate, stale, or below-quorum reply: nothing to do yet.
    Ignored,
    /// The recorder is ahead: adopt its state and re-execute from there.
    CatchUp { step: u32, adopt: Proposal },
    /// This reply completed the quorum for the current step.
    Quorum,
}

/// What a [`Folded`] holds.
#[verifier::ext_equal]
pub enum FoldedView {
    Ignored,
    CatchUp { step: u32, adopt: ProposalView },
    Quorum,
}

/// Result of completing a step at quorum.
pub enum StepOutcome {
    /// Consensus reached: the slot decides this value.
    Decided(Bytes),
    /// Advanced to the next step; it needs to be sent.
    Advance,
    /// Defensive stall (phase 3 with all-nil aggregates, which quorum
    /// intersection makes impossible, or no step number left): re-collect the
    /// same step via retransmission instead of advancing unsafely.
    Retry,
}

/// What a [`StepOutcome`] holds.
#[verifier::ext_equal]
pub enum OutcomeView {
    Decided(Seq<u8>),
    Advance,
    Retry,
}

impl View for Run {
    type V = RunView;

    open spec fn view(&self) -> RunView {
        RunView {
            step: self.step,
            proposal: self.proposal@,
            priorities: self.phase0_priorities@,
            replied: self.replied@,
            best_first: proposal_opt(self.best_first),
            best_agg: proposal_opt(self.best_agg),
            all_first_high: self.all_first_high,
            sent_at: self.sent_at,
            needs_send: self.needs_send,
        }
    }
}

impl View for ProposerState {
    type V = ProposerView;

    open spec fn view(&self) -> ProposerView {
        match self {
            ProposerState::Idle => ProposerView::Idle,
            ProposerState::Running(run) => ProposerView::Running(run@),
            ProposerState::Done => ProposerView::Done,
        }
    }
}

impl View for Folded {
    type V = FoldedView;

    open spec fn view(&self) -> FoldedView {
        match self {
            Folded::Ignored => FoldedView::Ignored,
            Folded::CatchUp { step, adopt } => FoldedView::CatchUp { step: *step, adopt: adopt@ },
            Folded::Quorum => FoldedView::Quorum,
        }
    }
}

impl View for StepOutcome {
    type V = OutcomeView;

    open spec fn view(&self) -> OutcomeView {
        match self {
            StepOutcome::Decided(value) => OutcomeView::Decided(value@),
            StepOutcome::Advance => OutcomeView::Advance,
            StepOutcome::Retry => OutcomeView::Retry,
        }
    }
}

/// How many entries of `flags` are set.
pub open spec fn set_count(flags: Seq<bool>) -> nat
    decreases flags.len(),
{
    if flags.len() == 0 {
        0
    } else {
        set_count(flags.drop_last()) + if flags.last() {
            1nat
        } else {
            0nat
        }
    }
}

/// `n` flags, none of them set.
pub open spec fn none_set(n: nat) -> Seq<bool> {
    Seq::new(n, |i: int| false)
}

pub proof fn lemma_set_count_update(flags: Seq<bool>, i: int)
    requires
        0 <= i < flags.len(),
        !flags[i],
    ensures
        set_count(flags.update(i, true)) == set_count(flags) + 1,
    decreases flags.len(),
{
    let after = flags.update(i, true);
    if i == flags.len() - 1 {
        assert(after.drop_last() =~= flags.drop_last());
    } else {
        assert(after.drop_last() =~= flags.drop_last().update(i, true));
        lemma_set_count_update(flags.drop_last(), i);
    }
}

pub proof fn lemma_set_count_bound(flags: Seq<bool>)
    ensures
        set_count(flags) <= flags.len(),
    decreases flags.len(),
{
    if flags.len() > 0 {
        lemma_set_count_bound(flags.drop_last());
    }
}

pub proof fn lemma_none_set(n: nat)
    ensures
        set_count(none_set(n)) == 0,
    decreases n,
{
    if n > 0 {
        assert(none_set(n).drop_last() =~= none_set((n - 1) as nat));
        lemma_none_set((n - 1) as nat);
    }
}

/// `n` independent priority draws, uniform over `[1, H - 1]`.
pub open spec fn drawn(rng: Rng, n: nat) -> Seq<Priority>
    decreases n,
{
    if n == 0 {
        Seq::empty()
    } else {
        let before = after_draws(rng, (n - 1) as nat);
        drawn(rng, (n - 1) as nat).push(before.draw(1, (PRIORITY_H - 1) as u64) as Priority)
    }
}

/// The generator after `n` draws.
pub open spec fn after_draws(rng: Rng, n: nat) -> Rng
    decreases n,
{
    if n == 0 {
        rng
    } else {
        after_draws(rng, (n - 1) as nat).advanced()
    }
}

pub proof fn lemma_drawn(rng: Rng, n: nat)
    ensures
        drawn(rng, n).len() == n,
        forall|i: int| 0 <= i < n ==> 1 <= #[trigger] drawn(rng, n)[i] < PRIORITY_H,
    decreases n,
{
    if n > 0 {
        lemma_drawn(rng, (n - 1) as nat);
        let before = after_draws(rng, (n - 1) as nat);
        crate::rng::draws_stay_in_range(before, 1, (PRIORITY_H - 1) as u64);
    }
}

impl RunView {
    /// A run tracks every recorder of a group of `n`, is past round 0, has
    /// one priority per recorder or none, and has a best first proposal once
    /// a reply was counted.
    pub open spec fn wf(self, n: nat) -> bool {
        &&& self.step >= 4
        &&& self.replied.len() == n
        &&& self.priorities.len() == 0 || self.priorities.len() == n
        &&& set_count(self.replied) > 0 ==> self.best_first is Some
    }

    /// The run with fresh priority draws: it proposes the carried value under
    /// its own identity.
    pub open spec fn with_draws(self, m: Member, rng: Rng) -> RunView {
        let priorities = drawn(rng, m.n as nat);
        RunView {
            priorities,
            proposal: ProposalView {
                priority: priorities[m.me_idx as int],
                proposer: m.me,
                value: self.proposal.value,
            },
            ..self
        }
    }

    /// A fresh run at round 1 phase 0 with value `value`: the leader proposes
    /// it to every recorder with the reserved priority, anyone else with
    /// random ones.
    pub open spec fn started(value: Seq<u8>, m: Member, fast: bool, now: u64, rng: Rng) -> RunView {
        let run = RunView {
            step: 4,
            proposal: ProposalView { priority: PRIORITY_H, proposer: m.me, value },
            priorities: Seq::empty(),
            replied: none_set(m.n as nat),
            best_first: None,
            best_agg: None,
            all_first_high: true,
            sent_at: now,
            needs_send: true,
        };
        if fast {
            run
        } else {
            run.with_draws(m, rng)
        }
    }

    /// The exact proposal sent to the recorder at schedule index `idx` for
    /// the current step.
    pub open spec fn proposal_for(self, idx: int) -> ProposalView {
        if self.priorities.len() == 0 {
            self.proposal
        } else {
            ProposalView { priority: self.priorities[idx], ..self.proposal }
        }
    }

    /// The run with no reply counted.
    pub open spec fn untracked(self) -> RunView {
        RunView {
            replied: none_set(self.replied.len()),
            best_first: None,
            best_agg: None,
            all_first_high: true,
            ..self
        }
    }

    /// Whether beginning the current step draws random priorities: phase 0 of
    /// every round, but for the leader's first.
    pub open spec fn randomized(self, leader_first_round: bool) -> bool {
        self.step % 4 == 0 && !(self.step == 4 && leader_first_round)
    }

    /// The run at the beginning of its current step.
    pub open spec fn begun(self, m: Member, leader_first_round: bool, now: u64, rng: Rng) -> RunView {
        let fresh = RunView {
            priorities: Seq::empty(),
            sent_at: now,
            needs_send: true,
            ..self.untracked()
        };
        if self.randomized(leader_first_round) {
            fresh.with_draws(m, rng)
        } else {
            fresh
        }
    }

    /// The generator after beginning the current step.
    pub open spec fn begun_rng(self, m: Member, leader_first_round: bool, rng: Rng) -> Rng {
        if self.randomized(leader_first_round) {
            after_draws(rng, m.n as nat)
        } else {
            rng
        }
    }

    /// Whether a reply counts: it answers the current step, from a recorder
    /// in that step, not counted yet.
    pub open spec fn counts(self, from_idx: int, req_step: u32, reply_step: u32) -> bool {
        req_step == self.step && reply_step == self.step && !self.replied[from_idx]
    }

    /// The run after a reply, which changes it only where it counts.
    pub open spec fn folded(
        self,
        from_idx: int,
        req_step: u32,
        reply_step: u32,
        first: ProposalView,
        prior_agg: Option<ProposalView>,
    ) -> RunView {
        if self.counts(from_idx, req_step, reply_step) {
            RunView {
                replied: self.replied.update(from_idx, true),
                all_first_high: self.all_first_high && first.priority == PRIORITY_H,
                best_first: Some(larger_opt(self.best_first, first)),
                best_agg: match prior_agg {
                    None => self.best_agg,
                    Some(agg) => Some(larger_opt(self.best_agg, agg)),
                },
                ..self
            }
        } else {
            self
        }
    }

    /// What a reply amounts to.
    pub open spec fn fold_result(
        self,
        from_idx: int,
        req_step: u32,
        reply_step: u32,
        first: ProposalView,
        quorum: nat,
    ) -> FoldedView {
        if reply_step > self.step {
            FoldedView::CatchUp { step: reply_step, adopt: first }
        } else if self.counts(from_idx, req_step, reply_step) && set_count(self.replied) + 1
            == quorum {
            FoldedView::Quorum
        } else {
            FoldedView::Ignored
        }
    }

    /// What completing the current step amounts to: phase 0 decides when the
    /// whole quorum saw the reserved priority first; phase 2 decides when the
    /// best aggregate is the run's own proposal.
    pub open spec fn outcome(self) -> OutcomeView {
        if self.step % 4 == 0 {
            if self.all_first_high {
                OutcomeView::Decided(self.best_first->0.value)
            } else {
                OutcomeView::Advance
            }
        } else if self.step % 4 == 1 {
            OutcomeView::Advance
        } else if self.step % 4 == 2 {
            if self.best_agg == Some(self.proposal) {
                OutcomeView::Decided(self.proposal.value)
            } else {
                OutcomeView::Advance
            }
        } else {
            if self.best_agg is None || self.step == u32::MAX {
                OutcomeView::Retry
            } else {
                OutcomeView::Advance
            }
        }
    }

    /// The run after completing the current step. Phase 0 adopts the best
    /// first proposal and phase 3 the best aggregate.
    pub open spec fn completed(self) -> RunView {
        match self.outcome() {
            OutcomeView::Decided(_) => self,
            OutcomeView::Retry => self.untracked(),
            OutcomeView::Advance => RunView {
                step: (self.step + 1) as u32,
                proposal: if self.step % 4 == 0 {
                    self.best_first->0
                } else if self.step % 4 == 3 {
                    self.best_agg->0
                } else {
                    self.proposal
                },
                ..self
            },
        }
    }
}

impl Run {
    /// The run's state is consistent for a group of `n`.
    pub open spec fn wf(&self, n: nat) -> bool {
        &&& self@.wf(n)
        &&& self.reply_count == set_count(self.replied@)
    }

    /// Starts a proposer at round 1 phase 0 (`s = 4`) with a fresh value.
    /// This is the only way a new value ever enters a slot.
    pub fn start(value: Bytes, m: Member, fast_path_leader: bool, now: u64, rng: &mut Rng) -> (r: Run)
        requires
            m.wf(),
        ensures
            r@ == RunView::started(value@, m, fast_path_leader, now, *old(rng)),
            r.wf(m.n as nat),
            *final(rng) == (if fast_path_leader {
                *old(rng)
            } else {
                after_draws(*old(rng), m.n as nat)
            }),
    {
        let replied = cleared(m.n);
        let mut run = Run {
            step: 4,
            proposal: Proposal { priority: PRIORITY_H, proposer: m.me, value },
            phase0_priorities: Vec::new(),
            replied,
            reply_count: 0,
            best_first: None,
            best_agg: None,
            all_first_high: true,
            sent_at: now,
            needs_send: true,
        };
        proof {
            lemma_none_set(m.n as nat);
            lemma_drawn(*rng, m.n as nat);
        }
        assert(run.phase0_priorities@ =~= Seq::empty());
        if !fast_path_leader {
            run.draw_priorities(m, rng);
        }
        run
    }

    fn draw_priorities(&mut self, m: Member, rng: &mut Rng)
        requires
            m.wf(),
        ensures
            final(self)@ == old(self)@.with_draws(m, *old(rng)),
            final(self).reply_count == old(self).reply_count,
            *final(rng) == after_draws(*old(rng), m.n as nat),
    {
        // One independent draw per recorder (the proposer chooses a random
        // priority "on behalf of each recorder"), uniform over [1, H - 1]; H
        // is reserved for the fast-path leader.
        let mut priorities: Vec<Priority> = Vec::new();
        let mut i: usize = 0;
        assert(priorities@ =~= drawn(*old(rng), 0));
        while i < m.n
            invariant
                i <= m.n,
                priorities@ == drawn(*old(rng), i as nat),
                *rng == after_draws(*old(rng), i as nat),
            decreases m.n - i,
        {
            let draw = rng.range_inclusive(1, PRIORITY_H as u64 - 1);
            priorities.push(draw as Priority);
            i += 1;
        }
        proof {
            lemma_drawn(*old(rng), m.n as nat);
        }
        self.phase0_priorities = priorities;
        // A randomized phase 0 proposes the carried value under our own
        // identity (the abstract algorithm's fresh per-round proposal).
        self.proposal.proposer = m.me;
        self.proposal.priority = self.phase0_priorities[m.me_idx];
    }

    /// The exact proposal transmitted to the recorder at schedule index
    /// `idx` for the current step. Deterministic given the run state, which
    /// makes retransmissions byte-identical and lets recorders elide echoes.
    pub fn proposal_for(&self, idx: usize) -> (r: Proposal)
        requires
            self@.priorities.len() == 0 || idx < self@.priorities.len(),
        ensures
            r@ == self@.proposal_for(idx as int),
    {
        if self.phase0_priorities.is_empty() {
            self.proposal.clone()
        } else {
            Proposal {
                priority: self.phase0_priorities[idx],
                proposer: self.proposal.proposer,
                value: share(&self.proposal.value),
            }
        }
    }

    fn reset_tracking(&mut self)
        ensures
            final(self)@ == old(self)@.untracked(),
            final(self).reply_count == 0,
    {
        self.replied = cleared(self.replied.len());
        self.reply_count = 0;
        self.best_first = None;
        self.best_agg = None;
        self.all_first_high = true;
    }

    /// Prepares the current step for (re)broadcast after an advance or
    /// catch-up: resets reply tracking and, for randomized phase-0 steps,
    /// draws fresh per-recorder priorities.
    pub fn begin_step(&mut self, m: Member, leader_first_round: bool, now: u64, rng: &mut Rng)
        requires
            m.wf(),
            old(self)@.step >= 4,
            old(self)@.replied.len() == m.n,
        ensures
            final(self)@ == old(self)@.begun(m, leader_first_round, now, *old(rng)),
            final(self).wf(m.n as nat),
            *final(rng) == old(self)@.begun_rng(m, leader_first_round, *old(rng)),
    {
        self.reset_tracking();
        self.phase0_priorities = Vec::new();
        assert(self.phase0_priorities@ =~= Seq::empty());
        proof {
            lemma_none_set(m.n as nat);
            lemma_drawn(*rng, m.n as nat);
        }
        if self.step % 4 == 0 && !(self.step == 4 && leader_first_round) {
            self.draw_priorities(m, rng);
        }
        self.sent_at = now;
        self.needs_send = true;
    }

    /// Folds one recorder reply (already reconstituted if it was an echo)
    /// into the current step.
    pub fn fold(
        &mut self,
        from_idx: usize,
        req_step: u32,
        reply_step: u32,
        first: Proposal,
        prior_agg: Option<Proposal>,
        quorum: usize,
    ) -> (r: Folded)
        requires
            old(self).wf(old(self)@.replied.len()),
            from_idx < old(self)@.replied.len(),
        ensures
            final(self)@ == old(self)@.folded(
                from_idx as int,
                req_step,
                reply_step,
                first@,
                proposal_opt(prior_agg),
            ),
            final(self).wf(old(self)@.replied.len()),
            r@ == old(self)@.fold_result(
                from_idx as int,
                req_step,
                reply_step,
                first@,
                quorum as nat,
            ),
    {
        if reply_step > self.step {
            // The recorder is ahead of us: adopt its step and first proposal
            // wholesale. Never re-attach our own value here; a decision may
            // already depend on the adopted one.
            return Folded::CatchUp { step: reply_step, adopt: first };
        }
        if req_step != self.step || reply_step != self.step || self.replied[from_idx] {
            return Folded::Ignored;
        }
        proof {
            lemma_set_count_update(self.replied@, from_idx as int);
            lemma_set_count_bound(self.replied@.update(from_idx as int, true));
            assert(self.replied@.len() == self.replied.len());
        }
        self.replied.set(from_idx, true);
        self.reply_count = self.reply_count + 1;
        self.all_first_high = self.all_first_high && first.priority == PRIORITY_H;
        if agg_less(&self.best_first, &first) {
            self.best_first = Some(first);
        }
        if let Some(agg) = prior_agg {
            if agg_less(&self.best_agg, &agg) {
                self.best_agg = Some(agg);
            }
        }
        if self.reply_count == quorum {
            Folded::Quorum
        } else {
            Folded::Ignored
        }
    }

    /// Executes the phase logic once a quorum of same-step replies is in.
    pub fn step_complete(&mut self) -> (r: StepOutcome)
        requires
            old(self).wf(old(self)@.replied.len()),
            old(self)@.best_first is Some,
        ensures
            final(self)@ == old(self)@.completed(),
            final(self).wf(old(self)@.replied.len()),
            r@ == old(self)@.outcome(),
    {
        let phase = self.step % 4;
        if phase == 0 {
            // Fast path: every recorder in the quorum saw a reserved-priority
            // proposal first, which only the round-1 leader sends, so its
            // value is already unbeatable.
            let best_first = self.best_first.as_ref().unwrap().clone();
            if self.all_first_high {
                return StepOutcome::Decided(best_first.value);
            }
            self.proposal = best_first;
        } else if phase == 1 {
            // Spread of the existent set: no proposer-side action.
        } else if phase == 2 {
            if let Some(best_agg) = &self.best_agg {
                if *best_agg == self.proposal {
                    return StepOutcome::Decided(share(&self.proposal.value));
                }
            }
        } else {
            match clone_opt(&self.best_agg) {
                Some(best_agg) if self.step < u32::MAX => {
                    self.proposal = best_agg;
                },
                _ => {
                    // Nil aggregates are impossible by quorum intersection
                    // with the phase-2 quorum that must precede any recorder
                    // reaching this step; stall defensively rather than
                    // advance with a stale proposal.
                    self.reset_tracking();
                    proof {
                        lemma_none_set(self.replied@.len());
                    }
                    return StepOutcome::Retry;
                },
            }
        }
        self.step = self.step + 1;
        StepOutcome::Advance
    }
}

/// `n` flags, none of them set.
fn cleared(n: usize) -> (r: Vec<bool>)
    ensures
        r@ == none_set(n as nat),
{
    let mut flags: Vec<bool> = Vec::new();
    let mut i: usize = 0;
    while i < n
        invariant
            i <= n,
            flags@ == none_set(i as nat),
        decreases n - i,
    {
        flags.push(false);
        assert(flags@ =~= none_set((i + 1) as nat));
        i += 1;
    }
    flags
}

} // verus!
