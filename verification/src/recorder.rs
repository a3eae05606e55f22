//! The recorder role: the interval summary register of one slot.

use vstd::prelude::*;

use crate::types::{larger_opt, proposal_order_is_total, Bytes, Proposal, ProposalView};
use crate::wire::{proposal_opt, ReplyFirst, ReplyFirstView};

verus! {

/// The interval summary register for one slot, the entirety of a recorder's
/// per-slot state while the slot is undecided.
///
/// Proposals play the role of the register's integers: the aggregate is the
/// maximum under the total `(priority, proposer, value)` order and `None` is
/// the nil value.
pub struct IsrSlot {
    /// Current logical clock step `S`.
    pub step: u32,
    /// First proposal received in the current step (`F_c`). `Some` whenever
    /// `step > 0`.
    pub first: Option<Proposal>,
    /// Maximum proposal seen in the current step (`A_c`).
    pub current_agg: Option<Proposal>,
    /// Maximum proposal seen in the prior step (`A_p`).
    pub prior_agg: Option<Proposal>,
}

/// What an [`IsrSlot`] holds.
#[verifier::ext_equal]
pub struct IsrView {
    pub step: u32,
    pub first: Option<ProposalView>,
    pub current_agg: Option<ProposalView>,
    pub prior_agg: Option<ProposalView>,
}

/// The `(S, F_c, A_p)` summary returned by `record`.
pub struct IsrSummary {
    pub step: u32,
    pub first: Proposal,
    pub prior_agg: Option<Proposal>,
}

impl View for IsrSlot {
    type V = IsrView;

    open spec fn view(&self) -> IsrView {
        IsrView {
            step: self.step,
            first: proposal_opt(self.first),
            current_agg: proposal_opt(self.current_agg),
            prior_agg: proposal_opt(self.prior_agg),
        }
    }
}

impl IsrView {
    /// The register before any invocation.
    pub open spec fn empty() -> IsrView {
        IsrView { step: 0, first: None, current_agg: None, prior_agg: None }
    }

    /// A register past step 0 has seen a first proposal.
    pub open spec fn wf(self) -> bool {
        self.step > 0 ==> self.first is Some
    }

    /// The register after `record(step, p)`: a proposal for the current step
    /// joins the aggregate; one for a later step starts that step, keeping
    /// the aggregate only of the step directly before it; a stale one is
    /// dropped.
    pub open spec fn record(self, step: u32, p: ProposalView) -> IsrView {
        if step == self.step {
            IsrView { current_agg: Some(larger_opt(self.current_agg, p)), ..self }
        } else if step > self.step {
            IsrView {
                step,
                first: Some(p),
                current_agg: Some(p),
                prior_agg: if step == self.step + 1 {
                    self.current_agg
                } else {
                    None
                },
            }
        } else {
            self
        }
    }
}

impl IsrSlot {
    pub fn new() -> (r: IsrSlot)
        ensures
            r@ == IsrView::empty(),
    {
        IsrSlot { step: 0, first: None, current_agg: None, prior_agg: None }
    }

    /// Handles one `record` invocation. The returned flag reports whether
    /// the register's state changed: byte-identical retransmissions and
    /// stale invocations leave it untouched, which callers use to
    /// distinguish real protocol progress from duplicate traffic.
    pub fn record(&mut self, step: u32, proposal: Proposal) -> (r: (IsrSummary, bool))
        requires
            old(self)@.wf(),
            step > 0,
        ensures
            final(self)@ == old(self)@.record(step, proposal@),
            final(self)@.wf(),
            r.0.step == final(self)@.step,
            final(self)@.first == Some(r.0.first@),
            final(self)@.prior_agg == proposal_opt(r.0.prior_agg),
            r.1 == (final(self)@ != old(self)@),
    {
        let mut changed = false;
        if step == self.step {
            if agg_less(&self.current_agg, &proposal) {
                proof {
                    proposal_order_is_total(proposal@, proposal@, proposal@);
                }
                self.current_agg = Some(proposal);
                changed = true;
            }
        } else if step > self.step {
            self.prior_agg = if step == self.step + 1 {
                self.current_agg.take()
            } else {
                None
            };
            self.step = step;
            self.first = Some(proposal.clone());
            self.current_agg = Some(proposal);
            changed = true;
        }
        // step < self.step: the invocation is stale; drop the proposal and
        // return the current summary so the caller can catch up.
        assert(self.first is Some);
        let first = self.first.as_ref().unwrap().clone();
        let prior_agg = clone_opt(&self.prior_agg);
        (IsrSummary { step: self.step, first, prior_agg }, changed)
    }
}

/// A copy of an optional proposal.
pub(crate) fn clone_opt(p: &Option<Proposal>) -> (r: Option<Proposal>)
    ensures
        proposal_opt(r) == proposal_opt(*p),
{
    match p {
        Some(x) => Some(x.clone()),
        None => None,
    }
}

/// Whether `candidate` ranks above the aggregate `current`.
pub fn agg_less(current: &Option<Proposal>, candidate: &Proposal) -> (r: bool)
    ensures
        r == (match current {
            None => true,
            Some(existing) => existing@.lt(candidate@),
        }),
{
    match current {
        None => true,
        Some(existing) => existing.below(candidate),
    }
}

/// A recorder's view of one slot: an open ISR, or the decided value.
pub enum RecorderSlot {
    Open(IsrSlot),
    Decided(Bytes),
}

/// What a [`RecorderSlot`] holds.
#[verifier::ext_equal]
pub enum RecorderView {
    Open(IsrView),
    Decided(Seq<u8>),
}

impl View for RecorderSlot {
    type V = RecorderView;

    open spec fn view(&self) -> RecorderView {
        match self {
            RecorderSlot::Open(isr) => RecorderView::Open(isr@),
            RecorderSlot::Decided(value) => RecorderView::Decided(value@),
        }
    }
}

impl RecorderSlot {
    pub fn new() -> (r: RecorderSlot)
        ensures
            r@ == RecorderView::Open(IsrView::empty()),
    {
        RecorderSlot::Open(IsrSlot::new())
    }
}

/// The `first` field of a reply: elided when the recorded first proposal is
/// exactly the request's own proposal.
pub open spec fn elided(first: ProposalView, request: ProposalView) -> ReplyFirstView {
    if first == request {
        ReplyFirstView::Echo
    } else {
        ReplyFirstView::Full(first)
    }
}

/// Builds the `first` field of a `RecordReply`, eliding the value bytes when
/// the recorded first proposal is exactly the request's own proposal (the
/// common case on the fast path, where every recorder would otherwise echo
/// the leader's batch back at it).
pub fn reply_first(summary_first: &Proposal, request: &Proposal) -> (r: ReplyFirst)
    ensures
        r@ == elided(summary_first@, request@),
{
    if *summary_first == *request {
        ReplyFirst::Echo
    } else {
        ReplyFirst::Full(summary_first.clone())
    }
}

/// A register never goes back to an earlier step.
pub proof fn steps_are_monotone(isr: IsrView, step: u32, p: ProposalView)
    ensures
        isr.record(step, p).step >= isr.step,
        isr.record(step, p).step >= step,
{
}

/// The first proposal of a step, and the aggregate of the step before it, are
/// fixed while the register stays in that step.
pub proof fn first_is_immutable_within_a_step(isr: IsrView, step: u32, p: ProposalView)
    requires
        isr.record(step, p).step == isr.step,
    ensures
        isr.record(step, p).first == isr.first,
        isr.record(step, p).prior_agg == isr.prior_agg,
{
}

/// Recording the same proposal again changes nothing, so retransmissions are
/// harmless.
pub proof fn recording_is_idempotent(isr: IsrView, step: u32, p: ProposalView)
    ensures
        isr.record(step, p).record(step, p) == isr.record(step, p),
{
    proposal_order_is_total(p, p, p);
    if let Some(a) = isr.current_agg {
        proposal_order_is_total(a, p, a);
    }
}

/// What is recorded in a step reaches the next one: the summary of step
/// `step + 1` carries a proposal that was recorded in step `step` and that no
/// other outranks.
pub proof fn aggregates_reach_the_next_step(
    isr: IsrView,
    step: u32,
    p: ProposalView,
    q: ProposalView,
    r: ProposalView,
)
    requires
        isr.step < step < u32::MAX,
    ensures
        ({
            let after = isr.record(step, p).record(step, q).record((step + 1) as u32, r);
            &&& after.step == step + 1
            &&& after.first == Some(r)
            &&& after.prior_agg == Some(p) || after.prior_agg == Some(q)
            &&& p.le(after.prior_agg->0)
            &&& q.le(after.prior_agg->0)
            &&& isr.record(step, p).prior_agg is Some ==> isr.step + 1 == step
                && isr.record(step, p).prior_agg == isr.current_agg
            &&& isr.step + 1 == step ==> isr.record(step, p).prior_agg == isr.current_agg
        }),
{
    proposal_order_is_total(p, q, p);
    proposal_order_is_total(q, p, q);
}

} // verus!
