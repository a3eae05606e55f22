//! What a replica of a group of two or more sends for a slot: when its
//! proposer transmits a step, and that nothing but an answer decides.

use vstd::prelude::*;

use crate::proposer::{
    lemma_none_set, lemma_set_count_update, set_count, Member, ProposerView, RunView,
};
use crate::recorder::RecorderView;
use crate::rng::Rng;
use crate::slot::{ProgressView, SlotView};
use crate::state::{batch_of, least, ActionView, State};
use crate::types::{batch_bytes, Slot};
use crate::wire::{MessageView, PayloadView};

verus! {

/// Whether an effect is the transmission of a step for slot `k`.
pub open spec fn is_record(a: ActionView, k: u64) -> bool {
    a matches ActionView::Send { message, .. } && message.payload matches PayloadView::Record {
        slot,
        ..
    } && slot.0 == k
}

/// The transmissions of steps for slot `k` among `actions`.
pub open spec fn records_in(actions: Seq<ActionView>, k: u64) -> Seq<ActionView>
    decreases actions.len(),
{
    if actions.len() == 0 {
        Seq::empty()
    } else {
        let before = records_in(actions.drop_last(), k);
        if is_record(actions.last(), k) {
            before.push(actions.last())
        } else {
            before
        }
    }
}

pub proof fn lemma_records_push(actions: Seq<ActionView>, a: ActionView, k: u64)
    ensures
        records_in(actions.push(a), k) == (if is_record(a, k) {
            records_in(actions, k).push(a)
        } else {
            records_in(actions, k)
        }),
{
    assert(actions.push(a).drop_last() =~= actions);
}

impl SlotView {
    /// Whether the running proposer, if there is one, has its own recorder's
    /// answer or is in phase 3, or is about to begin its step.
    pub open spec fn poised(self, me: int) -> bool {
        self.proposer matches ProposerView::Running(run) ==> {
            ||| run.replied[me]
            ||| run.step % 4 == 3
            ||| run.needs_send && set_count(run.replied) == 0
        }
    }

    /// Whether the running proposer, if there is one, has transmitted its step
    /// and has its own recorder's answer or is in phase 3.
    pub open spec fn rested(self, me: int) -> bool {
        self.proposer matches ProposerView::Running(run) ==> !run.needs_send && (run.replied[me]
            || run.step % 4 == 3)
    }

    /// Whether the running proposer's step has been transmitted, and the local
    /// recorder is in that step.
    pub open spec fn standing(self, me: int) -> bool {
        &&& self.proposer matches ProposerView::Running(run)
        &&& self.recorder matches RecorderView::Open(isr)
        &&& !run.needs_send
        &&& isr.step == run.step
        &&& run.replied[me] || set_count(run.replied) == 0
    }

    /// In a group of two or more, driving never decides: it transmits a step
    /// and leaves the slot standing, or leaves it alone.
    pub proof fn lemma_driven_poised(self, m: Member, now: u64, rng: Rng)
        requires
            m.wf(),
            m.n >= 2,
            self.wf(m.n as nat),
            self.poised(m.me_idx as int),
            self.proposer is Running,
        ensures
            ({
                let d = self.driven(m, now, rng);
                &&& d.slot.rested(m.me_idx as int)
                &&& d.next !is Decided
                &&& d.next is Send ==> d.slot.standing(m.me_idx as int)
                    && d.slot.proposer->Running_0.sent_at == now
                &&& d.next is Wait ==> d.slot == self || d.slot.proposer is Done
                &&& self.proposer->Running_0.needs_send && !self.is_decided() ==> d.next is Send
            }),
        decreases self.steps_left(),
    {
        let run = self.proposer->Running_0;
        let me = m.me_idx as int;
        if run.needs_send && !self.is_decided() {
            let sent = RunView { needs_send: false, sent_at: now, ..run };
            let isr1 = self.recorder->Open_0.record(run.step, sent.proposal_for(me));
            sent.lemma_absorbed_wf(
                m,
                now,
                rng,
                me,
                run.step,
                isr1.step,
                isr1.first->0,
                isr1.prior_agg,
            );
            let d = self.self_recorded(m, now, rng);
            if !run.replied[me] {
                lemma_set_count_update(run.replied, me);
            }
            lemma_none_set(m.n as nat);
            if d.next is Send {
                d.slot.lemma_driven_poised(m, now, d.rng);
            }
        }
    }
}

impl State {
    pub open spec fn rested(self) -> bool {
        forall|k: u64| #[trigger]
            self.slots.contains_key(k) ==> self.slots[k].rested(self.m.me_idx as int)
    }

    /// Whether slot `j` may be driven, and all others rest.
    pub open spec fn poised(self, j: u64) -> bool {
        forall|k: u64| #[trigger]
            self.slots.contains_key(k) ==> {
                &&& k != j ==> self.slots[k].rested(self.m.me_idx as int)
                &&& self.slots[k].poised(self.m.me_idx as int)
            }
    }

    /// Whether the proposer for slot `k` runs.
    pub open spec fn runs(self, k: u64) -> bool {
        self.slots.contains_key(k) && self.slots[k].is_running()
    }

    /// Whether slot `k` is in `t` as it is here.
    pub open spec fn leaves(self, t: State, k: u64) -> bool {
        t.slots.contains_key(k) && t.slots[k] == self.slots[k]
    }

    /// The step of the proposer for slot `k` as transmitted to the first `j`
    /// replicas but this one, with the watermark `d` in the header.
    pub open spec fn records_upto(self, k: u64, d: u64, j: nat) -> Seq<ActionView>
        decreases j,
    {
        if j == 0 {
            Seq::empty()
        } else {
            let before = self.records_upto(k, d, (j - 1) as nat);
            let run = self.slots[k].proposer->Running_0;
            if j - 1 == self.m.me_idx {
                before
            } else {
                before.push(
                    ActionView::Send {
                        to: self.config.replicas[j - 1],
                        message: MessageView {
                            from: self.m.me,
                            decided: Slot(d),
                            payload: PayloadView::Record {
                                slot: Slot(k),
                                step: run.step,
                                proposal: run.proposal_for(j - 1),
                            },
                        },
                    },
                )
            }
        }
    }

    /// The step of the proposer for slot `k` as transmitted once to each other
    /// replica, with the watermark `d` in the header.
    pub open spec fn records(self, k: u64, d: u64) -> Seq<ActionView> {
        self.records_upto(k, d, self.m.n as nat)
    }

    pub proof fn lemma_records(self, k: u64, d: u64, j: nat)
        requires
            self.m.wf(),
            j <= self.m.n,
        ensures
            self.records_upto(k, d, j).len() == (if j > self.m.me_idx {
                j - 1
            } else {
                j as int
            }),
        decreases j,
    {
        if j > 0 {
            self.lemma_records(k, d, (j - 1) as nat);
        }
    }

    /// What is transmitted depends on the step, the proposal and the
    /// priorities only.
    pub proof fn lemma_like_records(self, t: State, k: u64, d: u64, j: nat)
        requires
            t.m == self.m,
            t.config == self.config,
            ({
                let a = self.slots[k].proposer->Running_0;
                let b = t.slots[k].proposer->Running_0;
                a.step == b.step && a.proposal == b.proposal && a.priorities == b.priorities
            }),
        ensures
            t.records_upto(k, d, j) == self.records_upto(k, d, j),
        decreases j,
    {
        if j > 0 {
            self.lemma_like_records(t, k, d, (j - 1) as nat);
        }
    }

    /// Whether the last that `more` holds is the step of the proposer for slot
    /// `k`, which it transmitted at `now` when the watermark was `d`.
    pub open spec fn stands_for(self, k: u64, d: u64, now: u64, more: Seq<ActionView>) -> bool {
        &&& self.slots[k].standing(self.m.me_idx as int)
        &&& self.slots[k].proposer->Running_0.sent_at == now
        &&& more.len() >= self.m.n - 1
        &&& more.skip(more.len() - (self.m.n - 1)) == self.records(k, d)
    }

    /// Whether `t` is this replica after work at `now` that transmitted `more`
    /// for slot `k`. Unless the work is about that slot, its proposer changes
    /// by transmitting only.
    pub open spec fn emits(
        self,
        t: State,
        k: u64,
        now: u64,
        about: bool,
        more: Seq<ActionView>,
    ) -> bool {
        &&& t.m == self.m
        &&& t.config == self.config
        &&& self.rested() ==> t.rested()
        &&& !self.can_deliver() ==> !t.can_deliver()
        &&& records_in(t.actions, k) == records_in(self.actions, k) + more
        &&& t.runs(k) && more.len() == 0 && !about ==> {
            &&& self.runs(k)
            &&& self.slots[k].proposer == t.slots[k].proposer
            &&& self.slots[k].recorder == t.slots[k].recorder
        }
        &&& t.runs(k) && more.len() > 0 ==> exists|d: u64| #[trigger] t.stands_for(k, d, now, more)
    }

    pub proof fn lemma_emits_trans(
        self,
        t: State,
        u: State,
        k: u64,
        now: u64,
        about: bool,
        a: Seq<ActionView>,
        b: Seq<ActionView>,
    )
        requires
            self.m.n >= 1,
            self.emits(t, k, now, about, a),
            t.emits(u, k, now, false, b),
        ensures
            self.emits(u, k, now, about, a + b),
    {
        let all = a + b;
        assert(records_in(u.actions, k) =~= records_in(self.actions, k) + all);
        if u.runs(k) && all.len() > 0 {
            if b.len() > 0 {
                let d = choose|d: u64| #[trigger] u.stands_for(k, d, now, b);
                assert(all.skip(all.len() - (u.m.n - 1)) =~= b.skip(b.len() - (u.m.n - 1)));
                assert(u.stands_for(k, d, now, all));
            } else {
                let d = choose|d: u64| #[trigger] t.stands_for(k, d, now, a);
                assert(all =~= a);
                t.lemma_like_records(u, k, d, u.m.n as nat);
                assert(u.stands_for(k, d, now, all));
            }
        }
    }

    /// Whether every proposer that runs in `t` runs here and stands as it did.
    pub open spec fn settles_into(self, t: State) -> bool {
        &&& t.m == self.m
        &&& t.config == self.config
        &&& forall|j: u64| #[trigger]
            t.runs(j) ==> self.runs(j) && self.slots[j].proposer == t.slots[j].proposer
                && self.slots[j].recorder == t.slots[j].recorder
    }

    /// Work that starts and changes no proposer, and transmits no step for
    /// slot `k`.
    pub proof fn lemma_emits_nothing(self, t: State, k: u64, now: u64)
        requires
            self.settles_into(t),
            !self.can_deliver() ==> !t.can_deliver(),
            records_in(t.actions, k) == records_in(self.actions, k),
        ensures
            self.emits(t, k, now, false, Seq::empty()),
    {
        assert(records_in(t.actions, k) =~= records_in(self.actions, k) + Seq::empty());
        if self.rested() {
            assert forall|j: u64| #[trigger] t.slots.contains_key(j) implies t.slots[j].rested(
                t.m.me_idx as int,
            ) by {
                if t.runs(j) {
                    assert(self.slots.contains_key(j));
                }
            }
        }
        assert(t.runs(k) ==> self.runs(k));
    }

    pub proof fn lemma_send_records_in(self, idx: int, payload: PayloadView, k: u64)
        ensures
            !(payload matches PayloadView::Record { slot, .. } && slot.0 == k) ==> records_in(
                self.send(idx, payload).actions,
                k,
            ) == records_in(self.actions, k),
    {
        lemma_records_push(self.actions, self.send(idx, payload).actions.last(), k);
    }

    pub proof fn lemma_send_upto_records_in(
        self,
        j: nat,
        payloads: spec_fn(int) -> PayloadView,
        k: u64,
    )
        requires
            forall|idx: int|
                !(#[trigger] payloads(idx) matches PayloadView::Record { slot, .. } && slot.0 == k),
        ensures
            records_in(self.send_upto(j, payloads).actions, k) == records_in(self.actions, k),
        decreases j,
    {
        if j > 0 {
            self.lemma_send_upto_records_in((j - 1) as nat, payloads, k);
            if j - 1 != self.m.me_idx {
                self.send_upto((j - 1) as nat, payloads).lemma_send_records_in(
                    j - 1,
                    payloads(j - 1),
                    k,
                );
            }
        }
    }

    /// Transmitting the step of slot `k`.
    pub proof fn lemma_transmit(self, k: u64, j: nat)
        ensures
            ({
                let run = self.slots[k].proposer->Running_0;
                let f = |idx: int|
                    PayloadView::Record {
                        slot: Slot(k),
                        step: run.step,
                        proposal: run.proposal_for(idx),
                    };
                records_in(self.send_upto(j, f).actions, k) == records_in(self.actions, k)
                    + self.records_upto(k, self.decided, j)
            }),
        decreases j,
    {
        let run = self.slots[k].proposer->Running_0;
        let f = |idx: int|
            PayloadView::Record { slot: Slot(k), step: run.step, proposal: run.proposal_for(idx) };
        if j > 0 {
            self.lemma_transmit(k, (j - 1) as nat);
            let s = self.send_upto((j - 1) as nat, f);
            self.lemma_send_upto_frame((j - 1) as nat, f);
            if j - 1 != self.m.me_idx {
                lemma_records_push(s.actions, s.send(j - 1, f(j - 1)).actions.last(), k);
            }
        }
        assert(records_in(self.send_upto(j, f).actions, k) =~= records_in(self.actions, k)
            + self.records_upto(k, self.decided, j));
    }

    /// Driving a slot transmits its step, or does nothing.
    pub proof fn lemma_drive_emits(self, now: u64, j: u64, k: u64) -> (more: Seq<ActionView>)
        requires
            self.wf(),
            self.m.n >= 2,
            self.poised(j),
        ensures
            self.emits(self.drive(now, j), k, now, false, more),
            self.drive(now, j).rested(),
            self.drive(now, j).decided == self.decided,
            j != k ==> more.len() == 0,
            j != k && self.slots.contains_key(k) ==> self.leaves(self.drive(now, j), k),
            j == k && self.runs(k) && self.slots[k].proposer->Running_0.needs_send ==> more
                == self.drive(now, j).records(k, self.decided) && more.len() == self.m.n - 1
                && self.drive(now, j).runs(k) && self.drive(now, j).stands_for(
                k,
                self.decided,
                now,
                more,
            ),
    {
        let t = self.drive(now, j);
        if self.runs(j) {
            let before = self.slots[j];
            before.lemma_driven_poised(self.m, now, self.rng);
            before.lemma_driven_wf(self.m, now, self.rng);
            let s = self.drive_local(now, j);
            match before.driven(self.m, now, self.rng).next {
                ProgressView::Wait => {
                    assert forall|x: u64| #[trigger] t.runs(x) implies self.runs(x)
                        && self.slots[x].proposer == t.slots[x].proposer && self.slots[x].recorder
                        == t.slots[x].recorder by {}
                    self.lemma_emits_nothing(t, k, now);
                    Seq::empty()
                },
                _ => {
                    let run = s.slots[j].proposer->Running_0;
                    let f = |idx: int|
                        PayloadView::Record {
                            slot: Slot(j),
                            step: run.step,
                            proposal: run.proposal_for(idx),
                        };
                    s.lemma_send_upto_frame(s.m.n as nat, f);
                    assert(t.rested());
                    if j == k {
                        s.lemma_transmit(k, s.m.n as nat);
                        s.lemma_records(k, s.decided, s.m.n as nat);
                        let more = s.records(k, s.decided);
                        s.lemma_like_records(t, k, s.decided, s.m.n as nat);
                        assert(more.skip(more.len() - (s.m.n - 1)) =~= more);
                        assert(t.stands_for(k, s.decided, now, more));
                        more
                    } else {
                        s.lemma_send_upto_records_in(s.m.n as nat, f, k);
                        assert(records_in(t.actions, k) =~= records_in(self.actions, k)
                            + Seq::empty());
                        Seq::empty()
                    }
                },
            }
        } else {
            if self.slots.contains_key(j) {
                assert(t.slots =~= self.slots);
            }
            self.lemma_emits_nothing(t, k, now);
            Seq::empty()
        }
    }

    pub proof fn lemma_activated_emits(self, now: u64, j: u64, value: Seq<u8>, k: u64) -> (more: Seq<
        ActionView,
    >)
        requires
            self.wf(),
            self.m.n >= 2,
            self.rested(),
            j > self.gc_floor,
        ensures
            self.emits(self.activated(now, j, value), k, now, false, more),
            self.activated(now, j, value).rested(),
            self.activated(now, j, value).decided == self.decided,
            self.runs(k) ==> self.leaves(self.activated(now, j, value), k) && more.len() == 0,
            j != k ==> more.len() == 0,
    {
        let s = self.observed(now, j);
        self.lemma_observed_wf(now, j);
        let u = self.activated(now, j, value);
        assert(self.settles_into(s));
        self.lemma_emits_nothing(s, k, now);
        assert(s.rested());
        if s.slots[j].proposer is Idle && !s.slots[j].is_decided() {
            let t = s.started(now, j, value);
            s.lemma_started_wf(now, j, value);
            lemma_none_set(s.m.n as nat);
            assert(t.poised(j));
            let more = t.lemma_drive_emits(now, j, k);
            assert(t.runs(j));
            if j == k {
                assert(self.emits(u, k, now, false, more));
            } else {
                assert(more =~= Seq::empty());
                assert(records_in(u.actions, k) =~= records_in(self.actions, k) + more);
            }
            more
        } else {
            Seq::empty()
        }
    }

    pub proof fn lemma_open_more_emits(self, now: u64, k: u64) -> (more: Seq<ActionView>)
        requires
            self.wf(),
            self.m.n >= 2,
            self.rested(),
        ensures
            self.emits(self.open_more(now), k, now, false, more),
            self.open_more(now).rested(),
            self.open_more(now).decided == self.decided,
            self.runs(k) ==> self.leaves(self.open_more(now), k) && more.len() == 0,
            self.slots.contains_key(k) ==> self.open_more(now).slots.contains_key(k) && more.len()
                == 0,
        decreases u64::MAX - self.max_open,
    {
        if self.can_open() {
            let j = (self.highest() + 1) as u64;
            let value = batch_bytes(self.next_batch());
            let s = self.opening();
            self.lemma_claimed_wf(j, self.next_batch());
            assert(s.wf());
            assert(self.settles_into(s));
            self.lemma_emits_nothing(s, k, now);
            if self.slots.contains_key(k) {
                self.lemma_last_known(k);
                s.lemma_activated_leaves(now, j, value, k);
            }
            let a = s.lemma_activated_emits(now, j, value, k);
            s.lemma_activated_wf(now, j, value);
            let t = s.activated(now, j, value);
            self.lemma_emits_trans(s, t, k, now, false, Seq::empty(), a);
            let b = t.lemma_open_more_emits(now, k);
            self.lemma_emits_trans(t, t.open_more(now), k, now, false, Seq::empty() + a, b);
            Seq::empty() + a + b
        } else {
            self.lemma_emits_nothing(self, k, now);
            Seq::empty()
        }
    }

    pub proof fn lemma_opened_emits(self, now: u64, k: u64) -> (more: Seq<ActionView>)
        requires
            self.wf(),
            self.m.n >= 2,
            self.rested(),
        ensures
            self.emits(self.opened(now), k, now, false, more),
            self.opened(now).rested(),
            self.opened(now).decided == self.decided,
            self.runs(k) ==> self.leaves(self.opened(now), k) && more.len() == 0,
            self.slots.contains_key(k) ==> more.len() == 0,
    {
        if self.m.leads() {
            let a = self.lemma_open_more_emits(now, k);
            let t = self.open_more(now);
            let u = t.refreshed(now);
            assert(t.settles_into(u));
            t.lemma_emits_nothing(u, k, now);
            self.lemma_emits_trans(t, u, k, now, false, a, Seq::empty());
            a + Seq::empty()
        } else {
            self.lemma_emits_nothing(self, k, now);
            Seq::empty()
        }
    }

    // ---- messages and submissions ----

    proof fn lemma_delivered_records(self, k: u64)
        ensures
            records_in(self.delivered().actions, k) == records_in(self.actions, k),
        decreases u64::MAX - self.decided,
    {
        if self.can_deliver() {
            let t = self.delivered_one();
            lemma_records_push(self.actions, t.actions.last(), k);
            t.lemma_delivered_records(k);
        }
    }

    proof fn lemma_evicted_part(self)
        ensures
            self.evicted().slots.submap_of(self.slots),
        decreases self.decided - self.gc_floor,
    {
        if self.kept() > self.config.max_retained_bytes && self.gc_floor < self.decided {
            let s = self.freed((self.gc_floor + 1) as u64);
            s.lemma_evicted_part();
            let t = self.evicted();
            assert forall|k: u64| #[trigger] t.slots.dom().contains(k) implies
                self.slots.dom().contains(k) && t.slots[k] == self.slots[k] by {
                assert(s.slots.dom().contains(k));
            }
        }
    }

    /// Garbage collection takes slots away only.
    pub proof fn lemma_gced_emits(self, k: u64, now: u64)
        requires
            self.wf(),
        ensures
            self.settles_into(self.gced()),
            self.emits(self.gced(), k, now, false, Seq::empty()),
    {
        self.lemma_gced_wf();
        let s = self.acknowledged();
        let u = s.freed(least(s.peer_acked));
        u.lemma_evicted_part();
        let t = self.gced();
        if self.decided < u64::MAX {
            self.lemma_gced_retained((self.decided + 1) as u64);
        }
        assert forall|j: u64| #[trigger] t.runs(j) implies self.runs(j) && self.slots[j].proposer
            == t.slots[j].proposer && self.slots[j].recorder == t.slots[j].recorder by {
            assert(t.slots.dom().contains(j));
            assert(u.slots.dom().contains(j));
        }
        self.lemma_emits_nothing(t, k, now);
    }

    pub proof fn lemma_settled_emits(
        self,
        now: u64,
        slot: u64,
        value: Seq<u8>,
        is_decider: bool,
        k: u64,
    )
        requires
            self.wf(),
        ensures
            self.emits(
                self.settled(now, slot, value, is_decider),
                k,
                now,
                false,
                Seq::empty(),
            ),
    {
        let t = self.settled(now, slot, value, is_decider);
        if self.drops(slot, value, is_decider) {
            self.lemma_emits_nothing(t, k, now);
        } else {
            let s = self.observed(now, slot);
            self.lemma_observed_wf(now, slot);
            if s.slots[slot].is_decided() {
                assert(self.settles_into(t));
                self.lemma_emits_nothing(t, k, now);
            } else {
                let s1 = s.installed(slot, value);
                s.lemma_installed_wf(slot, value);
                let f = |idx: int| PayloadView::Decide { slot: Slot(slot), value };
                s1.lemma_send_all_wf(f);
                s1.lemma_send_upto_frame(s1.m.n as nat, f);
                s1.lemma_send_upto_records_in(s1.m.n as nat, f, k);
                let s2 = if is_decider {
                    s1.send_all(f)
                } else {
                    s1
                };
                s2.lemma_released_wf(slot, batch_of(value));
                let s3 = s2.released(slot, batch_of(value)).refreshed(now);
                s3.lemma_delivered_wf();
                s3.lemma_delivered_frame();
                s3.lemma_delivered_records(k);
                let s5 = s3.delivered().acknowledged().refreshed(now);
                assert(self.settles_into(s5));
                self.lemma_emits_nothing(s5, k, now);
                assert(s5.wf());
                s5.lemma_gced_emits(k, now);
                self.lemma_emits_trans(s5, t, k, now, false, Seq::empty(), Seq::empty());
                assert(Seq::<ActionView>::empty() + Seq::<ActionView>::empty() =~= Seq::empty());
            }
        }
    }

    pub proof fn lemma_decide_emits(
        self,
        now: u64,
        slot: u64,
        value: Seq<u8>,
        is_decider: bool,
        k: u64,
    ) -> (more: Seq<ActionView>)
        requires
            self.wf(),
            self.m.n >= 2,
            self.rested(),
        ensures
            self.emits(self.decide(now, slot, value, is_decider), k, now, false, more),
            self.decide(now, slot, value, is_decider).rested(),
    {
        self.lemma_settled_emits(now, slot, value, is_decider, k);
        self.lemma_settled_wf(now, slot, value, is_decider);
        let t = self.settled(now, slot, value, is_decider);
        if self.settles(slot, value, is_decider) {
            let b = t.lemma_opened_emits(now, k);
            self.lemma_emits_trans(t, t.opened(now), k, now, false, Seq::empty(), b);
            Seq::empty() + b
        } else {
            Seq::empty()
        }
    }

    pub proof fn lemma_learned_emits(self, now: u64, first: u64, values: Seq<Seq<u8>>, k: u64) -> (
    more: Seq<ActionView>)
        requires
            self.wf(),
            self.m.n >= 2,
            self.rested(),
        ensures
            self.emits(self.learned(now, first, values), k, now, false, more),
            self.learned(now, first, values).rested(),
        decreases values.len(),
    {
        if values.len() == 0 {
            self.lemma_emits_nothing(self, k, now);
            Seq::empty()
        } else {
            let init = values.drop_last();
            let a = self.lemma_learned_emits(now, first, init, k);
            self.lemma_learned_wf(now, first, init);
            let s = self.learned(now, first, init);
            let slot = first + values.len() - 1;
            if slot > u64::MAX {
                a
            } else {
                let b = s.lemma_decide_emits(now, slot as u64, values.last(), false, k);
                let t = s.decide(now, slot as u64, values.last(), false);
                self.lemma_emits_trans(s, t, k, now, false, a, b);
                a + b
            }
        }
    }

    /// Whether a payload is about the state of slot `k`'s recorder or
    /// proposer.
    pub open spec fn concerns(payload: PayloadView, k: u64) -> bool {
        match payload {
            PayloadView::Record { slot, .. } => slot.0 == k,
            PayloadView::RecordReply { slot, .. } => slot.0 == k,
            _ => false,
        }
    }

    pub proof fn lemma_handled_emits(self, now: u64, idx: int, payload: PayloadView, k: u64) -> (
    more: Seq<ActionView>)
        requires
            self.wf(),
            self.m.n >= 2,
            self.rested(),
            0 <= idx < self.m.n,
        ensures
            self.emits(
                self.handled(now, idx, payload),
                k,
                now,
                State::concerns(payload, k),
                more,
            ),
            self.handled(now, idx, payload).rested(),
    {
        let t = self.handled(now, idx, payload);
        match payload {
            PayloadView::Record { slot, step, proposal } => {
                let s = self.observed(now, slot.0);
                if !(slot.0 <= self.gc_floor || step < 4 || slot.0 > self.decided
                    + self.ahead_window()) {
                    let u = State {
                        slots: s.slots.insert(
                            slot.0,
                            s.slots[slot.0].recorded(now, step, proposal),
                        ),
                        ..s
                    };
                    u.lemma_send_records_in(
                        idx,
                        s.slots[slot.0].record_reply(slot, step, proposal),
                        k,
                    );
                    assert(t.rested());
                    assert(records_in(t.actions, k) =~= records_in(self.actions, k)
                        + Seq::empty());
                } else {
                    self.lemma_emits_nothing(t, k, now);
                }
                Seq::empty()
            },
            PayloadView::RecordReply { slot, req_step, step, first, prior_agg } => {
                let j = slot.0;
                if self.slots.contains_key(j) {
                    let s = self.answered(now, idx, j, req_step, step, first, prior_agg);
                    self.lemma_answered_state_wf(now, idx, j, req_step, step, first, prior_agg);
                    self.lemma_answered_poised(now, idx, j, req_step, step, first, prior_agg);
                    assert(records_in(s.actions, k) =~= records_in(self.actions, k)
                        + Seq::empty());
                    match self.slots[j].answer_progress(
                        self.m,
                        idx,
                        req_step,
                        step,
                        first,
                        prior_agg,
                    ) {
                        ProgressView::Wait => Seq::empty(),
                        ProgressView::Send => {
                            let more = s.lemma_drive_emits(now, j, k);
                            assert(self.emits(t, k, now, j == k, more));
                            more
                        },
                        ProgressView::Decided(value) => {
                            let more = s.lemma_decide_emits(now, j, value, true, k);
                            self.lemma_emits_trans(s, t, k, now, j == k, Seq::empty(), more);
                            Seq::empty() + more
                        },
                    }
                } else {
                    self.lemma_emits_nothing(t, k, now);
                    Seq::empty()
                }
            },
            PayloadView::Decide { slot, value } => self.lemma_decide_emits(
                now,
                slot.0,
                value,
                false,
                k,
            ),
            PayloadView::Forward { commands } => {
                let s = self.pooled(now, commands).refreshed(now);
                self.lemma_pooled_wf(now, commands);
                assert(self.settles_into(s));
                self.lemma_emits_nothing(s, k, now);
                let more = s.lemma_opened_emits(now, k);
                self.lemma_emits_trans(s, t, k, now, false, Seq::empty(), more);
                Seq::empty() + more
            },
            PayloadView::Learn { from_slot } => {
                let j = from_slot.0;
                if !(j <= self.gc_floor || j > self.decided || j == 0) {
                    self.lemma_send_records_in(
                        idx,
                        PayloadView::LearnReply {
                            first_slot: Slot(j),
                            values: crate::state::chunk_of(self.retained, j, self.decided, 0),
                        },
                        k,
                    );
                }
                assert(self.settles_into(t));
                self.lemma_emits_nothing(t, k, now);
                Seq::empty()
            },
            PayloadView::LearnReply { first_slot, values } => {
                let s = State { learn_in_flight: None, ..self };
                assert(self.settles_into(s));
                self.lemma_emits_nothing(s, k, now);
                let more = s.lemma_learned_emits(now, first_slot.0, values, k);
                self.lemma_emits_trans(s, t, k, now, false, Seq::empty(), more);
                Seq::empty() + more
            },
            PayloadView::Ping => {
                self.lemma_emits_nothing(t, k, now);
                Seq::empty()
            },
        }
    }

    /// A reply leaves a proposer poised.
    pub proof fn lemma_answered_poised(
        self,
        now: u64,
        idx: int,
        j: u64,
        req_step: u32,
        step: u32,
        first: crate::wire::ReplyFirstView,
        prior_agg: Option<crate::types::ProposalView>,
    )
        requires
            self.wf(),
            self.rested(),
            self.slots.contains_key(j),
            0 <= idx < self.m.n,
        ensures
            ({
                let t = self.answered(now, idx, j, req_step, step, first, prior_agg);
                &&& t.poised(j)
                &&& self.slots[j].answer_progress(
                    self.m,
                    idx,
                    req_step,
                    step,
                    first,
                    prior_agg,
                ) !is Send ==> t.rested()
            }),
    {
        let t = self.answered(now, idx, j, req_step, step, first, prior_agg);
        lemma_none_set(self.m.n as nat);
        assert(self.slots[j].rested(self.m.me_idx as int));
        assert(t.slots[j].poised(t.m.me_idx as int));
        assert forall|x: u64| #[trigger] t.slots.contains_key(x) && x != j implies t.slots[x].rested(
            t.m.me_idx as int,
        ) by {
            assert(self.slots.contains_key(x));
        }
    }

    pub proof fn lemma_received_emits(self, now: u64, message: MessageView, k: u64) -> (more: Seq<
        ActionView,
    >)
        requires
            self.wf(),
            self.m.n >= 2,
            self.rested(),
        ensures
            self.emits(
                self.received(now, message),
                k,
                now,
                State::concerns(message.payload, k),
                more,
            ),
            self.received(now, message).rested(),
    {
        let about = State::concerns(message.payload, k);
        if self.heeds(message.from) {
            self.lemma_index(message.from);
            let idx = self.index(message.from);
            let s = self.noted(idx, message.decided.0);
            assert(s.wf());
            assert(self.settles_into(s));
            self.lemma_emits_nothing(s, k, now);
            let more = s.lemma_handled_emits(now, idx, message.payload, k);
            s.lemma_handled_wf(now, idx, message.payload);
            let t = s.handled(now, idx, message.payload);
            assert(records_in(t.actions, k) =~= records_in(self.actions, k) + more);
            assert(self.emits(t, k, now, about, more));
            t.lemma_request_learn_wf(now, idx, message.decided.0);
            let u = t.request_learn(now, idx, message.decided.0);
            State { learn_in_flight: Some((idx as usize, now)), ..t }.lemma_send_records_in(
                idx,
                PayloadView::Learn { from_slot: Slot((t.decided + 1) as u64) },
                k,
            );
            assert(t.settles_into(u));
            t.lemma_emits_nothing(u, k, now);
            self.lemma_emits_trans(t, u, k, now, about, more, Seq::empty());
            u.lemma_gced_emits(k, now);
            self.lemma_emits_trans(
                u,
                u.gced(),
                k,
                now,
                about,
                more + Seq::empty(),
                Seq::empty(),
            );
            more + Seq::empty() + Seq::empty()
        } else {
            self.lemma_emits_nothing(self, k, now);
            Seq::empty()
        }
    }

    pub proof fn lemma_submitted_emits(self, now: u64, data: Seq<u8>, k: u64) -> (more: Seq<
        ActionView,
    >)
        requires
            self.wf(),
            self.m.n >= 2,
            self.rested(),
            self.submit_error(data.len()) is None,
        ensures
            self.emits(self.submitted(now, data), k, now, false, more),
            self.submitted(now, data).rested(),
    {
        let id = self.next_id();
        let s = self.enqueued(now, data);
        let t = self.submitted(now, data);
        self.lemma_enqueued_wf(now, data);
        assert(self.settles_into(s));
        self.lemma_emits_nothing(s, k, now);
        if self.m.leads() {
            let more = s.lemma_opened_emits(now, k);
            let u = s.opened(now);
            self.lemma_emits_trans(s, u, k, now, false, Seq::empty(), more);
            assert(u.settles_into(t));
            u.lemma_emits_nothing(t, k, now);
            self.lemma_emits_trans(u, t, k, now, false, Seq::empty() + more, Seq::empty());
            Seq::empty() + more + Seq::empty()
        } else {
            s.forwarded(now, id, 1).lemma_send_records_in(
                self.forward_target(0),
                PayloadView::Forward { commands: seq![(id, data)] },
                k,
            );
            assert(self.settles_into(t));
            self.lemma_emits_nothing(t, k, now);
            Seq::empty()
        }
    }

    // ---- time ----

    pub proof fn lemma_hedge_each_emits(self, now: u64, due: Seq<u64>, k: u64) -> (more: Seq<
        ActionView,
    >)
        requires
            self.wf(),
            self.m.n >= 2,
            self.rested(),
        ensures
            self.emits(self.hedge_each(now, due), k, now, false, more),
            self.hedge_each(now, due).rested(),
            self.hedge_each(now, due).decided == self.decided,
            self.runs(k) ==> self.leaves(self.hedge_each(now, due), k) && more.len() == 0,
            !due.contains(k) ==> more.len() == 0,
        decreases due.len(),
    {
        if due.len() == 0 {
            self.lemma_emits_nothing(self, k, now);
            Seq::empty()
        } else {
            let init = due.drop_last();
            let j = due.last();
            assert(due[due.len() - 1] == j);
            if init.contains(k) {
                let x = choose|x: int| 0 <= x < init.len() && init[x] == k;
                assert(due[x] == k);
            }
            let a = self.lemma_hedge_each_emits(now, init, k);
            self.lemma_hedge_each_wf(now, init);
            let s = self.hedge_each(now, init);
            let u = self.hedge_each(now, due);
            if j > s.decided {
                let t = s.claimed(j, s.next_batch());
                s.lemma_claimed_wf(j, s.next_batch());
                assert(s.settles_into(t));
                s.lemma_emits_nothing(t, k, now);
                self.lemma_emits_trans(s, t, k, now, false, a, Seq::empty());
                let b = t.lemma_activated_emits(now, j, batch_bytes(s.next_batch()), k);
                self.lemma_emits_trans(t, u, k, now, false, a + Seq::empty(), b);
                a + Seq::empty() + b
            } else {
                a
            }
        }
    }

    /// Transmitting steps again. A standing slot's step is repeated exactly if
    /// it is among those.
    pub proof fn lemma_resend_each_emits(self, now: u64, stale: Seq<u64>, k: u64) -> (more: Seq<
        ActionView,
    >)
        requires
            self.wf(),
            self.m.n >= 2,
            self.rested(),
            stale.no_duplicates(),
        ensures
            self.emits(self.resend_each(now, stale), k, now, false, more),
            self.resend_each(now, stale).rested(),
            self.resend_each(now, stale).decided == self.decided,
            !stale.contains(k) ==> more.len() == 0 && (self.slots.contains_key(k) ==> self.leaves(
                self.resend_each(now, stale),
                k,
            )),
            stale.contains(k) && self.slots.contains_key(k) && self.slots[k].standing(
                self.m.me_idx as int,
            ) ==> more == self.records(k, self.decided),
        decreases stale.len(),
    {
        if stale.len() == 0 {
            self.lemma_emits_nothing(self, k, now);
            Seq::empty()
        } else {
            let init = stale.drop_last();
            let j = stale.last();
            let a = self.lemma_resend_each_emits(now, init, k);
            self.lemma_resend_each_wf(now, init);
            let s = self.resend_each(now, init);
            let t = s.renewed(j);
            s.lemma_renewed_wf(j);
            assert(t.poised(j)) by {
                assert forall|x: u64| #[trigger] t.slots.contains_key(x) implies (x != j
                    ==> t.slots[x].rested(t.m.me_idx as int)) && t.slots[x].poised(
                    t.m.me_idx as int,
                ) by {
                    assert(s.slots.contains_key(x));
                }
            }
            let u = t.drive(now, j);
            let b = t.lemma_drive_emits(now, j, k);
            assert(stale[stale.len() - 1] == j);
            assert(stale.contains(k) <==> init.contains(k) || j == k) by {
                if stale.contains(k) {
                    let x = choose|x: int| 0 <= x < stale.len() && stale[x] == k;
                    if x < init.len() {
                        assert(init[x] == k);
                    }
                }
                if init.contains(k) {
                    let x = choose|x: int| 0 <= x < init.len() && init[x] == k;
                    assert(stale[x] == k);
                }
            }
            assert(s.emits(u, k, now, false, b)) by {
                assert(records_in(t.actions, k) == records_in(s.actions, k));
            }
            self.lemma_emits_trans(s, u, k, now, false, a, b);
            if self.slots.contains_key(k) && self.slots[k].standing(self.m.me_idx as int) {
                if j == k {
                    assert(!init.contains(k)) by {
                        if init.contains(k) {
                            let x = choose|x: int| 0 <= x < init.len() && init[x] == k;
                            assert(stale[x] == stale[stale.len() - 1]);
                        }
                    }
                    s.lemma_redriven(now, k);
                    assert(a + b =~= b);
                    self.lemma_like_records(u, k, s.decided, s.m.n as nat);
                } else {
                    assert(a + b =~= a);
                }
            }
            a + b
        }
    }

    /// Driving a standing slot again repeats its step.
    proof fn lemma_redriven(self, now: u64, k: u64)
        requires
            self.wf(),
            self.m.n >= 2,
            self.slots.contains_key(k),
            self.slots[k].standing(self.m.me_idx as int),
        ensures
            ({
                let u = self.renewed(k).drive(now, k);
                let run = self.slots[k].proposer->Running_0;
                &&& u.slots[k].proposer matches ProposerView::Running(r)
                &&& r.step == run.step
                &&& r.proposal == run.proposal
                &&& r.priorities == run.priorities
            }),
    {
        let t = self.renewed(k);
        let run = t.slots[k].proposer->Running_0;
        let me = self.m.me_idx as int;
        if !run.replied[me] {
            lemma_set_count_update(run.replied, me);
        }
        let d = t.slots[k].self_recorded(t.m, now, t.rng);
        assert(d.next is Wait);
        let s = t.drive_local(now, k);
        let f = |idx: int|
            PayloadView::Record {
                slot: Slot(k),
                step: s.slots[k].proposer->Running_0.step,
                proposal: s.slots[k].proposer->Running_0.proposal_for(idx),
            };
        s.lemma_send_upto_frame(s.m.n as nat, f);
    }
}

} // verus!
