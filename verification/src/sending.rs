//! What a replica of a group of two or more sends, by kind of message, and
//! what the parts of a tick leave alone.

use vstd::prelude::*;

use crate::proposer::lemma_none_set;
use crate::state::{ActionView, State};
use crate::types::{batch_bytes, Command, ReplicaId, Slot};
use crate::wire::PayloadView;

verus! {

/// The kinds of messages.
pub enum Kind {
    Record,
    RecordReply,
    Decide,
    Forward,
    Learn,
    LearnReply,
    Ping,
}

/// The kind of a payload.
pub open spec fn kind_of(payload: PayloadView) -> Kind {
    match payload {
        PayloadView::Record { .. } => Kind::Record,
        PayloadView::RecordReply { .. } => Kind::RecordReply,
        PayloadView::Decide { .. } => Kind::Decide,
        PayloadView::Forward { .. } => Kind::Forward,
        PayloadView::Learn { .. } => Kind::Learn,
        PayloadView::LearnReply { .. } => Kind::LearnReply,
        PayloadView::Ping => Kind::Ping,
    }
}

/// Whether an effect sends a message of the given kind.
pub open spec fn sends_kind(a: ActionView, kind: Kind) -> bool {
    match a {
        ActionView::Send { message, .. } => kind_of(message.payload) == kind,
        ActionView::Deliver { .. } => false,
    }
}

/// The messages of one kind among `actions`.
pub open spec fn sent_of(actions: Seq<ActionView>, kind: Kind) -> Seq<ActionView>
    decreases actions.len(),
{
    if actions.len() == 0 {
        Seq::empty()
    } else {
        let before = sent_of(actions.drop_last(), kind);
        if sends_kind(actions.last(), kind) {
            before.push(actions.last())
        } else {
            before
        }
    }
}

pub proof fn lemma_sent_push(actions: Seq<ActionView>, a: ActionView, kind: Kind)
    ensures
        sent_of(actions.push(a), kind) == (if sends_kind(a, kind) {
            sent_of(actions, kind).push(a)
        } else {
            sent_of(actions, kind)
        }),
{
    assert(actions.push(a).drop_last() =~= actions);
}

impl State {
    /// Whether `id` is another replica of the group.
    pub open spec fn has_peer(self, id: ReplicaId) -> bool {
        id != self.config.me && exists|j: int|
            0 <= j < self.config.replicas.len() && #[trigger] self.config.replicas[j] == id
    }

    /// The messages of one kind that are in `t` but not here.
    pub open spec fn newly_sent(self, t: State, kind: Kind) -> Seq<ActionView> {
        sent_of(t.actions, kind).skip(sent_of(self.actions, kind).len() as int)
    }

    pub proof fn lemma_newly_sent(self, t: State, kind: Kind, more: Seq<ActionView>)
        requires
            sent_of(t.actions, kind) == sent_of(self.actions, kind) + more,
        ensures
            self.newly_sent(t, kind) == more,
    {
        assert((sent_of(self.actions, kind) + more).skip(
            sent_of(self.actions, kind).len() as int,
        ) =~= more);
    }

    pub proof fn lemma_send_kind(self, idx: int, payload: PayloadView, kind: Kind)
        ensures
            sent_of(self.send(idx, payload).actions, kind) == (if kind_of(payload) == kind {
                sent_of(self.actions, kind).push(self.send(idx, payload).actions.last())
            } else {
                sent_of(self.actions, kind)
            }),
    {
        lemma_sent_push(self.actions, self.send(idx, payload).actions.last(), kind);
    }

    pub proof fn lemma_send_upto_kind(
        self,
        j: nat,
        payloads: spec_fn(int) -> PayloadView,
        kind: Kind,
    )
        requires
            forall|idx: int| kind_of(#[trigger] payloads(idx)) != kind,
        ensures
            sent_of(self.send_upto(j, payloads).actions, kind) == sent_of(self.actions, kind),
        decreases j,
    {
        if j > 0 {
            self.lemma_send_upto_kind((j - 1) as nat, payloads, kind);
            if j - 1 != self.m.me_idx {
                self.send_upto((j - 1) as nat, payloads).lemma_send_kind(
                    j - 1,
                    payloads(j - 1),
                    kind,
                );
            }
        }
    }

    /// Whether `t` differs from this replica in slots, generator, pool, opened
    /// slots and pending transmissions of steps only.
    pub open spec fn proposes_into(self, t: State) -> bool {
        &&& t == (State {
            slots: t.slots,
            rng: t.rng,
            pool: t.pool,
            max_open: t.max_open,
            pending_since: t.pending_since,
            actions: t.actions,
            ..self
        })
        &&& forall|kind: Kind|
            kind != Kind::Record ==> #[trigger] sent_of(t.actions, kind) == sent_of(
                self.actions,
                kind,
            )
    }

    pub proof fn lemma_proposes_into_trans(self, t: State, u: State)
        requires
            self.proposes_into(t),
            t.proposes_into(u),
        ensures
            self.proposes_into(u),
    {
        assert forall|kind: Kind| kind != Kind::Record implies #[trigger] sent_of(u.actions, kind)
            == sent_of(self.actions, kind) by {
            assert(sent_of(t.actions, kind) == sent_of(self.actions, kind));
        }
    }

    pub proof fn lemma_drive_proposes(self, now: u64, j: u64)
        requires
            self.wf(),
            self.m.n >= 2,
            self.poised(j),
        ensures
            self.proposes_into(self.drive(now, j)),
    {
        let t = self.drive(now, j);
        self.lemma_drive_frame(now, j);
        assert forall|kind: Kind| kind != Kind::Record implies #[trigger] sent_of(t.actions, kind)
            == sent_of(self.actions, kind) by {
            if self.runs(j) {
                let before = self.slots[j];
                before.lemma_driven_poised(self.m, now, self.rng);
                let s = self.drive_local(now, j);
                let run = s.slots[j].proposer->Running_0;
                let f = |idx: int|
                    PayloadView::Record {
                        slot: Slot(j),
                        step: run.step,
                        proposal: run.proposal_for(idx),
                    };
                s.lemma_send_upto_kind(s.m.n as nat, f, kind);
            }
        }
    }

    pub proof fn lemma_activated_proposes(self, now: u64, j: u64, value: Seq<u8>)
        requires
            self.wf(),
            self.m.n >= 2,
            self.rested(),
            j > self.gc_floor,
        ensures
            self.proposes_into(self.activated(now, j, value)),
    {
        let s = self.observed(now, j);
        self.lemma_observed_wf(now, j);
        assert(self.proposes_into(s));
        if s.slots[j].proposer is Idle && !s.slots[j].is_decided() {
            let t = s.started(now, j, value);
            s.lemma_started_wf(now, j, value);
            lemma_none_set(s.m.n as nat);
            assert(t.poised(j)) by {
                assert forall|x: u64| #[trigger] t.slots.contains_key(x) implies (x != j
                    ==> t.slots[x].rested(t.m.me_idx as int)) && t.slots[x].poised(
                    t.m.me_idx as int,
                ) by {
                    if x != j {
                        assert(self.slots.contains_key(x));
                    }
                }
            }
            t.lemma_drive_proposes(now, j);
            assert(self.proposes_into(t));
            self.lemma_proposes_into_trans(t, t.drive(now, j));
        }
    }

    pub proof fn lemma_opened_proposes(self, now: u64)
        requires
            self.wf(),
            self.m.n >= 2,
            self.rested(),
        ensures
            self.proposes_into(self.open_more(now)),
            self.proposes_into(self.opened(now)),
        decreases u64::MAX - self.max_open,
    {
        if self.can_open() {
            let j = (self.highest() + 1) as u64;
            let value = batch_bytes(self.next_batch());
            let s = self.opening();
            self.lemma_claimed_wf(j, self.next_batch());
            assert(s.wf());
            assert(s.rested());
            assert(self.proposes_into(s));
            s.lemma_activated_proposes(now, j, value);
            let _ = s.lemma_activated_emits(now, j, value, 0);
            s.lemma_activated_wf(now, j, value);
            let t = s.activated(now, j, value);
            t.lemma_opened_proposes(now);
            self.lemma_proposes_into_trans(s, t);
            self.lemma_proposes_into_trans(t, t.open_more(now));
        }
    }

    pub proof fn lemma_hedge_each_proposes(self, now: u64, due: Seq<u64>)
        requires
            self.wf(),
            self.m.n >= 2,
            self.rested(),
        ensures
            self.proposes_into(self.hedge_each(now, due)),
        decreases due.len(),
    {
        if due.len() > 0 {
            let init = due.drop_last();
            let j = due.last();
            self.lemma_hedge_each_proposes(now, init);
            let _ = self.lemma_hedge_each_emits(now, init, 0);
            self.lemma_hedge_each_wf(now, init);
            let s = self.hedge_each(now, init);
            if j > s.decided {
                let t = s.claimed(j, s.next_batch());
                s.lemma_claimed_wf(j, s.next_batch());
                assert(t.rested());
                assert(s.proposes_into(t));
                t.lemma_activated_proposes(now, j, batch_bytes(s.next_batch()));
                self.lemma_proposes_into_trans(s, t);
                self.lemma_proposes_into_trans(t, self.hedge_each(now, due));
            }
        }
    }

    pub proof fn lemma_resend_each_proposes(self, now: u64, stale: Seq<u64>)
        requires
            self.wf(),
            self.m.n >= 2,
            self.rested(),
        ensures
            self.proposes_into(self.resend_each(now, stale)),
        decreases stale.len(),
    {
        if stale.len() > 0 {
            let init = stale.drop_last();
            let j = stale.last();
            self.lemma_resend_each_proposes(now, init);
            self.lemma_resend_each_runs(now, init);
            self.lemma_resend_each_wf(now, init);
            let s = self.resend_each(now, init);
            let t = s.renewed(j);
            s.lemma_renewed_wf(j);
            assert(t.poised(j)) by {
                assert forall|x: u64| #[trigger] t.slots.contains_key(x) implies (x != j
                    ==> t.slots[x].rested(t.m.me_idx as int)) && t.slots[x].poised(
                    t.m.me_idx as int,
                ) by {
                    assert(s.slots.contains_key(x));
                }
            }
            t.lemma_drive_proposes(now, j);
            assert(s.proposes_into(t));
            self.lemma_proposes_into_trans(s, t);
            self.lemma_proposes_into_trans(t, t.drive(now, j));
        }
    }

    /// The parts of a tick that concern proposers touch nothing else.
    pub proof fn lemma_tick_middle_proposes(self, now: u64)
        requires
            self.wf(),
            self.m.n >= 2,
            self.rested(),
        ensures
            self.proposes_into(self.tick_middle(now)),
            self.tick_middle(now).wf(),
            self.tick_middle(now).rested(),
    {
        let s1 = self.frontier_observed(now);
        self.lemma_frontier_follows(now);
        assert(self.settles_into(s1));
        assert(s1.rested()) by {
            assert forall|x: u64| #[trigger] s1.slots.contains_key(x) implies s1.slots[x].rested(
                s1.m.me_idx as int,
            ) by {
                if s1.runs(x) {
                    assert(self.runs(x));
                    assert(self.slots.contains_key(x));
                }
            }
        }
        assert(self.proposes_into(s1));
        let due = s1.hedge_due(now);
        s1.lemma_hedge_each_proposes(now, due);
        let _ = s1.lemma_hedge_each_emits(now, due, 0);
        let _ = s1.lemma_hedged_follows(now);
        let h = s1.hedge_each(now, due);
        let s2 = s1.hedged(now);
        assert(h.proposes_into(s2));
        self.lemma_proposes_into_trans(s1, h);
        self.lemma_proposes_into_trans(h, s2);
        assert(s2.rested());
        s2.lemma_opened_proposes(now);
        let _ = s2.lemma_opened_emits(now, 0);
        s2.lemma_opened_wf(now);
        let s3 = s2.opened(now);
        self.lemma_proposes_into_trans(s2, s3);
        let stale = s3.stale(now);
        s3.lemma_resend_each_proposes(now, stale);
        s3.lemma_resend_each_runs(now, stale);
        s3.lemma_resend_each_wf(now, stale);
        self.lemma_proposes_into_trans(s3, s3.retransmitted(now));
    }

    pub proof fn lemma_send_forwards_kind(self, chunks: Seq<(int, Seq<Command>)>, kind: Kind)
        requires
            kind != Kind::Forward,
        ensures
            sent_of(self.send_forwards(chunks).actions, kind) == sent_of(self.actions, kind),
        decreases chunks.len(),
    {
        if chunks.len() > 0 {
            self.lemma_send_forwards_kind(chunks.drop_last(), kind);
            self.send_forwards(chunks.drop_last()).lemma_send_kind(
                chunks.last().0,
                PayloadView::Forward { commands: chunks.last().1 },
                kind,
            );
        }
    }

    /// Forwarding sends forwarded commands only.
    pub proof fn lemma_reforwarded_kind(self, now: u64, kind: Kind)
        requires
            self.wf(),
            kind != Kind::Forward,
        ensures
            sent_of(self.reforwarded(now).actions, kind) == sent_of(self.actions, kind),
    {
        if !self.m.leads() {
            let ids = self.forward_due(now);
            self.refreshed_forwards(now, ids).lemma_send_forwards_kind(
                self.chunked(ids).flushed(self.m.n as nat),
                kind,
            );
        }
    }
}

} // verus!
