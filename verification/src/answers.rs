//! What a replica makes of a message: what it answers, and what it takes from
//! it.

use vstd::prelude::*;

use crate::invariants::{lemma_least, lemma_pool_without};
use crate::pool::has_id;
use crate::proposer::lemma_none_set;
use crate::sending::{sent_of, Kind};
use crate::state::{accepted, batch_of, chunk_of, least, ActionView, State};
use crate::types::{batch_bytes, CommandId, ProposalView, Slot};
use crate::wire::{MessageView, PayloadView};

verus! {

/// The number of bytes in `values`.
pub open spec fn sizes(values: Seq<Seq<u8>>) -> nat
    decreases values.len(),
{
    if values.len() == 0 {
        0
    } else {
        sizes(values.drop_last()) + values.last().len()
    }
}

proof fn lemma_sizes_prepend(value: Seq<u8>, rest: Seq<Seq<u8>>)
    ensures
        sizes(seq![value] + rest) == value.len() + sizes(rest),
    decreases rest.len(),
{
    let all = seq![value] + rest;
    if rest.len() == 0 {
        assert(all.drop_last() =~= Seq::empty());
        assert(sizes(all.drop_last()) == 0);
    } else {
        assert(all.last() == rest.last());
        lemma_sizes_prepend(value, rest.drop_last());
        assert(all.drop_last() =~= seq![value] + rest.drop_last());
    }
}

proof fn lemma_chunk(values: Map<u64, Seq<u8>>, slot: u64, last: u64, bytes: nat)
    requires
        slot <= last,
        bytes < 0x10_0000,
    ensures
        ({
            let q = chunk_of(values, slot, last, bytes);
            &&& 1 <= q.len() <= last - slot + 1
            &&& forall|x: int| 0 <= x < q.len() ==> #[trigger] q[x] == values[(slot + x) as u64]
            &&& bytes + sizes(q.drop_last()) < 0x10_0000
            &&& bytes + sizes(q) >= 0x10_0000 || slot + q.len() == last + 1
        }),
    decreases last - slot,
{
    let value = values[slot];
    let q = chunk_of(values, slot, last, bytes);
    if slot >= last || bytes + value.len() >= 0x10_0000 {
        assert(q =~= seq![value]);
        assert(q.drop_last() =~= Seq::empty());
    } else {
        let rest = chunk_of(values, (slot + 1) as u64, last, bytes + value.len());
        lemma_chunk(values, (slot + 1) as u64, last, bytes + value.len());
        lemma_sizes_prepend(value, rest);
        lemma_sizes_prepend(value, rest.drop_last());
        assert(q.drop_last() =~= seq![value] + rest.drop_last());
        assert forall|x: int| 0 <= x < q.len() implies #[trigger] q[x] == values[(slot
            + x) as u64] by {
            if x > 0 {
                assert(q[x] == rest[x - 1]);
            }
        }
    }
}

/// Whether `a` answers `message` with `payload`, as sent by the replica `s`.
pub open spec fn tells(
    s: State,
    a: ActionView,
    message: MessageView,
    payload: PayloadView,
) -> bool {
    a == (ActionView::Send {
        to: message.from,
        message: MessageView { from: s.config.me, decided: Slot(s.decided), payload },
    })
}

impl State {
    /// The messages of one kind stay what they are when a request for what is
    /// missing goes out and garbage is collected.
    pub proof fn lemma_after_handling(self, now: u64, idx: int, decided: u64, kind: Kind)
        requires
            self.wf(),
            0 <= idx < self.m.n,
            kind != Kind::Learn,
        ensures
            ({
                let t = self.request_learn(now, idx, decided).gced();
                &&& sent_of(t.actions, kind) == sent_of(self.actions, kind)
                &&& t.decided == self.decided
                &&& t.pool == self.pool
                &&& t.gc_floor >= self.gc_floor
                &&& t.gc_floor <= t.decided
                &&& forall|k: u64|
                    #[trigger] t.retained.contains_key(k) <==> k > t.gc_floor
                        && self.retained.contains_key(k)
                &&& forall|k: u64| #[trigger]
                    t.retained.contains_key(k) ==> t.retained[k] == self.retained[k]
            }),
    {
        let u = self.request_learn(now, idx, decided);
        self.lemma_request_learn_wf(now, idx, decided);
        if decided > self.decided && !self.learn_waits(now) {
            let s = State { learn_in_flight: Some((idx as usize, now)), ..self };
            let p = PayloadView::Learn { from_slot: Slot((self.decided + 1) as u64) };
            s.lemma_send_kind(idx, p, kind);
        }
        u.lemma_gced_wf();
        u.retention_is_bounded();
        let t = u.gced();
        assert forall|k: u64| #[trigger] t.retained.contains_key(k) implies k > t.gc_floor by {
            assert(t.slots.contains_key(k));
        }
    }

    pub proof fn lemma_noted(self, message: MessageView)
        requires
            self.wf(),
            self.has_peer(message.from),
        ensures
            0 <= self.index(message.from) < self.m.n,
            self.config.replicas[self.index(message.from)] == message.from,
            self.noted(self.index(message.from), message.decided.0).wf(),
    {
        self.lemma_index(message.from);
    }

    /// Messages from outside of the group, and those that claim to be from the
    /// replica itself, change nothing.
    pub proof fn strangers_are_ignored(self, now: u64, message: MessageView)
        requires
            self.wf(),
            !self.has_peer(message.from),
        ensures
            self.received(now, message) == self,
    {
        if self.config.replicas.contains(message.from) {
            let j = choose|j: int|
                0 <= j < self.config.replicas.len() && self.config.replicas[j] == message.from;
            assert(self.config.replicas[j] == message.from);
        }
    }

    /// A request for the values from a slot on is answered exactly if that
    /// slot is decided here and not freed: once, to the one who asked, with the
    /// values of consecutive slots from there on, as many as it takes to reach
    /// the watermark or a mebibyte, whichever comes first.
    pub proof fn catch_up_requests_are_answered(self, now: u64, message: MessageView)
        requires
            self.wf(),
            self.has_peer(message.from),
            message.payload is Learn,
        ensures
            ({
                let first = message.payload->Learn_from_slot;
                let sent = self.newly_sent(self.received(now, message), Kind::LearnReply);
                &&& !(self.gc_floor < first.0 <= self.decided) ==> sent.len() == 0
                &&& self.gc_floor < first.0 <= self.decided ==> sent.len() == 1 && exists|
                    values: Seq<Seq<u8>>,
                |
                    {
                        &&& #[trigger] tells(
                            self,
                            sent[0],
                            message,
                            PayloadView::LearnReply { first_slot: first, values },
                        )
                        &&& 1 <= values.len() <= self.decided - first.0 + 1
                        &&& forall|x: int|
                            0 <= x < values.len() ==> #[trigger] values[x]
                                == self.retained[(first.0 + x) as u64]
                        &&& sizes(values.drop_last()) < 0x10_0000
                        &&& sizes(values) >= 0x10_0000 || first.0 + values.len() == self.decided
                            + 1
                    }
            }),
    {
        self.lemma_noted(message);
        let idx = self.index(message.from);
        let s = self.noted(idx, message.decided.0);
        let first = message.payload->Learn_from_slot;
        let t = s.on_learn(idx, first.0);
        s.lemma_handled_wf(now, idx, message.payload);
        t.lemma_after_handling(now, idx, message.decided.0, Kind::LearnReply);
        if self.gc_floor < first.0 <= self.decided {
            let values = chunk_of(self.retained, first.0, self.decided, 0);
            let p = PayloadView::LearnReply { first_slot: first, values };
            lemma_chunk(self.retained, first.0, self.decided, 0);
            s.lemma_send_kind(idx, p, Kind::LearnReply);
            let sent = seq![t.actions.last()];
            assert(sent_of(t.actions, Kind::LearnReply) =~= sent_of(
                self.actions,
                Kind::LearnReply,
            ) + sent);
            self.lemma_newly_sent(self.received(now, message), Kind::LearnReply, sent);
            assert(tells(self, sent[0], message, p));
        } else {
            assert(sent_of(t.actions, Kind::LearnReply) =~= sent_of(
                self.actions,
                Kind::LearnReply,
            ) + Seq::empty());
            self.lemma_newly_sent(
                self.received(now, message),
                Kind::LearnReply,
                Seq::empty(),
            );
        }
    }

    /// A proposer's step for a slot is answered exactly if the slot is not
    /// freed, the step belongs to a round, and the slot is at most four
    /// pipelines and 64 slots beyond the watermark: once, to the one who sent
    /// it, with the decided value or with a summary of the register that is
    /// at that step or a later one.
    pub proof fn steps_are_answered(self, now: u64, message: MessageView)
        requires
            self.wf(),
            self.has_peer(message.from),
            message.payload is Record,
        ensures
            ({
                let slot = message.payload->Record_slot;
                let step = message.payload->Record_step;
                let t = self.received(now, message);
                let replies = self.newly_sent(t, Kind::RecordReply);
                let decides = self.newly_sent(t, Kind::Decide);
                let heard = self.gc_floor < slot.0 <= self.decided + 4 * self.config.pipeline + 64
                    && step >= 4;
                &&& !heard ==> replies.len() == 0 && decides.len() == 0
                &&& heard && self.retained.contains_key(slot.0) ==> replies.len() == 0
                    && decides.len() == 1 && tells(
                    self,
                    decides[0],
                    message,
                    PayloadView::Decide { slot, value: self.retained[slot.0] },
                )
                &&& heard && !self.retained.contains_key(slot.0) ==> decides.len() == 0
                    && replies.len() == 1 && exists|p: PayloadView| #[trigger]
                    tells(self, replies[0], message, p) && p is RecordReply
                        && p->RecordReply_slot == slot && p->req_step == step
                        && p->RecordReply_step >= step
            }),
    {
        self.lemma_noted(message);
        let idx = self.index(message.from);
        let s = self.noted(idx, message.decided.0);
        let slot = message.payload->Record_slot;
        let step = message.payload->Record_step;
        let proposal = message.payload->Record_proposal;
        let u = s.handled(now, idx, message.payload);
        let t = self.received(now, message);
        s.lemma_handled_wf(now, idx, message.payload);
        u.lemma_after_handling(now, idx, message.decided.0, Kind::RecordReply);
        u.lemma_after_handling(now, idx, message.decided.0, Kind::Decide);
        let more = s.lemma_record_sends(now, idx, slot, step, proposal);
        let none = Seq::<ActionView>::empty();
        assert(u == s.on_record(now, idx, slot.0, step, proposal));
        if more is Decide {
            self.lemma_newly_sent(t, Kind::Decide, seq![u.actions.last()]);
            self.lemma_newly_sent(t, Kind::RecordReply, none);
        } else if more is RecordReply {
            self.lemma_newly_sent(t, Kind::Decide, none);
            self.lemma_newly_sent(t, Kind::RecordReply, seq![u.actions.last()]);
            assert(tells(self, seq![u.actions.last()][0], message, more));
        } else {
            self.lemma_newly_sent(t, Kind::Decide, none);
            self.lemma_newly_sent(t, Kind::RecordReply, none);
        }
    }

    /// The answer to a step, or a ping where there is none.
    proof fn lemma_record_sends(
        self,
        now: u64,
        idx: int,
        slot: Slot,
        step: u32,
        proposal: ProposalView,
    ) -> (more: PayloadView)
        requires
            self.wf(),
        ensures
            ({
                let u = self.on_record(now, idx, slot.0, step, proposal);
                let heard = self.gc_floor < slot.0 <= self.decided + 4 * self.config.pipeline + 64
                    && step >= 4;
                let last = seq![u.actions.last()];
                let replies = sent_of(self.actions, Kind::RecordReply);
                let decides = sent_of(self.actions, Kind::Decide);
                &&& if !heard {
                    more is Ping
                } else if self.retained.contains_key(slot.0) {
                    more == (PayloadView::Decide { slot, value: self.retained[slot.0] })
                } else {
                    more is RecordReply && more->RecordReply_slot == slot && more->req_step == step
                        && more->RecordReply_step >= step
                }
                &&& !(more is Ping) ==> u.actions.last() == (ActionView::Send {
                    to: self.config.replicas[idx],
                    message: MessageView {
                        from: self.config.me,
                        decided: Slot(self.decided),
                        payload: more,
                    },
                })
                &&& sent_of(u.actions, Kind::RecordReply) == replies + (if more is RecordReply {
                    last
                } else {
                    Seq::empty()
                })
                &&& sent_of(u.actions, Kind::Decide) == decides + (if more is Decide {
                    last
                } else {
                    Seq::empty()
                })
            }),
    {
        let u = self.on_record(now, idx, slot.0, step, proposal);
        let replies = sent_of(self.actions, Kind::RecordReply);
        let decides = sent_of(self.actions, Kind::Decide);
        let heard = self.gc_floor < slot.0 <= self.decided + 4 * self.config.pipeline + 64 && step
            >= 4;
        assert(replies =~= replies + Seq::empty());
        assert(decides =~= decides + Seq::empty());
        if heard {
            let o = self.observed(now, slot.0);
            let r = State {
                slots: o.slots.insert(slot.0, o.slots[slot.0].recorded(now, step, proposal)),
                ..o
            };
            let p = o.slots[slot.0].record_reply(slot, step, proposal);
            assert(u == r.send(idx, p));
            r.lemma_send_kind(idx, p, Kind::RecordReply);
            r.lemma_send_kind(idx, p, Kind::Decide);
            if self.retained.contains_key(slot.0) {
                assert(self.slots.contains_key(slot.0));
                assert(sent_of(u.actions, Kind::Decide) =~= decides + seq![u.actions.last()]);
            } else {
                if self.slots.contains_key(slot.0) && self.slots[slot.0].is_decided() {
                    assert(self.retained.contains_key(slot.0));
                }
                assert(sent_of(u.actions, Kind::RecordReply) =~= replies + seq![u.actions.last()]);
            }
            p
        } else {
            PayloadView::Ping
        }
    }

    /// What all replicas have acknowledged is freed when the acknowledgment
    /// comes: after a message, some replica is not known to have decided more
    /// than what is freed.
    pub proof fn acknowledged_slots_are_freed(self, now: u64, message: MessageView)
        requires
            self.wf(),
            self.has_peer(message.from),
        ensures
            ({
                let t = self.received(now, message);
                &&& t.peer_acked[t.m.me_idx as int] == t.decided
                &&& exists|j: int| 0 <= j < t.m.n && #[trigger] t.peer_acked[j] <= t.gc_floor
                &&& t.kept() <= t.config.max_retained_bytes || t.gc_floor == t.decided
            }),
    {
        self.lemma_noted(message);
        let idx = self.index(message.from);
        let s = self.noted(idx, message.decided.0);
        s.lemma_handled_wf(now, idx, message.payload);
        let u = s.handled(now, idx, message.payload);
        u.lemma_request_learn_wf(now, idx, message.decided.0);
        let v = u.request_learn(now, idx, message.decided.0);
        v.lemma_gced_wf();
        v.retention_is_bounded();
        let a = v.acknowledged();
        lemma_least(a.peer_acked);
        let l = least(a.peer_acked);
        a.freed(l).lemma_evicted_frame();
        let j = choose|j: int| 0 <= j < a.peer_acked.len() && a.peer_acked[j] == l;
        assert(v.gced().peer_acked[j] <= v.gced().gc_floor);
    }

    /// Delivery leaves the entries that it does not take as they are.
    proof fn lemma_delivered_pool(self)
        requires
            self.wf(),
        ensures
            forall|id: CommandId| #[trigger]
                self.delivered().pool.entries.contains_key(id) ==> self.pool.entries.contains_key(
                    id,
                ) && self.delivered().pool.entries[id] == self.pool.entries[id],
        decreases u64::MAX - self.decided,
    {
        if self.can_deliver() {
            let s = self.delivered_one();
            self.lemma_delivered_one_wf();
            s.lemma_delivered_pool();
            let v = self.retained[(self.decided + 1) as u64];
            lemma_pool_without(self.pool, accepted(self.dedup, batch_of(v)));
            assert forall|id: CommandId| #[trigger]
                self.delivered().pool.entries.contains_key(id) implies
                self.pool.entries.contains_key(id) && self.delivered().pool.entries[id]
                == self.pool.entries[id] by {
                assert(s.pool.entries.contains_key(id));
            }
        }
    }

    /// What settling a decision makes of the decided slots and the pool.
    proof fn lemma_settled_takes(self, now: u64, slot: u64, value: Seq<u8>, is_decider: bool)
        requires
            self.wf(),
            !self.can_deliver(),
            !self.drops(slot, value, is_decider),
        ensures
            ({
                let t = self.settled(now, slot, value, is_decider);
                &&& t.decided >= self.decided
                &&& t.decided >= slot || t.retained.contains_key(slot)
                &&& slot <= self.decided + 1 ==> t.decided >= slot
                &&& !self.retained.contains_key(slot) && slot > self.decided
                    && t.retained.contains_key(slot) ==> t.retained[slot] == value
                &&& !self.retained.contains_key(slot) ==> forall|id: CommandId|
                    #[trigger] t.pool.entries.contains_key(id) && t.pool.entries[id].proposed_in
                        == Some(Slot(slot)) ==> has_id(batch_of(value), id)
                &&& t.slots.contains_key(slot) || slot <= t.decided
                &&& t.kept() <= self.kept() + value.len()
            }),
    {
        let t = self.settled(now, slot, value, is_decider);
        self.lemma_observed_wf(now, slot);
        let s = self.observed(now, slot);
        if s.slots[slot].is_decided() {
            assert(self.slots.contains_key(slot));
            assert(self.retained.contains_key(slot));
            if slot == self.decided + 1 {
                assert(self.can_deliver());
            }
        } else {
            let s1 = s.installed(slot, value);
            s.lemma_installed_wf(slot, value);
            let f = |idx: int| PayloadView::Decide { slot: Slot(slot), value };
            s1.lemma_send_all_wf(f);
            s1.lemma_send_upto_frame(s1.m.n as nat, f);
            let s2 = if is_decider {
                s1.send_all(f)
            } else {
                s1
            };
            s2.lemma_released_wf(slot, batch_of(value));
            let s3 = s2.released(slot, batch_of(value)).refreshed(now);
            s3.lemma_delivered_wf();
            s3.lemma_delivered_frame();
            let s5 = s3.delivered().acknowledged().refreshed(now);
            assert(s5.wf());
            s5.lemma_gced_wf();
            s5.retention_is_bounded();
            s5.lemma_gced_kept();
            s3.lemma_delivered_pool();
            assert(s5.retained == s1.retained);
            assert(s3.retained.contains_key(slot));
            if slot <= self.decided {
                assert(self.retained.contains_key(slot));
            }
            if slot == self.decided + 1 {
                assert(s3.can_deliver());
                s3.delivered_one().lemma_delivered_frame();
            }
            assert(t == s5.gced());
            if slot > t.decided {
                assert(t.retained.contains_key(slot));
                assert(t.slots.contains_key(slot));
            }
            assert forall|id: CommandId|
                #[trigger] t.pool.entries.contains_key(id) && t.pool.entries[id].proposed_in
                    == Some(Slot(slot)) implies has_id(batch_of(value), id) by {
                assert(s3.delivered().pool.entries.contains_key(id));
                assert(s3.pool.entries.contains_key(id));
                assert(s2.pool.entries.contains_key(id));
            }
        }
    }

    /// Opening slots assigns commands to slots that were not known before.
    proof fn lemma_opened_claims(self, now: u64, k: u64)
        requires
            self.wf(),
            self.m.n >= 2,
            self.rested(),
            k <= self.highest(),
        ensures
            forall|id: CommandId|
                #[trigger] self.open_more(now).pool.entries.contains_key(id) && self.open_more(
                    now,
                ).pool.entries[id].proposed_in == Some(Slot(k))
                    ==> self.pool.entries.contains_key(id) && self.pool.entries[id].proposed_in
                    == Some(Slot(k)),
        decreases u64::MAX - self.max_open,
    {
        if self.can_open() {
            let j = (self.highest() + 1) as u64;
            let value = batch_bytes(self.next_batch());
            let s = self.opening();
            self.lemma_claimed_wf(j, self.next_batch());
            assert(s.wf());
            assert(s.rested());
            let _ = s.lemma_activated_emits(now, j, value, 0);
            s.lemma_activated_wf(now, j, value);
            s.lemma_activated_pool(now, j, value);
            let t = s.activated(now, j, value);
            assert(t.highest() >= t.max_open);
            t.lemma_opened_claims(now, k);
            let u = self.open_more(now);
            assert forall|id: CommandId|
                #[trigger] u.pool.entries.contains_key(id) && u.pool.entries[id].proposed_in
                    == Some(Slot(k)) implies self.pool.entries.contains_key(id)
                && self.pool.entries[id].proposed_in == Some(Slot(k)) by {
                assert(t.pool.entries.contains_key(id));
            }
        }
    }

    /// Starting a proposer for a slot leaves all but that slot, the generator and
    /// what is sent alone.
    pub proof fn lemma_activated_pool(self, now: u64, j: u64, value: Seq<u8>)
        requires
            self.wf(),
            self.m.n >= 2,
            self.rested(),
            j > self.gc_floor,
        ensures
            ({
                let t = self.activated(now, j, value);
                &&& t == (State { slots: t.slots, rng: t.rng, actions: t.actions, ..self })
                &&& t.slots.dom() == self.slots.dom().insert(j)
                &&& forall|x: u64| #[trigger] t.runs(x) ==> x == j || self.runs(x)
            }),
    {
        let s = self.observed(now, j);
        self.lemma_observed_wf(now, j);
        if s.slots[j].proposer is Idle && !s.slots[j].is_decided() {
            let t = s.started(now, j, value);
            s.lemma_started_wf(now, j, value);
            lemma_none_set(s.m.n as nat);
            assert(t.poised(j)) by {
                assert forall|x: u64| #[trigger] t.slots.contains_key(x) implies (x != j
                    ==> t.slots[x].rested(t.m.me_idx as int)) && t.slots[x].poised(
                    t.m.me_idx as int,
                ) by {
                    if x != j {
                        assert(self.slots.contains_key(x));
                    }
                }
            }
            t.lemma_drive_frame(now, j);
            assert forall|x: u64| #[trigger] t.drive(now, j).runs(x) implies x == j || self.runs(
                x,
            ) by {
                assert(t.runs(x));
            }
        }
        assert(self.activated(now, j, value).slots.dom() =~= self.slots.dom().insert(j));
    }

    /// What a decision makes of the decided slots and the pool.
    pub proof fn lemma_decide_takes(self, now: u64, slot: u64, value: Seq<u8>, is_decider: bool)
        requires
            self.wf(),
            self.m.n >= 2,
            self.rested(),
            !self.can_deliver(),
            !self.drops(slot, value, is_decider),
        ensures
            ({
                let t = self.decide(now, slot, value, is_decider);
                &&& t.decided >= self.decided
                &&& t.decided >= slot || t.retained.contains_key(slot)
                &&& slot <= self.decided + 1 ==> t.decided >= slot
                &&& !self.retained.contains_key(slot) && slot > self.decided
                    && t.retained.contains_key(slot) ==> t.retained[slot] == value
                &&& !self.retained.contains_key(slot) && slot > self.decided ==> forall|
                    id: CommandId,
                |
                    #[trigger] t.pool.entries.contains_key(id) && t.pool.entries[id].proposed_in
                        == Some(Slot(slot)) ==> has_id(batch_of(value), id)
                &&& t.kept() <= self.kept() + value.len()
            }),
    {
        self.lemma_settled_takes(now, slot, value, is_decider);
        self.lemma_settled_wf(now, slot, value, is_decider);
        self.lemma_settled_emits(now, slot, value, is_decider, 0);
        if self.settles(slot, value, is_decider) {
            let s = self.settled(now, slot, value, is_decider);
            let t = self.decide(now, slot, value, is_decider);
            s.lemma_opened_proposes(now);
            if s.slots.contains_key(slot) {
                s.lemma_last_known(slot);
            }
            s.lemma_opened_claims(now, slot);
            if !self.retained.contains_key(slot) {
                assert forall|id: CommandId|
                    #[trigger] t.pool.entries.contains_key(id) && t.pool.entries[id].proposed_in
                        == Some(Slot(slot)) implies has_id(batch_of(value), id) by {
                    assert(s.pool.entries.contains_key(id));
                }
            }
        }
    }

    /// A decision that a message brings is taken, unless the slot is freed, or
    /// lies ahead of the next one and does not fit the retention budget, or the
    /// values no longer fit in memory: then the slot is decided, and either
    /// delivered or holds the value. Commands that rode in the slot here and
    /// lost wait for another slot.
    pub proof fn decisions_are_taken(self, now: u64, message: MessageView)
        requires
            self.wf(),
            self.m.n >= 2,
            self.rested(),
            !self.can_deliver(),
            self.has_peer(message.from),
            message.payload is Decide,
        ensures
            ({
                let slot = message.payload->Decide_slot;
                let value = message.payload->Decide_value;
                let t = self.received(now, message);
                let fits = self.kept() + value.len() <= self.config.max_retained_bytes;
                slot.0 > self.gc_floor && self.kept() + value.len() <= usize::MAX && (slot.0
                    <= self.decided + 1 || fits) ==> {
                    &&& t.decided >= slot.0 || t.retained.contains_key(slot.0)
                    &&& slot.0 == self.decided + 1 ==> t.decided >= slot.0
                    &&& slot.0 > self.decided && !self.retained.contains_key(slot.0)
                        && t.retained.contains_key(slot.0) ==> t.retained[slot.0] == value
                    &&& slot.0 > self.decided && !self.retained.contains_key(slot.0) ==> forall|
                        id: CommandId,
                    |
                        #[trigger] t.pool.entries.contains_key(id)
                            && t.pool.entries[id].proposed_in == Some(slot) ==> has_id(
                            batch_of(value),
                            id,
                        )
                }
            }),
    {
        let slot = message.payload->Decide_slot;
        let value = message.payload->Decide_value;
        self.lemma_noted(message);
        let idx = self.index(message.from);
        let s = self.noted(idx, message.decided.0);
        s.lemma_handled_wf(now, idx, message.payload);
        assert(s.rested());
        assert(!s.can_deliver());
        let u = s.handled(now, idx, message.payload);
        u.lemma_after_handling(now, idx, message.decided.0, Kind::Ping);
        if !s.drops(slot.0, value, false) {
            s.lemma_decide_takes(now, slot.0, value, false);
            assert(u == s.decide(now, slot.0, value, false));
        }
    }

    proof fn lemma_learned_takes(self, now: u64, first: u64, values: Seq<Seq<u8>>)
        requires
            self.wf(),
            self.m.n >= 2,
            self.rested(),
            !self.can_deliver(),
            first <= self.decided + 1,
            first + values.len() - 1 <= u64::MAX,
            self.kept() + sizes(values) <= usize::MAX,
        ensures
            ({
                let t = self.learned(now, first, values);
                &&& t.wf()
                &&& t.m == self.m
                &&& t.rested()
                &&& !t.can_deliver()
                &&& t.decided >= self.decided
                &&& values.len() > 0 ==> t.decided >= first + values.len() - 1
                &&& t.kept() <= self.kept() + sizes(values)
            }),
        decreases values.len(),
    {
        if values.len() > 0 {
            let init = values.drop_last();
            self.lemma_learned_takes(now, first, init);
            let s = self.learned(now, first, init);
            let slot = (first + values.len() - 1) as u64;
            let value = values.last();
            s.lemma_decide_wf(now, slot, value, false);
            let _ = s.lemma_decide_emits(now, slot, value, false, 0);
            if slot <= s.gc_floor {
                assert(s.drops(slot, value, false));
            } else {
                s.lemma_decide_takes(now, slot, value, false);
            }
        }
    }

    /// Catching up works: a reply that starts no later than the slot after the
    /// watermark, and whose values fit in memory, takes the replica to the last
    /// slot in it.
    pub proof fn catch_up_replies_are_taken(self, now: u64, message: MessageView)
        requires
            self.wf(),
            self.m.n >= 2,
            self.rested(),
            !self.can_deliver(),
            self.has_peer(message.from),
            message.payload is LearnReply,
        ensures
            ({
                let first = message.payload->first_slot.0;
                let values = message.payload->values;
                let t = self.received(now, message);
                first <= self.decided + 1 && first + values.len() - 1 <= u64::MAX && self.kept()
                    + sizes(values) <= usize::MAX && values.len() > 0 ==> t.decided >= first
                    + values.len() - 1
            }),
    {
        let first = message.payload->first_slot.0;
        let values = message.payload->values;
        self.lemma_noted(message);
        let idx = self.index(message.from);
        let s = self.noted(idx, message.decided.0);
        s.lemma_handled_wf(now, idx, message.payload);
        let u = s.handled(now, idx, message.payload);
        u.lemma_after_handling(now, idx, message.decided.0, Kind::Ping);
        let r = State { learn_in_flight: None, ..s };
        assert(r.wf());
        assert(r.rested());
        assert(!r.can_deliver());
        if first <= self.decided + 1 && first + values.len() - 1 <= u64::MAX && self.kept() + sizes(
            values,
        ) <= usize::MAX {
            r.lemma_learned_takes(now, first, values);
        }
    }
}

} // verus!
