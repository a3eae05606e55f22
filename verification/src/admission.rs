//! Which commands a replica takes, and that it takes care of them at once.

use vstd::prelude::*;

use crate::pool::{has_id, origin_of};
use crate::proposer::lemma_none_set;
use crate::sorted::{ascending, ascending_is_unique, ascends};
use crate::state::{ActionView, State, SubmitError};
use crate::transmission::records_in;
use crate::types::{
    batch_bytes, batch_decoding_inverts_encoding, parse_batch, Command, CommandId, ReplicaId, Slot,
};
use crate::wire::{MessageView, PayloadView};

verus! {

/// The bytes that the commands `cs` take in a pool: their data, and 28 bytes
/// of framing each.
pub open spec fn framed(cs: Seq<Command>) -> nat
    decreases cs.len(),
{
    if cs.len() == 0 {
        0
    } else {
        framed(cs.drop_last()) + cs.last().1.len() + 28
    }
}

impl State {
    /// A submission is refused for its size alone: as too large exactly if it
    /// is over 1 GiB, and else because the pool is full exactly if it would
    /// take the pool, with 28 bytes of framing, over its limit.
    pub proof fn submissions_are_refused_for_size_only(self, data: Seq<u8>)
        ensures
            self.submit_error(data.len()) == Some(SubmitError::CommandTooLarge) <==> data.len()
                > 0x4000_0000,
            self.submit_error(data.len()) == Some(SubmitError::PoolFull) <==> data.len()
                <= 0x4000_0000 && self.pool.bytes + data.len() + 28 > self.config.max_pool_bytes,
            self.submit_error(data.len()) is None <==> data.len() <= 0x4000_0000 && self.pool.bytes
                + data.len() + 28 <= self.config.max_pool_bytes,
    {
    }

    /// The pool's byte count is what its commands take: it grows by the length
    /// of a command and 28 with each new one.
    proof fn lemma_pooled_bytes(self, now: u64, cs: Seq<Command>)
        requires
            self.wf(),
        ensures
            self.pooled(now, cs).pool.bytes <= self.pool.bytes + framed(cs),
        decreases cs.len(),
    {
        if cs.len() > 0 {
            self.lemma_pooled_bytes(now, cs.drop_last());
            self.lemma_pooled_wf(now, cs.drop_last());
        }
    }

    proof fn lemma_taken(self, now: u64, cs: Seq<Command>, i: int)
        requires
            self.wf(),
            0 <= i < cs.len(),
            !self.dedup.is_delivered(cs[i].0),
            cs[i].1.len() <= 0x4000_0000,
            self.pool.bytes + framed(cs.take(i + 1)) <= self.config.max_pool_bytes,
        ensures
            self.pooled(now, cs).pool.entries.contains_key(cs[i].0),
            !self.pool.entries.contains_key(cs[i].0) && !has_id(cs.take(i), cs[i].0)
                ==> self.pooled(now, cs).pool.entries[cs[i].0].data == cs[i].1,
        decreases cs.len(),
    {
        let init = cs.drop_last();
        self.lemma_pooled_wf(now, init);
        if i < cs.len() - 1 {
            assert(init.take(i + 1) =~= cs.take(i + 1));
            assert(init.take(i) =~= cs.take(i));
            self.lemma_taken(now, init, i);
        } else {
            assert(cs.take(i + 1) =~= cs);
            assert(cs.take(i) =~= init);
            self.lemma_pooled_bytes(now, init);
            self.lemma_pooled_from(now, init, cs[i].0);
        }
    }

    /// Only forwarded commands enter the pool.
    proof fn lemma_pooled_from(self, now: u64, cs: Seq<Command>, id: CommandId)
        requires
            self.wf(),
        ensures
            self.pooled(now, cs).pool.entries.contains_key(id)
                && !self.pool.entries.contains_key(id) ==> has_id(cs, id) && cs.contains(
                (id, self.pooled(now, cs).pool.entries[id].data),
            )
                && self.pooled(now, cs).pool.entries[id].data.len() <= 0x4000_0000
                && !self.dedup.is_delivered(id),
            self.pool.entries.contains_key(id) ==> self.pooled(now, cs).pool.entries.contains_key(
                id,
            ) && self.pooled(now, cs).pool.entries[id] == self.pool.entries[id],
        decreases cs.len(),
    {
        if cs.len() > 0 {
            let init = cs.drop_last();
            let before = self.pooled(now, init);
            let t = self.pooled(now, cs);
            self.lemma_pooled_from(now, init, id);
            self.lemma_pooled_wf(now, init);
            if t.pool.entries.contains_key(id) && !self.pool.entries.contains_key(id) {
                if before.pool.entries.contains_key(id) {
                    let y = choose|y: int| 0 <= y < init.len() && (#[trigger] init[y]).0 == id;
                    assert(cs[y].0 == id);
                    let c = (id, before.pool.entries[id].data);
                    let x = choose|x: int| 0 <= x < init.len() && init[x] == c;
                    assert(cs[x] == c);
                } else {
                    assert(cs[cs.len() - 1] == (id, t.pool.entries[id].data));
                }
            }
        }
    }

    /// A forwarded command is taken, whatever its length: unless it was
    /// delivered already, is over 1 GiB, or does not fit the pool with what is
    /// in there and what came before it in the message, it is in the pool
    /// afterwards, with its data, or delivered. (Under an id that the pool
    /// holds or that came before in the message, the first data stays.)
    pub proof fn forwarded_commands_are_taken(
        self,
        now: u64,
        message: MessageView,
        cs: Seq<Command>,
        i: int,
    )
        requires
            self.wf(),
            self.has_peer(message.from),
            message.payload == (PayloadView::Forward { commands: cs }),
            0 <= i < cs.len(),
            !self.dedup.is_delivered(cs[i].0),
            cs[i].1.len() <= 0x4000_0000,
            self.pool.bytes + framed(cs.take(i + 1)) <= self.config.max_pool_bytes,
        ensures
            ({
                let t = self.received(now, message);
                let id = cs[i].0;
                &&& t.pool.entries.contains_key(id) || t.dedup.is_delivered(id)
                &&& !self.pool.entries.contains_key(id) && !has_id(cs.take(i), id) ==> t.holds(
                    id,
                    cs[i].1,
                )
            }),
    {
        let id = cs[i].0;
        self.lemma_index(message.from);
        let idx = self.index(message.from);
        let s = self.noted(idx, message.decided.0);
        assert(s.wf());
        s.lemma_taken(now, cs, i);
        s.lemma_pooled_wf(now, cs);
        let p = s.pooled(now, cs).refreshed(now);
        let _ = p.lemma_opened_follows(now);
        p.lemma_opened_wf(now);
        let t = p.opened(now);
        assert(t == s.handled(now, idx, message.payload));
        t.lemma_request_learn_follows(now, idx, message.decided.0);
        t.lemma_request_learn_wf(now, idx, message.decided.0);
        let u = t.request_learn(now, idx, message.decided.0);
        u.lemma_gced_wf();
        assert(p.pool.entries.contains_key(id));
        assert(t.holds(id, p.pool.entries[id].data));
    }

    /// Nothing else is taken: a command that enters the pool is one of the
    /// message, with its data, at most 1 GiB long, and was not delivered; what
    /// was in the pool stays as it was.
    pub proof fn only_forwarded_commands_are_taken(
        self,
        now: u64,
        cs: Seq<Command>,
        id: CommandId,
    )
        requires
            self.wf(),
        ensures
            ({
                let t = self.pooled(now, cs);
                &&& t.pool.entries.contains_key(id) && !self.pool.entries.contains_key(id)
                    ==> cs.contains((id, t.pool.entries[id].data)) && t.pool.entries[id].data.len()
                    <= 0x4000_0000 && !self.dedup.is_delivered(id)
                &&& self.pool.entries.contains_key(id) ==> t.pool.entries.contains_key(id)
                    && t.pool.entries[id] == self.pool.entries[id]
                &&& t.pool.bytes <= self.config.max_pool_bytes
                &&& t == (State { pool: t.pool, ..self })
            }),
    {
        self.lemma_pooled_from(now, cs, id);
        self.lemma_pooled_wf(now, cs);
    }

    /// A follower hands a submitted command to the leader at once, and does
    /// nothing else but keep it.
    pub proof fn followers_forward_to_the_leader(self, now: u64, data: Seq<u8>)
        requires
            self.wf(),
            self.m.me_idx != 0,
            self.submit_error(data.len()) is None,
            self.next_seq < u64::MAX,
        ensures
            ({
                let t = self.submitted(now, data);
                let id = CommandId {
                    origin: self.config.me,
                    boot: self.boot,
                    seq: (self.next_seq + 1) as u64,
                };
                &&& t.actions == self.actions.push(
                    ActionView::Send {
                        to: self.config.replicas[0],
                        message: MessageView {
                            from: self.config.me,
                            decided: Slot(self.decided),
                            payload: PayloadView::Forward { commands: seq![(id, data)] },
                        },
                    },
                )
                &&& t.slots == self.slots
                &&& t.decided == self.decided
                &&& t.pool.entries.contains_key(id)
                &&& t.pool.entries[id].data == data
                &&& t.pool.entries[id].proposed_in is None
                &&& t.pool.entries[id].last_forward == now
                &&& t.pool.entries[id].forward_attempts == 1
            }),
    {
        let r = 0int % (self.m.n - 1);
        assert(r == 0) by (nonlinear_arith)
            requires
                r == 0int % (self.m.n - 1),
                self.m.n >= 2,
        ;
    }

    /// A leader with nothing to do: an empty pool, and no slot beyond the
    /// watermark.
    pub open spec fn idle(self) -> bool {
        &&& self.m.me_idx == 0
        &&& self.pool.entries.dom() == Set::<CommandId>::empty()
        &&& self.max_open <= self.decided
        &&& forall|k: u64| #[trigger] self.slots.contains_key(k) ==> k <= self.decided
        &&& self.decided < u64::MAX
    }

    /// Whether `sent` is the proposal of the commands `cs` for slot `slot` with
    /// the reserved priority, once to each other replica.
    pub open spec fn proposes(self, slot: u64, cs: Seq<Command>, sent: Seq<ActionView>) -> bool {
        &&& sent.len() == self.m.n - 1
        &&& forall|j: int|
            0 <= j < sent.len() ==> self.proposal_to(
                self.config.replicas[j + 1],
                slot,
                cs,
                #[trigger] sent[j],
            )
    }

    /// Whether `a` proposes the commands `cs` for slot `slot` to the replica
    /// `dest` with the reserved priority.
    pub open spec fn proposal_to(
        self,
        dest: ReplicaId,
        slot: u64,
        cs: Seq<Command>,
        a: ActionView,
    ) -> bool {
        match a {
            ActionView::Send { to, message } => {
                &&& to == dest
                &&& message.from == self.config.me
                &&& message.decided.0 == self.decided
                &&& match message.payload {
                    PayloadView::Record { slot: s, step, proposal } => {
                        &&& s.0 == slot
                        &&& step == 4
                        &&& proposal.priority == u32::MAX
                        &&& proposal.proposer == self.config.me
                        &&& parse_batch(proposal.value) == Some(cs)
                    },
                    _ => false,
                }
            },
            ActionView::Deliver { .. } => false,
        }
    }

    /// The pool of an otherwise idle leader holds one command that it may
    /// propose: it opens the next slot for it.
    proof fn lemma_opens_for_one(
        self,
        now: u64,
        idle: State,
        id: CommandId,
        data: Seq<u8>,
    ) -> (sent: Seq<ActionView>)
        requires
            self.wf(),
            idle.idle(),
            self == (State {
                next_seq: self.next_seq,
                pool: self.pool,
                pending_since: self.pending_since,
                peer_acked: self.peer_acked,
                ..idle
            }),
            self.m.n >= 2,
            self.rested(),
            self.pool.entries.dom() == set![id],
            self.pool.entries[id].data == data,
            self.pool.entries[id].proposed_in is None,
            id.seq <= self.dedup.high_water(origin_of(id)) + 1024,
        ensures
            ({
                let t = self.opened(now);
                let k = (self.decided + 1) as u64;
                &&& self.proposes(k, seq![(id, data)], sent)
                &&& records_in(t.actions, k) == records_in(self.actions, k) + sent
                &&& t.runs(k)
                &&& t.decided == self.decided
            }),
    {
        let k = (self.decided + 1) as u64;
        let cs = seq![(id, data)];
        let keys = seq![id];
        assert(keys.to_set() =~= set![id]) by {
            assert forall|x: CommandId| keys.to_set().contains(x) <==> set![id].contains(x) by {
                if x == id {
                    assert(keys[0] == id);
                }
            }
        }
        assert(ascends(keys));
        ascending_is_unique(keys);
        let pred = |x: CommandId|
            self.pool.entries[x].proposed_in is None && x.seq <= self.dedup.high_water(origin_of(x))
                + crate::state::DEDUP_WINDOW;
        assert(pred(id));
        reveal(Seq::filter);
        assert(keys.drop_last().filter(pred) =~= Seq::empty());
        assert(keys.filter(pred) =~= seq![id]);
        assert(self.eligible() =~= cs);
        assert(self.next_batch() == cs);
        assert(self.running() =~= Set::empty());
        crate::sorted::lemma_ascending(self.slots.dom());
        let known = ascending(self.slots.dom());
        if known.len() > 0 {
            assert(known.to_set().contains(known.last()));
            assert(self.slots.contains_key(known.last()));
        }
        assert(self.highest() == self.decided);
        assert(self.can_open());
        let o = self.opening();
        self.lemma_claimed_wf(k, cs);
        assert(o.wf());
        let value = batch_bytes(cs);
        self.batches_fit_the_wire_format();
        batch_decoding_inverts_encoding(value, cs);
        let a = o.observed(now, k);
        o.lemma_observed_wf(now, k);
        let b = a.started(now, k, value);
        a.lemma_started_wf(now, k, value);
        lemma_none_set(self.m.n as nat);
        assert(b.poised(k));
        let sent = b.lemma_drive_emits(now, k, k);
        let d = b.drive(now, k);
        b.lemma_drive_wf(now, k);
        b.lemma_drive_frame(now, k);
        let slot = b.slots[k];
        let run = slot.proposer->Running_0;
        let own = slot.self_recorded(b.m, now, b.rng);
        crate::proposer::lemma_set_count_update(run.replied, 0);
        assert(own.next is Wait);
        assert(slot.driven(b.m, now, b.rng).slot == own.slot);
        let local = b.drive_local(now, k);
        let r = local.slots[k].proposer->Running_0;
        let f = |i: int|
            PayloadView::Record { slot: Slot(k), step: r.step, proposal: r.proposal_for(i) };
        local.lemma_send_upto_frame(b.m.n as nat, f);
        assert(d == local.send_upto(b.m.n as nat, f));
        assert(d.slots[k] == own.slot);
        assert(r.step == 4 && r.proposal == run.proposal && r.priorities.len() == 0);
        assert(o.activated(now, k, value) == d);
        // Nothing is left to open.
        d.lemma_eligible();
        crate::invariants::lemma_fitting(d.eligible(), d.config.max_batch_bytes as nat);
        assert(cs[0] == (id, data));
        assert(has_id(cs, id));
        if d.eligible().len() > 0 {
            assert(d.pool.entries.contains_key(d.eligible()[0].0));
        }
        assert(!d.can_open());
        assert(self.open_more(now) == d);
        assert forall|j: int| 0 <= j < sent.len() implies self.proposal_to(
            self.config.replicas[j + 1],
            k,
            cs,
            #[trigger] sent[j],
        ) by {
            d.lemma_record_at(k, self.decided, self.m.n as nat, j);
        }
        sent
    }

    /// Driving one slot of a group of two or more changes that slot, the
    /// generator and the pending effects only.
    pub proof fn lemma_drive_frame(self, now: u64, j: u64)
        requires
            self.wf(),
            self.m.n >= 2,
            self.poised(j),
        ensures
            ({
                let t = self.drive(now, j);
                &&& t == (State { slots: t.slots, rng: t.rng, actions: t.actions, ..self })
                &&& t.slots.dom() == self.slots.dom()
                &&& forall|x: u64| #[trigger] t.runs(x) == self.runs(x)
            }),
    {
        let t = self.drive(now, j);
        if self.runs(j) {
            let before = self.slots[j];
            before.lemma_driven_poised(self.m, now, self.rng);
            before.lemma_driven_wf(self.m, now, self.rng);
            let s = self.drive_local(now, j);
            let run = s.slots[j].proposer->Running_0;
            let f = |idx: int|
                PayloadView::Record {
                    slot: Slot(j),
                    step: run.step,
                    proposal: run.proposal_for(idx),
                };
            s.lemma_send_upto_frame(s.m.n as nat, f);
            assert(!before.is_decided());
            assert(s.slots.dom() =~= self.slots.dom());
        } else if self.slots.contains_key(j) {
            assert(t.slots =~= self.slots);
        }
    }

    /// The transmissions of a leader, one by one.
    proof fn lemma_record_at(self, k: u64, d: u64, j: nat, x: int)
        requires
            self.m.wf(),
            self.m.me_idx == 0,
            j <= self.m.n,
            0 <= x < j - 1,
        ensures
            self.records_upto(k, d, j).len() == j - 1,
            self.records_upto(k, d, j)[x] == (ActionView::Send {
                to: self.config.replicas[x + 1],
                message: MessageView {
                    from: self.m.me,
                    decided: Slot(d),
                    payload: PayloadView::Record {
                        slot: Slot(k),
                        step: self.slots[k].proposer->Running_0.step,
                        proposal: self.slots[k].proposer->Running_0.proposal_for(x + 1),
                    },
                },
            }),
        decreases j,
    {
        self.lemma_records(k, d, j);
        self.lemma_records(k, d, (j - 1) as nat);
        if x < j - 2 {
            self.lemma_record_at(k, d, (j - 1) as nat, x);
        }
    }

    /// An idle leader proposes a command that is forwarded to it at once, with
    /// the reserved priority, in the next slot and to every other replica,
    /// whatever the command's length.
    pub proof fn forwarded_commands_are_proposed_at_once(
        self,
        now: u64,
        message: MessageView,
        c: Command,
    ) -> (sent: Seq<ActionView>)
        requires
            self.wf(),
            self.rested(),
            self.idle(),
            self.has_peer(message.from),
            message.payload == (PayloadView::Forward { commands: seq![c] }),
            !self.dedup.is_delivered(c.0),
            c.0.seq <= self.dedup.high_water(origin_of(c.0)) + 1024,
            c.1.len() <= 0x4000_0000,
            c.1.len() + 28 <= self.config.max_pool_bytes,
        ensures
            ({
                let t = self.received(now, message);
                let next = (self.decided + 1) as u64;
                &&& self.proposes(next, seq![c], sent)
                &&& records_in(t.actions, next) == records_in(self.actions, next) + sent
                &&& t.runs(next)
            }),
    {
        let next = (self.decided + 1) as u64;
        self.lemma_index(message.from);
        let idx = self.index(message.from);
        let s = self.noted(idx, message.decided.0);
        assert(s.wf());
        let cs = seq![c];
        assert(cs.drop_last() =~= Seq::empty());
        assert(s.pooled(now, cs.drop_last()) == s);
        assert(self.pool.bytes == 0) by {
            assert(crate::pool::entry_costs(self.pool.entries) =~= Map::empty());
        }
        assert(!self.pool.entries.dom().contains(c.0));
        assert(s.takes(cs.last()));
        s.lemma_pooled_wf(now, cs);
        let p = s.pooled(now, cs).refreshed(now);
        assert(p.pool.entries.dom() =~= set![c.0]);
        let sent = p.lemma_opens_for_one(now, self, c.0, c.1);
        let t = p.opened(now);
        p.lemma_opened_wf(now);
        assert(t == s.handled(now, idx, message.payload));
        t.lemma_request_learn_wf(now, idx, message.decided.0);
        let u = t.request_learn(now, idx, message.decided.0);
        State { learn_in_flight: Some((idx as usize, now)), ..t }.lemma_send_records_in(
            idx,
            PayloadView::Learn { from_slot: Slot((t.decided + 1) as u64) },
            next,
        );
        u.lemma_gced_wf();
        assert(u.runs(next));
        u.lemma_gced_keeps_ahead(next);
        sent
    }

    /// Garbage collection leaves what is beyond the watermark alone.
    pub proof fn lemma_gced_keeps_ahead(self, k: u64)
        requires
            self.wf(),
            k > self.decided,
        ensures
            self.gced().slots.contains_key(k) == self.slots.contains_key(k),
            self.slots.contains_key(k) ==> self.gced().slots[k] == self.slots[k],
    {
        let s = self.acknowledged();
        crate::invariants::lemma_least(s.peer_acked);
        assert(s.peer_acked[s.m.me_idx as int] == s.decided);
        let u = s.freed(crate::state::least(s.peer_acked));
        u.lemma_evicted_slots(k);
    }

    /// An idle leader proposes a submitted command at once, with the reserved
    /// priority, in the next slot and to every other replica.
    pub proof fn submitted_commands_are_proposed_at_once(self, now: u64, data: Seq<u8>) -> (sent:
        Seq<ActionView>)
        requires
            self.wf(),
            self.m.n >= 2,
            self.rested(),
            self.idle(),
            self.next_seq < u64::MAX,
            self.next_seq < self.dedup.high_water(origin_of(self.next_id())) + 1024,
            data.len() <= 0x4000_0000,
            data.len() + 28 <= self.config.max_pool_bytes,
        ensures
            ({
                let t = self.submitted(now, data);
                let next = (self.decided + 1) as u64;
                let id = CommandId {
                    origin: self.config.me,
                    boot: self.boot,
                    seq: (self.next_seq + 1) as u64,
                };
                &&& self.proposes(next, seq![(id, data)], sent)
                &&& records_in(t.actions, next) == records_in(self.actions, next) + sent
                &&& t.runs(next)
            }),
    {
        let id = self.next_id();
        assert(self.pool.bytes == 0) by {
            assert(crate::pool::entry_costs(self.pool.entries) =~= Map::empty());
        }
        assert(!self.pool.entries.dom().contains(id));
        let s = self.enqueued(now, data);
        self.lemma_enqueued_wf(now, data);
        assert(s.pool.entries.dom() =~= set![id]);
        s.lemma_opens_for_one(now, self, id, data)
    }
}

} // verus!
