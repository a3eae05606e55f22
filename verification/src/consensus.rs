//! What has happened across a whole group, and that every operation of a
//! replica extends it soundly.

use vstd::prelude::*;

use crate::delivery::{
    deliveries, dedup_of, lemma_pending_push, pending, within_window, Delivery,
};
use crate::history::{shaped, SlotHistory};
use crate::invariants::lemma_cost_counts;
use crate::pool::{DedupView, PoolView};
use crate::proposer::RunView;
use crate::slot::{ProgressView, SlotView};
use crate::sorted::ascending;
use crate::state::{
    accepted, batch_of, chunk_of, commands_cost, least, ActionView, Chunks, State,
    LEARN_CHUNK_BYTES,
};
use crate::types::{
    batch_bytes, batch_decoding_inverts_encoding, parse_batch, Command, CommandId, ProposalView,
    ReplicaId, Slot, MAX_BATCH_BYTES_LIMIT, MAX_COMMAND_BYTES,
};
use crate::wire::{proposal_encodable, MessageView, PayloadView, ReplyFirstView};

verus! {

/// Whether `v` is a batch of submitted commands that fits a message.
pub open spec fn genuine(submitted: Set<Command>, v: Seq<u8>) -> bool {
    &&& parse_batch(v) is Some
    &&& 0 < v.len() <= u32::MAX
    &&& forall|i: int|
        0 <= i < batch_of(v).len() ==> submitted.contains(#[trigger] batch_of(v)[i])
}

/// What has happened in a group.
#[verifier::ext_equal]
pub struct History {
    /// What happened in each slot.
    pub slots: Map<u64, SlotHistory>,
    /// The values that each replica delivered, from slot 1 on.
    pub delivered: Seq<Seq<Seq<u8>>>,
    /// The commands that were submitted.
    pub submitted: Set<Command>,
}

impl History {
    pub open spec fn empty(n: nat) -> History {
        History {
            slots: Map::total(|k: u64| SlotHistory::empty(n)),
            delivered: Seq::new(n, |i: int| Seq::empty()),
            submitted: Set::empty(),
        }
    }

    pub open spec fn slot(self, k: u64) -> SlotHistory {
        self.slots[k]
    }

    /// Whether the batch `v` of slot `k` takes no command past the sequencing
    /// window of its origin, as the chosen values `w` of the slots before it
    /// leave that window.
    pub open spec fn timely(self, k: u64, v: Seq<u8>, w: Seq<Seq<u8>>) -> bool {
        &&& w.len() < k
        &&& forall|x: int|
            0 <= x < w.len() ==> self.slot((x + 1) as u64).chosen(#[trigger] w[x])
        &&& within_window(dedup_of(w), batch_of(v))
    }

    /// Whether `v` is what a replica proposes for slot `k`.
    pub open spec fn proposable(self, k: u64, v: Seq<u8>) -> bool {
        &&& genuine(self.submitted, v)
        &&& exists|w: Seq<Seq<u8>>| #[trigger] self.timely(k, v, w)
    }

    proof fn lemma_proposable_persists(self, b: History, i: int, k: u64, v: Seq<u8>)
        requires
            self.grew(b, i),
            forall|x: u64| #[trigger] b.slot(x).sound(),
            self.proposable(k, v),
        ensures
            b.proposable(k, v),
    {
        let w = choose|w: Seq<Seq<u8>>| #[trigger] self.timely(k, v, w);
        assert forall|x: int| 0 <= x < w.len() implies b.slot((x + 1) as u64).chosen(
            #[trigger] w[x],
        ) by {
            let y = (x + 1) as u64;
            assert(self.slot(y).chosen(w[x]));
            assert(self.slot(y).grew(b.slot(y), i));
            assert(b.slot(y).sound());
            self.slot(y).lemma_chosen_persists(b.slot(y), w[x]);
        }
        assert(b.timely(k, v, w));
        assert forall|y: int| 0 <= y < batch_of(v).len() implies b.submitted.contains(
            #[trigger] batch_of(v)[y],
        ) by {
            assert(self.submitted.contains(batch_of(v)[y]));
        }
    }

    /// What holds of every history that the protocol produces.
    pub open spec fn sound(self, n: nat) -> bool {
        &&& forall|k: u64| #[trigger] self.slot(k).sound() && self.slot(k).n() == n
        &&& forall|k: u64, v: Seq<u8>| #[trigger]
            self.slot(k).has_value(v) ==> self.proposable(k, v)
        &&& self.delivered.len() == n
        &&& forall|c: Command| #[trigger]
            self.submitted.contains(c) ==> c.1.len() <= MAX_COMMAND_BYTES
    }

    /// Whether `b` continues this history by steps of replica `i` alone.
    pub open spec fn grew(self, b: History, i: int) -> bool {
        &&& forall|k: u64| #[trigger] self.slot(k).grew(b.slot(k), i)
        &&& self.delivered.len() == b.delivered.len()
        &&& forall|j: int|
            0 <= j < self.delivered.len() && j != i ==> b.delivered[j]
                == #[trigger] self.delivered[j]
        &&& forall|j: int|
            0 <= j < self.delivered.len() ==> b.delivered[j].len() >= (
            #[trigger] self.delivered[j]).len()
        &&& self.submitted.subset_of(b.submitted)
    }

    pub proof fn lemma_grew_refl(self, i: int)
        ensures
            self.grew(self, i),
    {
        assert forall|k: u64| #[trigger] self.slot(k).grew(self.slot(k), i) by {
            self.slot(k).lemma_grew_refl(i);
        }
    }

    pub proof fn lemma_grew_trans(self, b: History, c: History, i: int)
        requires
            self.grew(b, i),
            b.grew(c, i),
        ensures
            self.grew(c, i),
    {
        assert forall|k: u64| #[trigger] self.slot(k).grew(c.slot(k), i) by {
            assert(self.slot(k).grew(b.slot(k), i));
            assert(b.slot(k).grew(c.slot(k), i));
            self.slot(k).lemma_grew_trans(b.slot(k), c.slot(k), i);
        }
        assert forall|j: int| 0 <= j < self.delivered.len() && j != i implies c.delivered[j]
            == #[trigger] self.delivered[j] by {
            assert(b.delivered[j] == self.delivered[j]);
        }
        assert forall|j: int| 0 <= j < self.delivered.len() implies c.delivered[j].len() >= (
        #[trigger] self.delivered[j]).len() by {
            assert(b.delivered[j].len() >= self.delivered[j].len());
        }
    }

    // ---- messages ----

    /// What the replica at `f` says to the one at `t` is true.
    pub open spec fn payload_ok(self, f: int, t: int, payload: PayloadView) -> bool {
        match payload {
            PayloadView::Record { slot, step, proposal } => self.slot(slot.0).record_ok(
                f,
                t,
                step,
                proposal,
            ),
            PayloadView::RecordReply { slot, req_step, step, first, prior_agg } => self.slot(
                slot.0,
            ).reply_ok(f, t, req_step, step, first, prior_agg),
            PayloadView::Decide { slot, value } => self.slot(slot.0).chosen(value),
            PayloadView::Forward { commands } => {
                &&& commands.len() <= u32::MAX
                &&& forall|x: int|
                    0 <= x < commands.len() ==> self.submitted.contains(#[trigger] commands[x])
            },
            PayloadView::Learn { .. } => true,
            PayloadView::LearnReply { first_slot, values } => {
                &&& values.len() <= u32::MAX
                &&& first_slot.0 + values.len() <= u64::MAX + 1
                &&& forall|x: int|
                    0 <= x < values.len() ==> self.slot((first_slot.0 + x) as u64).chosen(
                        #[trigger] values[x],
                    )
            },
            PayloadView::Ping => true,
        }
    }

    /// What a message from one member to another says is true.
    pub open spec fn message_ok(self, ids: Seq<ReplicaId>, to: ReplicaId, msg: MessageView) -> bool {
        &&& ids.contains(to)
        &&& ids.contains(msg.from)
        &&& to != msg.from
        &&& msg.decided.0 <= self.delivered[ids.index_of(msg.from)].len()
        &&& self.payload_ok(ids.index_of(msg.from), ids.index_of(to), msg.payload)
    }

    pub open spec fn actions_ok(self, ids: Seq<ReplicaId>, i: int, actions: Seq<ActionView>) -> bool {
        forall|x: int|
            0 <= x < actions.len() ==> (#[trigger] actions[x] matches ActionView::Send {
                to,
                message,
            } ==> message.from == ids[i] && self.message_ok(ids, to, message))
    }

    pub proof fn lemma_payload_persists(
        self,
        b: History,
        n: nat,
        i: int,
        f: int,
        t: int,
        payload: PayloadView,
    )
        requires
            self.grew(b, i),
            b.sound(n),
            0 <= f < n,
            0 <= t < n,
            self.payload_ok(f, t, payload),
        ensures
            b.payload_ok(f, t, payload),
    {
        match payload {
            PayloadView::Record { slot, step, proposal } => {
                assert(self.slot(slot.0).grew(b.slot(slot.0), i));
            },
            PayloadView::RecordReply { slot, req_step, step, first, prior_agg } => {
                assert(self.slot(slot.0).grew(b.slot(slot.0), i));
                assert(b.slot(slot.0).sound());
                self.slot(slot.0).lemma_reply_persists(
                    b.slot(slot.0),
                    f,
                    t,
                    req_step,
                    step,
                    first,
                    prior_agg,
                );
            },
            PayloadView::Decide { slot, value } => {
                assert(self.slot(slot.0).grew(b.slot(slot.0), i));
                assert(b.slot(slot.0).sound());
                self.slot(slot.0).lemma_chosen_persists(b.slot(slot.0), value);
            },
            PayloadView::LearnReply { first_slot, values } => {
                assert forall|x: int| 0 <= x < values.len() implies b.slot(
                    (first_slot.0 + x) as u64,
                ).chosen(#[trigger] values[x]) by {
                    let k = (first_slot.0 + x) as u64;
                    assert(self.slot(k).chosen(values[x]));
                    assert(self.slot(k).grew(b.slot(k), i));
                    assert(b.slot(k).sound());
                    self.slot(k).lemma_chosen_persists(b.slot(k), values[x]);
                }
            },
            _ => {},
        }
    }

    pub proof fn lemma_message_persists(
        self,
        b: History,
        ids: Seq<ReplicaId>,
        i: int,
        to: ReplicaId,
        msg: MessageView,
    )
        requires
            self.grew(b, i),
            self.delivered.len() == ids.len(),
            b.sound(ids.len()),
            self.message_ok(ids, to, msg),
        ensures
            b.message_ok(ids, to, msg),
    {
        let f = ids.index_of(msg.from);
        assert(b.delivered[f].len() >= self.delivered[f].len());
        self.lemma_payload_persists(
            b,
            ids.len(),
            i,
            ids.index_of(msg.from),
            ids.index_of(to),
            msg.payload,
        );
    }

    pub proof fn lemma_actions_persist(
        self,
        b: History,
        ids: Seq<ReplicaId>,
        i: int,
        j: int,
        actions: Seq<ActionView>,
    )
        requires
            self.grew(b, i),
            self.delivered.len() == ids.len(),
            b.sound(ids.len()),
            self.actions_ok(ids, j, actions),
        ensures
            b.actions_ok(ids, j, actions),
    {
        assert forall|x: int| 0 <= x < actions.len() implies (#[trigger] actions[x]
            matches ActionView::Send { to, message } ==> message.from == ids[j] && b.message_ok(
            ids,
            to,
            message,
        )) by {
            if let ActionView::Send { to, message } = actions[x] {
                self.lemma_message_persists(b, ids, i, to, message);
            }
        }
    }

    /// A value that some proposal carries fits a message.
    proof fn lemma_proposal_fits(self, n: nat, k: u64, p: ProposalView)
        requires
            self.sound(n),
            shaped(p),
            self.slot(k).has_value(p.value),
        ensures
            proposal_encodable(p),
    {
        assert(self.proposable(k, p.value));
    }

    proof fn lemma_chosen_fits(self, n: nat, k: u64, v: Seq<u8>)
        requires
            self.sound(n),
            self.slot(k).chosen(v),
        ensures
            v.len() <= u32::MAX,
    {
        assert(self.slot(k).sound());
        self.slot(k).chosen_values_were_proposed(v);
        assert(self.proposable(k, v));
    }

    /// What the messages of a group say fits the wire format.
    pub proof fn lemma_encodable(self, ids: Seq<ReplicaId>, to: ReplicaId, msg: MessageView)
        requires
            self.sound(ids.len()),
            self.message_ok(ids, to, msg),
            msg.from.0 != 0,
        ensures
            msg.encodable(),
    {
        let n = ids.len();
        let f = ids.index_of(msg.from);
        let t = ids.index_of(to);
        match msg.payload {
            PayloadView::Record { slot, step, proposal } => {
                let h = self.slot(slot.0);
                assert(h.sound());
                assert(h.n() == n);
                assert(h.offer(f, step, t).value == proposal.value);
                assert(shaped(h.proposed[(f, step)][t]));
                self.lemma_proposal_fits(n, slot.0, proposal);
            },
            PayloadView::RecordReply { slot, req_step, step, first, prior_agg } => {
                let h = self.slot(slot.0);
                assert(h.sound());
                assert(h.n() == n);
                let q = h.recorded[f];
                crate::history::lemma_extremes(q, step);
                crate::history::lemma_extremes(q, (step - 1) as u32);
                if let ReplyFirstView::Full(p) = first {
                    h.lemma_accepted_has_value(f, step, p);
                    self.lemma_proposal_fits(n, slot.0, p);
                }
                if let Some(p) = prior_agg {
                    h.lemma_accepted_has_value(f, (step - 1) as u32, p);
                    self.lemma_proposal_fits(n, slot.0, p);
                }
            },
            PayloadView::Decide { slot, value } => {
                self.lemma_chosen_fits(n, slot.0, value);
            },
            PayloadView::Forward { commands } => {
                assert forall|x: int| 0 <= x < commands.len() implies (
                #[trigger] commands[x]).1.len() <= u32::MAX by {
                    assert(self.submitted.contains(commands[x]));
                }
            },
            PayloadView::LearnReply { first_slot, values } => {
                assert forall|x: int| 0 <= x < values.len() implies (#[trigger] values[x]).len()
                    <= u32::MAX by {
                    self.lemma_chosen_fits(n, (first_slot.0 + x) as u64, values[x]);
                }
            },
            _ => {},
        }
    }

    // ---- what a replica holds ----

    /// What replica `i` holds of slots is true.
    pub open spec fn slots_ok(self, i: int, slots: Map<u64, SlotView>, floor: u64) -> bool {
        &&& forall|k: u64| #[trigger] slots.contains_key(k) ==> self.slot(k).holds(i, slots[k])
        &&& forall|k: u64|
            k > floor && !#[trigger] slots.contains_key(k) ==> self.slot(k).absent(i)
    }

    /// The pool holds submitted commands.
    pub open spec fn pool_ok(self, pool: PoolView) -> bool {
        forall|id: CommandId| #[trigger]
            pool.entries.contains_key(id) ==> self.submitted.contains((id, pool.entries[id].data))
    }

    /// What replica `i` delivered, and is about to, is what the chosen values
    /// of the slots up to its watermark bring.
    pub open spec fn log_ok(
        self,
        i: int,
        decided: u64,
        dedup: DedupView,
        actions: Seq<ActionView>,
        applied: Seq<Delivery>,
    ) -> bool {
        let vals = self.delivered[i];
        &&& vals.len() == decided
        &&& forall|x: int|
            0 <= x < vals.len() ==> self.slot((x + 1) as u64).chosen(#[trigger] vals[x])
        &&& dedup == dedup_of(vals)
        &&& applied + pending(actions) == deliveries(vals)
    }

    /// The ids that replica `me` has given out.
    pub open spec fn ids_ok(self, me: ReplicaId, boot: u64, next_seq: u64) -> bool {
        forall|c: Command| #[trigger]
            self.submitted.contains(c) && c.0.origin == me ==> c.0.boot == boot && 1 <= c.0.seq
                <= next_seq
    }

    /// What a replica knows of the others' watermarks is true, if outdated.
    pub open spec fn acks_ok(self, acked: Seq<u64>) -> bool {
        forall|j: int|
            0 <= j < acked.len() ==> #[trigger] acked[j] <= self.delivered[j].len()
    }

    /// A replica without a retention budget has freed only what every
    /// replica has delivered.
    pub open spec fn floor_ok(self, budget: usize, floor: u64) -> bool {
        budget == usize::MAX ==> forall|j: int|
            0 <= j < self.delivered.len() ==> floor <= (#[trigger] self.delivered[j]).len()
    }

    /// All of what replica `i` holds, and what it handed out, is true of the
    /// history.
    pub open spec fn faithful(
        self,
        ids: Seq<ReplicaId>,
        i: int,
        s: State,
        applied: Seq<Delivery>,
    ) -> bool {
        &&& s.wf()
        &&& s.config.replicas == ids
        &&& s.m.me_idx == i
        &&& self.slots_ok(i, s.slots, s.gc_floor)
        &&& self.pool_ok(s.pool)
        &&& self.log_ok(i, s.decided, s.dedup, s.actions, applied)
        &&& self.actions_ok(ids, i, s.actions)
        &&& self.ids_ok(s.m.me, s.boot, s.next_seq)
        &&& self.acks_ok(s.peer_acked)
        &&& self.floor_ok(s.config.max_retained_bytes, s.gc_floor)
    }

    proof fn lemma_acks_persist(self, b: History, n: nat, i: int, acked: Seq<u64>)
        requires
            self.grew(b, i),
            self.delivered.len() == n,
            acked.len() == n,
            self.acks_ok(acked),
        ensures
            b.acks_ok(acked),
            forall|budget: usize, floor: u64| #[trigger]
                self.floor_ok(budget, floor) ==> b.floor_ok(budget, floor),
    {
        assert forall|budget: usize, floor: u64| #[trigger]
            self.floor_ok(budget, floor) implies b.floor_ok(budget, floor) by {
            if budget == usize::MAX {
                assert forall|j: int| 0 <= j < b.delivered.len() implies floor <= (
                #[trigger] b.delivered[j]).len() by {
                    assert(floor <= self.delivered[j].len());
                }
            }
        }
        assert forall|j: int| 0 <= j < acked.len() implies #[trigger] acked[j]
            <= b.delivered[j].len() by {
            assert(b.delivered[j].len() >= self.delivered[j].len());
        }
    }

    /// What another replica holds stays true.
    pub proof fn lemma_others_faithful(
        self,
        b: History,
        ids: Seq<ReplicaId>,
        i: int,
        j: int,
        s: State,
        applied: Seq<Delivery>,
    )
        requires
            self.sound(ids.len()),
            self.grew(b, i),
            b.sound(ids.len()),
            i != j,
            0 <= j < ids.len(),
            self.faithful(ids, j, s, applied),
            b.ids_ok(s.m.me, s.boot, s.next_seq),
        ensures
            b.faithful(ids, j, s, applied),
    {
        assert forall|k: u64| #[trigger] s.slots.contains_key(k) implies b.slot(k).holds(
            j,
            s.slots[k],
        ) by {
            assert(self.slot(k).grew(b.slot(k), i));
            assert(b.slot(k).sound());
            assert(self.slot(k).sound());
            self.slot(k).lemma_others_hold(b.slot(k), i, j, s.slots[k]);
        }
        assert forall|k: u64| k > s.gc_floor && !#[trigger] s.slots.contains_key(k) implies b.slot(
            k,
        ).absent(j) by {
            assert(self.slot(k).grew(b.slot(k), i));
            assert(self.slot(k).sound());
            self.slot(k).lemma_others_absent(b.slot(k), i, j);
        }
        self.lemma_log_persists(b, ids.len(), i, j, s.decided, s.dedup, s.actions, applied);
        self.lemma_actions_persist(b, ids, i, j, s.actions);
        self.lemma_acks_persist(b, ids.len(), i, s.peer_acked);
    }

    proof fn lemma_log_persists(
        self,
        b: History,
        n: nat,
        i: int,
        j: int,
        decided: u64,
        dedup: DedupView,
        actions: Seq<ActionView>,
        applied: Seq<Delivery>,
    )
        requires
            self.grew(b, i),
            b.sound(n),
            b.delivered[j] == self.delivered[j],
            self.log_ok(j, decided, dedup, actions, applied),
        ensures
            b.log_ok(j, decided, dedup, actions, applied),
    {
        let vals = self.delivered[j];
        assert forall|x: int| 0 <= x < vals.len() implies b.slot((x + 1) as u64).chosen(
            #[trigger] vals[x],
        ) by {
            let k = (x + 1) as u64;
            assert(self.slot(k).chosen(vals[x]));
            assert(self.slot(k).grew(b.slot(k), i));
            assert(b.slot(k).sound());
            self.slot(k).lemma_chosen_persists(b.slot(k), vals[x]);
        }
    }

    // ---- how the history grows ----

    pub open spec fn with_slot(self, k: u64, a: SlotHistory) -> History {
        History { slots: self.slots.insert(k, a), ..self }
    }

    /// A step in one slot.
    proof fn lemma_with_slot(self, n: nat, i: int, k: u64, a: SlotHistory)
        requires
            self.sound(n),
            a.sound(),
            self.slot(k).grew(a, i),
            forall|v: Seq<u8>| #[trigger] a.has_value(v) ==> self.proposable(k, v),
        ensures
            self.with_slot(k, a).sound(n),
            self.grew(self.with_slot(k, a), i),
            forall|x: u64| x != k ==> #[trigger] self.with_slot(k, a).slot(x) == self.slot(x),
            self.with_slot(k, a).slot(k) == a,
    {
        let b = self.with_slot(k, a);
        assert(self.slot(k).sound() && self.slot(k).n() == n);
        assert forall|x: u64| #[trigger] b.slot(x).sound() && b.slot(x).n() == n by {
            if x != k {
                assert(self.slot(x).sound());
                assert(self.slot(x).n() == n);
                assert(b.slot(x) == self.slot(x));
            }
        }
        assert forall|x: u64| #[trigger] self.slot(x).grew(b.slot(x), i) by {
            if x != k {
                self.slot(x).lemma_grew_refl(i);
            }
        }
        assert forall|x: u64, v: Seq<u8>| #[trigger] b.slot(x).has_value(v) implies b.proposable(
            x,
            v,
        ) by {
            if x != k {
                assert(self.slot(x).has_value(v));
            }
            self.lemma_proposable_persists(b, i, x, v);
        }
    }

    /// Replica `i` replaces what it holds for slot `k`, in step with the
    /// slot's history.
    proof fn lemma_slot_step(
        self,
        ids: Seq<ReplicaId>,
        i: int,
        s: State,
        applied: Seq<Delivery>,
        k: u64,
        a: SlotHistory,
        t: State,
    ) -> (b: History)
        requires
            self.sound(ids.len()),
            self.faithful(ids, i, s, applied),
            s.slots.contains_key(k),
            t.wf(),
            t == (State { slots: s.slots.insert(k, t.slots[k]), rng: t.rng, ..s }),
            a.sound(),
            self.slot(k).grew(a, i),
            a.holds(i, t.slots[k]),
            forall|v: Seq<u8>| #[trigger] a.has_value(v) ==> self.proposable(k, v),
        ensures
            b == self.with_slot(k, a),
            b.sound(ids.len()),
            self.grew(b, i),
            b.submitted == self.submitted,
            b.faithful(ids, i, t, applied),
    {
        let b = self.with_slot(k, a);
        self.lemma_with_slot(ids.len(), i, k, a);
        assert forall|x: u64| #[trigger] t.slots.contains_key(x) implies b.slot(x).holds(
            i,
            t.slots[x],
        ) by {
            if x != k {
                assert(s.slots.contains_key(x));
                assert(b.slot(x) == self.slot(x));
            }
        }
        assert forall|x: u64| x > t.gc_floor && !#[trigger] t.slots.contains_key(x) implies b.slot(
            x,
        ).absent(i) by {
            assert(!s.slots.contains_key(x));
            assert(b.slot(x) == self.slot(x));
        }
        self.lemma_log_persists(b, ids.len(), i, i, s.decided, s.dedup, s.actions, applied);
        self.lemma_actions_persist(b, ids, i, i, s.actions);
        self.lemma_acks_persist(b, ids.len(), i, s.peer_acked);
        b
    }

    /// Values that a step in one slot keeps were proposable before it.
    proof fn lemma_covered(self, n: nat, k: u64, a: SlotHistory)
        requires
            self.sound(n),
            self.slot(k).covers(a),
        ensures
            forall|v: Seq<u8>| #[trigger] a.has_value(v) ==> self.proposable(k, v),
    {
        assert forall|v: Seq<u8>| #[trigger] a.has_value(v) implies self.proposable(k, v) by {
            assert(self.slot(k).has_value(v));
        }
    }

    // ---- operations that leave the history alone ----

    proof fn lemma_send(
        self,
        ids: Seq<ReplicaId>,
        i: int,
        s: State,
        applied: Seq<Delivery>,
        idx: int,
        payload: PayloadView,
    )
        requires
            self.faithful(ids, i, s, applied),
            0 <= idx < ids.len(),
            idx != i,
            self.payload_ok(i, idx, payload),
        ensures
            self.faithful(ids, i, s.send(idx, payload), applied),
    {
        s.lemma_send_wf(idx, payload);
        let t = s.send(idx, payload);
        let a = t.actions.last();
        lemma_pending_push(s.actions, a);
        assert(ids.contains(ids[idx]));
        assert(ids.contains(ids[i]));
        s.lemma_index(ids[idx]);
        s.lemma_index(ids[i]);
        assert(s.index(ids[idx]) == idx);
        assert(s.index(ids[i]) == i);
        assert(ids[idx] != ids[i]);
        assert forall|x: int| 0 <= x < t.actions.len() implies (#[trigger] t.actions[x]
            matches ActionView::Send { to, message } ==> message.from == ids[i] && self.message_ok(
            ids,
            to,
            message,
        )) by {
            if x < s.actions.len() {
                assert(t.actions[x] == s.actions[x]);
            }
        }
    }

    proof fn lemma_send_upto(
        self,
        ids: Seq<ReplicaId>,
        i: int,
        s: State,
        applied: Seq<Delivery>,
        k: nat,
        payloads: spec_fn(int) -> PayloadView,
    )
        requires
            self.faithful(ids, i, s, applied),
            k <= ids.len(),
            forall|x: int|
                0 <= x < ids.len() && x != i ==> self.payload_ok(i, x, #[trigger] payloads(x)),
        ensures
            self.faithful(ids, i, s.send_upto(k, payloads), applied),
        decreases k,
    {
        if k > 0 {
            self.lemma_send_upto(ids, i, s, applied, (k - 1) as nat, payloads);
            s.lemma_send_upto_frame((k - 1) as nat, payloads);
            if k - 1 != i {
                let t = s.send_upto((k - 1) as nat, payloads);
                assert(self.payload_ok(i, k - 1, payloads(k - 1)));
                self.lemma_send(ids, i, t, applied, k - 1, payloads(k - 1));
            }
        }
    }

    proof fn lemma_freed(
        self,
        ids: Seq<ReplicaId>,
        i: int,
        s: State,
        applied: Seq<Delivery>,
        floor: u64,
    )
        requires
            self.faithful(ids, i, s, applied),
            floor <= s.decided,
            self.floor_ok(s.config.max_retained_bytes, floor),
        ensures
            self.faithful(ids, i, s.freed(floor), applied),
    {
        s.lemma_freed_wf(floor);
        let t = s.freed(floor);
        if s.gc_floor < floor {
            assert forall|k: u64| #[trigger] t.slots.contains_key(k) implies self.slot(k).holds(
                i,
                t.slots[k],
            ) by {
                assert(s.slots.contains_key(k));
            }
            assert forall|k: u64| k > t.gc_floor && !#[trigger] t.slots.contains_key(k) implies
                self.slot(k).absent(i) by {
                assert(!s.slots.contains_key(k));
            }
        }
    }

    proof fn lemma_evicted(
        self,
        ids: Seq<ReplicaId>,
        i: int,
        s: State,
        applied: Seq<Delivery>,
    )
        requires
            self.faithful(ids, i, s, applied),
        ensures
            self.faithful(ids, i, s.evicted(), applied),
        decreases s.decided - s.gc_floor,
    {
        if s.kept() > s.config.max_retained_bytes && s.gc_floor < s.decided {
            let next = (s.gc_floor + 1) as u64;
            self.lemma_freed(ids, i, s, applied, next);
            self.lemma_evicted(ids, i, s.freed(next), applied);
        }
    }

    proof fn lemma_gced(self, ids: Seq<ReplicaId>, i: int, s: State, applied: Seq<Delivery>)
        requires
            self.delivered.len() == ids.len(),
            self.faithful(ids, i, s, applied),
        ensures
            self.faithful(ids, i, s.gced(), applied),
    {
        let t = s.acknowledged();
        assert(t.wf());
        crate::invariants::lemma_least(t.peer_acked);
        assert(t.peer_acked[t.m.me_idx as int] == t.decided);
        assert(self.acks_ok(t.peer_acked)) by {
            assert forall|j: int| 0 <= j < t.peer_acked.len() implies #[trigger] t.peer_acked[j]
                <= self.delivered[j].len() by {
                if j != i {
                    assert(s.peer_acked[j] <= self.delivered[j].len());
                }
            }
        }
        assert(self.faithful(ids, i, t, applied));
        assert(self.floor_ok(t.config.max_retained_bytes, least(t.peer_acked))) by {
            assert forall|j: int| 0 <= j < self.delivered.len() implies least(t.peer_acked) <= (
            #[trigger] self.delivered[j]).len() by {
                assert(t.peer_acked[j] <= self.delivered[j].len());
            }
        }
        self.lemma_freed(ids, i, t, applied, least(t.peer_acked));
        self.lemma_evicted(ids, i, t.freed(least(t.peer_acked)), applied);
    }

    /// Changing what is noted of pool entries.
    proof fn lemma_pool_noted(
        self,
        ids: Seq<ReplicaId>,
        i: int,
        s: State,
        applied: Seq<Delivery>,
        t: State,
    )
        requires
            self.faithful(ids, i, s, applied),
            t.wf(),
            t == (State { pool: t.pool, ..s }),
            forall|id: CommandId| #[trigger]
                t.pool.entries.contains_key(id) ==> s.pool.entries.contains_key(id)
                    && t.pool.entries[id].data == s.pool.entries[id].data,
        ensures
            self.faithful(ids, i, t, applied),
    {
        assert forall|id: CommandId| #[trigger] t.pool.entries.contains_key(id) implies
            self.submitted.contains((id, t.pool.entries[id].data)) by {
            assert(s.pool.entries.contains_key(id));
        }
    }

    proof fn lemma_claimed(
        self,
        ids: Seq<ReplicaId>,
        i: int,
        s: State,
        applied: Seq<Delivery>,
        slot: u64,
        cs: Seq<Command>,
    )
        requires
            self.faithful(ids, i, s, applied),
        ensures
            self.faithful(ids, i, s.claimed(slot, cs), applied),
    {
        s.lemma_claimed_wf(slot, cs);
        self.lemma_pool_noted(ids, i, s, applied, s.claimed(slot, cs));
    }

    proof fn lemma_released(
        self,
        ids: Seq<ReplicaId>,
        i: int,
        s: State,
        applied: Seq<Delivery>,
        slot: u64,
        winners: Seq<Command>,
    )
        requires
            self.faithful(ids, i, s, applied),
        ensures
            self.faithful(ids, i, s.released(slot, winners), applied),
    {
        s.lemma_released_wf(slot, winners);
        self.lemma_pool_noted(ids, i, s, applied, s.released(slot, winners));
    }

    proof fn lemma_observed(
        self,
        ids: Seq<ReplicaId>,
        i: int,
        s: State,
        applied: Seq<Delivery>,
        now: u64,
        k: u64,
    )
        requires
            self.faithful(ids, i, s, applied),
            k > s.gc_floor,
        ensures
            self.faithful(ids, i, s.observed(now, k), applied),
    {
        s.lemma_observed_wf(now, k);
        if !s.slots.contains_key(k) {
            assert(self.slot(k).absent(i));
            let t = s.observed(now, k);
            assert forall|x: u64| #[trigger] t.slots.contains_key(x) implies self.slot(x).holds(
                i,
                t.slots[x],
            ) by {
                if x != k {
                    assert(s.slots.contains_key(x));
                }
            }
            assert forall|x: u64| x > t.gc_floor && !#[trigger] t.slots.contains_key(x) implies
                self.slot(x).absent(i) by {
                assert(!s.slots.contains_key(x));
            }
        }
    }

    proof fn lemma_installed(
        self,
        ids: Seq<ReplicaId>,
        i: int,
        s: State,
        applied: Seq<Delivery>,
        k: u64,
        value: Seq<u8>,
    )
        requires
            self.faithful(ids, i, s, applied),
            s.slots.contains_key(k),
            !s.slots[k].is_decided(),
            self.slot(k).chosen(value),
            s.kept() + value.len() <= usize::MAX,
        ensures
            self.faithful(ids, i, s.installed(k, value), applied),
    {
        s.lemma_installed_wf(k, value);
        let t = s.installed(k, value);
        assert forall|x: u64| #[trigger] t.slots.contains_key(x) implies self.slot(x).holds(
            i,
            t.slots[x],
        ) by {
            if x != k {
                assert(s.slots.contains_key(x));
            }
        }
        assert forall|x: u64| x > t.gc_floor && !#[trigger] t.slots.contains_key(x) implies
            self.slot(x).absent(i) by {
            assert(!s.slots.contains_key(x));
        }
    }

    /// Decided values that a replica retains are chosen.
    proof fn lemma_retained_chosen(
        self,
        ids: Seq<ReplicaId>,
        i: int,
        s: State,
        applied: Seq<Delivery>,
        k: u64,
    )
        requires
            self.faithful(ids, i, s, applied),
            s.retained.contains_key(k),
        ensures
            self.slot(k).chosen(s.retained[k]),
    {
        assert(s.slots.contains_key(k));
        assert(self.slot(k).holds(i, s.slots[k]));
    }

    // ---- delivery ----

    proof fn lemma_delivered_one(
        self,
        ids: Seq<ReplicaId>,
        i: int,
        s: State,
        applied: Seq<Delivery>,
    ) -> (b: History)
        requires
            self.sound(ids.len()),
            self.faithful(ids, i, s, applied),
            s.can_deliver(),
        ensures
            b.sound(ids.len()),
            self.grew(b, i),
            b.submitted == self.submitted,
            b.faithful(ids, i, s.delivered_one(), applied),
    {
        let next = (s.decided + 1) as u64;
        let v = s.retained[next];
        self.lemma_retained_chosen(ids, i, s, applied, next);
        let vals = self.delivered[i];
        let b = History { delivered: self.delivered.update(i, vals.push(v)), ..self };
        let t = s.delivered_one();
        s.lemma_delivered_one_wf();
        assert forall|k: u64| #[trigger] self.slot(k).grew(b.slot(k), i) by {
            self.slot(k).lemma_grew_refl(i);
        }
        assert forall|k: u64| #[trigger] b.slot(k).sound() && b.slot(k).n() == ids.len() by {
            assert(self.slot(k).sound());
        }
        assert forall|j: int| 0 <= j < self.delivered.len() implies b.delivered[j].len() >= (
        #[trigger] self.delivered[j]).len() by {}
        assert forall|k: u64, w: Seq<u8>| #[trigger] b.slot(k).has_value(w) implies b.proposable(
            k,
            w,
        ) by {
            assert(self.slot(k).has_value(w));
            self.lemma_proposable_persists(b, i, k, w);
        }
        assert(vals.push(v).drop_last() =~= vals);
        lemma_pending_push(s.actions, t.actions.last());
        assert(applied + pending(t.actions) =~= deliveries(vals.push(v)));
        assert forall|x: int| 0 <= x < vals.push(v).len() implies b.slot((x + 1) as u64).chosen(
            #[trigger] vals.push(v)[x],
        ) by {
            if x < vals.len() {
                assert(self.slot((x + 1) as u64).chosen(vals[x]));
            }
        }
        assert(b.log_ok(i, t.decided, t.dedup, t.actions, applied));
        crate::invariants::lemma_pool_without(
            s.pool,
            accepted(s.dedup, batch_of(v)),
        );
        assert forall|id: CommandId| #[trigger] t.pool.entries.contains_key(id) implies
            b.submitted.contains((id, t.pool.entries[id].data)) by {
            assert(s.pool.entries.contains_key(id));
        }
        assert(b.slots_ok(i, t.slots, t.gc_floor)) by {
            assert forall|k: u64| #[trigger] t.slots.contains_key(k) implies b.slot(k).holds(
                i,
                t.slots[k],
            ) by {
                assert(self.slot(k).holds(i, s.slots[k]));
            }
            assert forall|k: u64| k > t.gc_floor && !#[trigger] t.slots.contains_key(k) implies b.slot(
                k,
            ).absent(i) by {
                assert(self.slot(k).absent(i));
            }
        }
        self.lemma_acks_persist(b, ids.len(), i, s.peer_acked);
        self.lemma_actions_persist(b, ids, i, i, s.actions);
        assert forall|x: int| 0 <= x < t.actions.len() implies (#[trigger] t.actions[x]
            matches ActionView::Send { to, message } ==> message.from == ids[i] && b.message_ok(
            ids,
            to,
            message,
        )) by {
            if x < s.actions.len() {
                assert(t.actions[x] == s.actions[x]);
            }
        }
        b
    }

    proof fn lemma_delivered(
        self,
        ids: Seq<ReplicaId>,
        i: int,
        s: State,
        applied: Seq<Delivery>,
    ) -> (b: History)
        requires
            self.sound(ids.len()),
            self.faithful(ids, i, s, applied),
        ensures
            b.sound(ids.len()),
            self.grew(b, i),
            b.submitted == self.submitted,
            b.faithful(ids, i, s.delivered(), applied),
        decreases u64::MAX - s.decided,
    {
        self.lemma_grew_refl(i);
        if s.can_deliver() {
            let a = self.lemma_delivered_one(ids, i, s, applied);
            let b = a.lemma_delivered(ids, i, s.delivered_one(), applied);
            self.lemma_grew_trans(a, b, i);
            b
        } else {
            self
        }
    }

    proof fn lemma_settled(
        self,
        ids: Seq<ReplicaId>,
        i: int,
        s: State,
        applied: Seq<Delivery>,
        now: u64,
        k: u64,
        value: Seq<u8>,
        is_decider: bool,
    ) -> (b: History)
        requires
            self.sound(ids.len()),
            self.faithful(ids, i, s, applied),
            self.slot(k).chosen(value),
        ensures
            b.sound(ids.len()),
            self.grew(b, i),
            b.submitted == self.submitted,
            b.faithful(ids, i, s.settled(now, k, value, is_decider), applied),
    {
        self.lemma_grew_refl(i);
        s.lemma_settled_wf(now, k, value, is_decider);
        if s.drops(k, value, is_decider) {
            self
        } else {
            self.lemma_observed(ids, i, s, applied, now, k);
            s.lemma_observed_wf(now, k);
            let s0 = s.observed(now, k);
            if s0.slots[k].is_decided() {
                let t = s.settled(now, k, value, is_decider);
                assert forall|x: u64| #[trigger] t.slots.contains_key(x) implies self.slot(x).holds(
                    i,
                    t.slots[x],
                ) by {
                    assert(s0.slots.contains_key(x));
                }
                assert forall|x: u64| x > t.gc_floor && !#[trigger] t.slots.contains_key(x) implies
                    self.slot(x).absent(i) by {
                    assert(!s0.slots.contains_key(x));
                }
                self
            } else {
                self.lemma_installed(ids, i, s0, applied, k, value);
                let s1 = s0.installed(k, value);
                let f = |idx: int| PayloadView::Decide { slot: Slot(k), value };
                if is_decider {
                    self.lemma_send_upto(ids, i, s1, applied, ids.len(), f);
                }
                let s2 = if is_decider {
                    s1.send_all(f)
                } else {
                    s1
                };
                self.lemma_released(ids, i, s2, applied, k, batch_of(value));
                let s3 = s2.released(k, batch_of(value)).refreshed(now);
                assert(self.faithful(ids, i, s3, applied));
                let b = self.lemma_delivered(ids, i, s3, applied);
                let s5 = s3.delivered();
                let s4 = s5.acknowledged();
                assert(s4.wf());
                assert(b.acks_ok(s4.peer_acked)) by {
                    assert forall|j: int| 0 <= j < s4.peer_acked.len() implies
                        #[trigger] s4.peer_acked[j] <= b.delivered[j].len() by {
                        if j != i {
                            assert(s5.peer_acked[j] <= b.delivered[j].len());
                        }
                    }
                }
                assert(b.faithful(ids, i, s4, applied));
                b.lemma_gced(ids, i, s4.refreshed(now), applied);
                b
            }
        }
    }

    // ---- proposing ----

    /// The next batch of a replica is one of submitted commands.
    proof fn lemma_next_batch(
        self,
        ids: Seq<ReplicaId>,
        i: int,
        s: State,
        applied: Seq<Delivery>,
        k: u64,
    )
        requires
            self.faithful(ids, i, s, applied),
            k > s.decided,
        ensures
            self.proposable(k, batch_bytes(s.next_batch())),
    {
        let cs = s.next_batch();
        s.batches_fit_the_wire_format();
        batch_decoding_inverts_encoding(batch_bytes(cs), cs);
        assert forall|x: int| 0 <= x < batch_of(batch_bytes(cs)).len() implies
            self.submitted.contains(#[trigger] batch_of(batch_bytes(cs))[x]) by {
            assert(s.pool.entries.contains_key(cs[x].0));
        }
        assert(self.timely(k, batch_bytes(cs), self.delivered[i]));
    }

    proof fn lemma_drive_local(
        self,
        ids: Seq<ReplicaId>,
        i: int,
        s: State,
        applied: Seq<Delivery>,
        now: u64,
        k: u64,
    ) -> (b: History)
        requires
            self.sound(ids.len()),
            self.faithful(ids, i, s, applied),
            s.slots.contains_key(k),
        ensures
            b.sound(ids.len()),
            self.grew(b, i),
            b.submitted == self.submitted,
            b.faithful(ids, i, s.drive_local(now, k), applied),
            s.slots[k].driven(s.m, now, s.rng).next matches ProgressView::Decided(v) ==> b.slot(
                k,
            ).chosen(v),
    {
        assert(self.slot(k).sound());
        assert(self.slot(k).n() == ids.len());
        assert(self.slot(k).holds(i, s.slots[k]));
        let a = self.slot(k).lemma_driven(i, s.m, s.slots[k], now, s.rng);
        s.lemma_drive_local_wf(now, k);
        self.lemma_covered(ids.len(), k, a);
        let t = s.drive_local(now, k);
        assert(t.slots =~= s.slots.insert(k, t.slots[k]));
        self.lemma_slot_step(ids, i, s, applied, k, a, t)
    }

    proof fn lemma_send_records(
        self,
        ids: Seq<ReplicaId>,
        i: int,
        s: State,
        applied: Seq<Delivery>,
        k: u64,
    )
        requires
            self.sound(ids.len()),
            self.faithful(ids, i, s, applied),
            s.slots.contains_key(k),
            s.slots[k].is_running(),
        ensures
            self.faithful(ids, i, s.send_records(k), applied),
    {
        let run = s.slots[k].proposer->Running_0;
        let f = |idx: int|
            PayloadView::Record {
                slot: Slot(k),
                step: run.step,
                proposal: run.proposal_for(idx),
            };
        assert(self.slot(k).sound());
        assert(self.slot(k).n() == ids.len());
        assert(self.slot(k).holds(i, s.slots[k]));
        assert forall|x: int| 0 <= x < ids.len() && x != i implies self.payload_ok(
            i,
            x,
            #[trigger] f(x),
        ) by {
            assert(self.slot(k).offer(i, run.step, x) == run.proposal_for(x));
        }
        self.lemma_send_upto(ids, i, s, applied, ids.len(), f);
    }

    proof fn lemma_started(
        self,
        ids: Seq<ReplicaId>,
        i: int,
        s: State,
        applied: Seq<Delivery>,
        now: u64,
        k: u64,
        value: Seq<u8>,
    ) -> (b: History)
        requires
            self.sound(ids.len()),
            self.faithful(ids, i, s, applied),
            s.slots.contains_key(k),
            s.slots[k].proposer is Idle,
            !s.slots[k].is_decided(),
            self.proposable(k, value),
        ensures
            b.sound(ids.len()),
            self.grew(b, i),
            b.submitted == self.submitted,
            b.faithful(ids, i, s.started(now, k, value), applied),
    {
        assert(self.slot(k).sound());
        assert(self.slot(k).n() == ids.len());
        assert(self.slot(k).holds(i, s.slots[k]));
        let a = self.slot(k).lemma_started(i, s.m, s.slots[k], value, now, s.rng);
        assert forall|v: Seq<u8>| #[trigger] a.has_value(v) implies self.proposable(k, v) by {
            if v != value {
                assert(self.slot(k).has_value(v));
            }
        }
        s.lemma_started_wf(now, k, value);
        let t = s.started(now, k, value);
        assert(t.slots =~= s.slots.insert(k, t.slots[k]));
        self.lemma_slot_step(ids, i, s, applied, k, a, t)
    }

    proof fn lemma_decide(
        self,
        ids: Seq<ReplicaId>,
        i: int,
        s: State,
        applied: Seq<Delivery>,
        now: u64,
        k: u64,
        value: Seq<u8>,
        is_decider: bool,
    ) -> (b: History)
        requires
            self.sound(ids.len()),
            self.faithful(ids, i, s, applied),
            self.slot(k).chosen(value),
        ensures
            b.sound(ids.len()),
            self.grew(b, i),
            b.submitted == self.submitted,
            b.faithful(ids, i, s.decide(now, k, value, is_decider), applied),
        decreases u64::MAX - s.max_open, 3int,
    {
        let a = self.lemma_settled(ids, i, s, applied, now, k, value, is_decider);
        s.lemma_settled_frame(now, k, value, is_decider);
        if s.settles(k, value, is_decider) {
            let t = s.settled(now, k, value, is_decider);
            let b = a.lemma_opened(ids, i, t, applied, now);
            self.lemma_grew_trans(a, b, i);
            b
        } else {
            a
        }
    }

    proof fn lemma_open_more(
        self,
        ids: Seq<ReplicaId>,
        i: int,
        s: State,
        applied: Seq<Delivery>,
        now: u64,
    ) -> (b: History)
        requires
            self.sound(ids.len()),
            self.faithful(ids, i, s, applied),
        ensures
            b.sound(ids.len()),
            self.grew(b, i),
            b.submitted == self.submitted,
            b.faithful(ids, i, s.open_more(now), applied),
        decreases u64::MAX - s.max_open, 1int,
    {
        self.lemma_grew_refl(i);
        if s.can_open() {
            let k = (s.highest() + 1) as u64;
            let value = batch_bytes(s.next_batch());
            self.lemma_next_batch(ids, i, s, applied, k);
            self.lemma_claimed(ids, i, s, applied, k, s.next_batch());
            let t = s.opening();
            assert(t.wf()) by {
                s.lemma_claimed_wf(k, s.next_batch());
            }
            assert(self.faithful(ids, i, t, applied));
            let a = self.lemma_activated(ids, i, t, applied, now, k, value);
            let u = t.activated(now, k, value);
            t.lemma_activated_wf(now, k, value);
            let b = a.lemma_open_more(ids, i, u, applied, now);
            self.lemma_grew_trans(a, b, i);
            b
        } else {
            self
        }
    }

    proof fn lemma_opened(
        self,
        ids: Seq<ReplicaId>,
        i: int,
        s: State,
        applied: Seq<Delivery>,
        now: u64,
    ) -> (b: History)
        requires
            self.sound(ids.len()),
            self.faithful(ids, i, s, applied),
        ensures
            b.sound(ids.len()),
            self.grew(b, i),
            b.submitted == self.submitted,
            b.faithful(ids, i, s.opened(now), applied),
        decreases u64::MAX - s.max_open, 2int,
    {
        self.lemma_grew_refl(i);
        if s.m.leads() {
            let b = self.lemma_open_more(ids, i, s, applied, now);
            s.open_more(now).lemma_refreshed_wf(now);
            b
        } else {
            self
        }
    }

    proof fn lemma_activated(
        self,
        ids: Seq<ReplicaId>,
        i: int,
        s: State,
        applied: Seq<Delivery>,
        now: u64,
        k: u64,
        value: Seq<u8>,
    ) -> (b: History)
        requires
            self.sound(ids.len()),
            self.faithful(ids, i, s, applied),
            k > s.gc_floor,
            self.proposable(k, value),
        ensures
            b.sound(ids.len()),
            self.grew(b, i),
            b.submitted == self.submitted,
            b.faithful(ids, i, s.activated(now, k, value), applied),
        decreases u64::MAX - s.max_open, 5int,
    {
        self.lemma_grew_refl(i);
        self.lemma_observed(ids, i, s, applied, now, k);
        s.lemma_observed_wf(now, k);
        let t = s.observed(now, k);
        if !(t.slots[k].proposer is Idle) || t.slots[k].is_decided() {
            self
        } else {
            let a = self.lemma_started(ids, i, t, applied, now, k, value);
            let b = a.lemma_drive(ids, i, t.started(now, k, value), applied, now, k);
            self.lemma_grew_trans(a, b, i);
            b
        }
    }

    proof fn lemma_drive(
        self,
        ids: Seq<ReplicaId>,
        i: int,
        s: State,
        applied: Seq<Delivery>,
        now: u64,
        k: u64,
    ) -> (b: History)
        requires
            self.sound(ids.len()),
            self.faithful(ids, i, s, applied),
        ensures
            b.sound(ids.len()),
            self.grew(b, i),
            b.submitted == self.submitted,
            b.faithful(ids, i, s.drive(now, k), applied),
        decreases u64::MAX - s.max_open, 4int,
    {
        self.lemma_grew_refl(i);
        if s.slots.contains_key(k) {
            let a = self.lemma_drive_local(ids, i, s, applied, now, k);
            let t = s.drive_local(now, k);
            s.slots[k].lemma_driven_wf(s.m, now, s.rng);
            match s.slots[k].driven(s.m, now, s.rng).next {
                ProgressView::Wait => a,
                ProgressView::Send => {
                    a.lemma_send_records(ids, i, t, applied, k);
                    a
                },
                ProgressView::Decided(value) => {
                    let b = a.lemma_decide(ids, i, t, applied, now, k, value, true);
                    self.lemma_grew_trans(a, b, i);
                    b
                },
            }
        } else {
            self
        }
    }

    // ---- messages ----

    proof fn lemma_on_record(
        self,
        ids: Seq<ReplicaId>,
        i: int,
        s: State,
        applied: Seq<Delivery>,
        now: u64,
        j: int,
        k: u64,
        step: u32,
        p: ProposalView,
    ) -> (b: History)
        requires
            self.sound(ids.len()),
            self.faithful(ids, i, s, applied),
            0 <= j < ids.len(),
            j != i,
            self.slot(k).record_ok(j, i, step, p),
        ensures
            b.sound(ids.len()),
            self.grew(b, i),
            b.submitted == self.submitted,
            b.faithful(ids, i, s.on_record(now, j, k, step, p), applied),
    {
        self.lemma_grew_refl(i);
        if k <= s.gc_floor || step < 4 || k > s.decided + s.ahead_window() {
            self
        } else {
            self.lemma_observed(ids, i, s, applied, now, k);
            s.lemma_observed_wf(now, k);
            let t = s.observed(now, k);
            assert(self.slot(k).sound());
            assert(self.slot(k).n() == ids.len());
            assert(self.slot(k).holds(i, t.slots[k]));
            let a = self.slot(k).lemma_on_record(i, t.slots[k], now, j, step, p, Slot(k));
            self.lemma_covered(ids.len(), k, a);
            let state = t.slots[k].recorded(now, step, p);
            let u = State { slots: t.slots.insert(k, state), ..t };
            t.lemma_replaced_wf(k, state);
            assert(u.slots =~= t.slots.insert(k, u.slots[k]));
            let b = self.lemma_slot_step(ids, i, t, applied, k, a, u);
            assert(b.slot(k) == a);
            b.lemma_send(
                ids,
                i,
                u,
                applied,
                j,
                t.slots[k].record_reply(Slot(k), step, p),
            );
            b
        }
    }

    proof fn lemma_on_record_reply(
        self,
        ids: Seq<ReplicaId>,
        i: int,
        s: State,
        applied: Seq<Delivery>,
        now: u64,
        m: int,
        k: u64,
        req_step: u32,
        step: u32,
        first: ReplyFirstView,
        prior_agg: Option<ProposalView>,
    ) -> (b: History)
        requires
            self.sound(ids.len()),
            self.faithful(ids, i, s, applied),
            0 <= m < ids.len(),
            self.slot(k).reply_ok(m, i, req_step, step, first, prior_agg),
        ensures
            b.sound(ids.len()),
            self.grew(b, i),
            b.submitted == self.submitted,
            b.faithful(
                ids,
                i,
                s.on_record_reply(now, m, k, req_step, step, first, prior_agg),
                applied,
            ),
    {
        self.lemma_grew_refl(i);
        if s.slots.contains_key(k) {
            assert(self.slot(k).sound());
            assert(self.slot(k).n() == ids.len());
            assert(self.slot(k).holds(i, s.slots[k]));
            let h = self.slot(k).lemma_answered(
                i,
                s.m,
                s.slots[k],
                now,
                s.rng,
                m,
                req_step,
                step,
                first,
                prior_agg,
            );
            self.lemma_covered(ids.len(), k, h);
            let t = s.answered(now, m, k, req_step, step, first, prior_agg);
            s.lemma_answered_state_wf(now, m, k, req_step, step, first, prior_agg);
            assert(t.slots =~= s.slots.insert(k, t.slots[k]));
            let a = self.lemma_slot_step(ids, i, s, applied, k, h, t);
            assert(a.slot(k) == h);
            match s.slots[k].answer_progress(s.m, m, req_step, step, first, prior_agg) {
                ProgressView::Wait => a,
                ProgressView::Send => {
                    let b = a.lemma_drive(ids, i, t, applied, now, k);
                    self.lemma_grew_trans(a, b, i);
                    b
                },
                ProgressView::Decided(value) => {
                    let b = a.lemma_decide(ids, i, t, applied, now, k, value, true);
                    self.lemma_grew_trans(a, b, i);
                    b
                },
            }
        } else {
            self
        }
    }

    proof fn lemma_pooled(
        self,
        ids: Seq<ReplicaId>,
        i: int,
        s: State,
        applied: Seq<Delivery>,
        now: u64,
        cs: Seq<Command>,
    )
        requires
            self.faithful(ids, i, s, applied),
            forall|x: int| 0 <= x < cs.len() ==> self.submitted.contains(#[trigger] cs[x]),
        ensures
            self.faithful(ids, i, s.pooled(now, cs), applied),
        decreases cs.len(),
    {
        if cs.len() > 0 {
            let init = cs.drop_last();
            assert forall|x: int| 0 <= x < init.len() implies self.submitted.contains(
                #[trigger] init[x],
            ) by {
                assert(init[x] == cs[x]);
            }
            self.lemma_pooled(ids, i, s, applied, now, init);
            s.lemma_pooled_wf(now, cs);
            let before = s.pooled(now, init);
            let t = s.pooled(now, cs);
            let c = cs.last();
            assert(self.submitted.contains(cs[cs.len() - 1]));
            if before.takes(c) {
                assert forall|id: CommandId| #[trigger] t.pool.entries.contains_key(id) implies
                    self.submitted.contains((id, t.pool.entries[id].data)) by {
                    if id != c.0 {
                        assert(before.pool.entries.contains_key(id));
                    }
                }
            }
        }
    }

    proof fn lemma_learned(
        self,
        ids: Seq<ReplicaId>,
        i: int,
        s: State,
        applied: Seq<Delivery>,
        now: u64,
        first: u64,
        values: Seq<Seq<u8>>,
    ) -> (b: History)
        requires
            self.sound(ids.len()),
            self.faithful(ids, i, s, applied),
            first + values.len() <= u64::MAX + 1,
            forall|x: int|
                0 <= x < values.len() ==> self.slot((first + x) as u64).chosen(
                    #[trigger] values[x],
                ),
        ensures
            b.sound(ids.len()),
            self.grew(b, i),
            b.submitted == self.submitted,
            b.faithful(ids, i, s.learned(now, first, values), applied),
        decreases values.len(),
    {
        self.lemma_grew_refl(i);
        if values.len() == 0 {
            self
        } else {
            let init = values.drop_last();
            assert forall|x: int| 0 <= x < init.len() implies self.slot(
                (first + x) as u64,
            ).chosen(#[trigger] init[x]) by {
                assert(init[x] == values[x]);
            }
            let a = self.lemma_learned(ids, i, s, applied, now, first, init);
            let slot = first + values.len() - 1;
            if slot > u64::MAX {
                a
            } else {
                let k = slot as u64;
                assert(self.slot(k).chosen(values[values.len() - 1]));
                assert(self.slot(k).grew(a.slot(k), i));
                assert(a.slot(k).sound());
                self.slot(k).lemma_chosen_persists(a.slot(k), values.last());
                let before = s.learned(now, first, init);
                let b = a.lemma_decide(ids, i, before, applied, now, k, values.last(), false);
                self.lemma_grew_trans(a, b, i);
                b
            }
        }
    }

    /// What a catch-up reply carries is chosen.
    proof fn lemma_chunk(
        self,
        ids: Seq<ReplicaId>,
        i: int,
        s: State,
        applied: Seq<Delivery>,
        slot: u64,
        bytes: nat,
    )
        requires
            self.sound(ids.len()),
            self.faithful(ids, i, s, applied),
            s.gc_floor < slot <= s.decided,
            bytes < LEARN_CHUNK_BYTES,
        ensures
            slot + chunk_of(s.retained, slot, s.decided, bytes).len() <= s.decided + 1,
            chunk_of(s.retained, slot, s.decided, bytes).len() + bytes <= LEARN_CHUNK_BYTES,
            forall|x: int|
                0 <= x < chunk_of(s.retained, slot, s.decided, bytes).len() ==> self.slot(
                    (slot + x) as u64,
                ).chosen(#[trigger] chunk_of(s.retained, slot, s.decided, bytes)[x]),
        decreases s.decided - slot,
    {
        let value = s.retained[slot];
        let all = chunk_of(s.retained, slot, s.decided, bytes);
        assert(s.retained.contains_key(slot));
        self.lemma_retained_chosen(ids, i, s, applied, slot);
        assert(self.slot(slot).sound());
        self.slot(slot).chosen_values_were_proposed(value);
        assert(self.proposable(slot, value));
        if slot >= s.decided || bytes + value.len() >= LEARN_CHUNK_BYTES {
        } else {
            let next = (slot + 1) as u64;
            self.lemma_chunk(ids, i, s, applied, next, bytes + value.len());
            let rest = chunk_of(s.retained, next, s.decided, bytes + value.len());
            assert forall|x: int| 0 <= x < all.len() implies self.slot(
                (slot + x) as u64,
            ).chosen(#[trigger] all[x]) by {
                if x > 0 {
                    assert(all[x] == rest[x - 1]);
                    assert((next + (x - 1)) as u64 == (slot + x) as u64);
                }
            }
        }
    }

    proof fn lemma_request_learn(
        self,
        ids: Seq<ReplicaId>,
        i: int,
        s: State,
        applied: Seq<Delivery>,
        now: u64,
        idx: int,
        their_decided: u64,
    )
        requires
            self.faithful(ids, i, s, applied),
            0 <= idx < ids.len(),
            idx != i,
        ensures
            self.faithful(ids, i, s.request_learn(now, idx, their_decided), applied),
    {
        if their_decided > s.decided && !s.learn_waits(now) {
            let t = State { learn_in_flight: Some((idx as usize, now)), ..s };
            assert(self.faithful(ids, i, t, applied));
            self.lemma_send(
                ids,
                i,
                t,
                applied,
                idx,
                PayloadView::Learn { from_slot: Slot((s.decided + 1) as u64) },
            );
        }
    }

    proof fn lemma_handled(
        self,
        ids: Seq<ReplicaId>,
        i: int,
        s: State,
        applied: Seq<Delivery>,
        now: u64,
        f: int,
        payload: PayloadView,
    ) -> (b: History)
        requires
            self.sound(ids.len()),
            self.faithful(ids, i, s, applied),
            0 <= f < ids.len(),
            f != i,
            self.payload_ok(f, i, payload),
        ensures
            b.sound(ids.len()),
            self.grew(b, i),
            b.submitted == self.submitted,
            b.faithful(ids, i, s.handled(now, f, payload), applied),
    {
        self.lemma_grew_refl(i);
        match payload {
            PayloadView::Record { slot, step, proposal } => self.lemma_on_record(
                ids,
                i,
                s,
                applied,
                now,
                f,
                slot.0,
                step,
                proposal,
            ),
            PayloadView::RecordReply { slot, req_step, step, first, prior_agg } =>
            self.lemma_on_record_reply(
                ids,
                i,
                s,
                applied,
                now,
                f,
                slot.0,
                req_step,
                step,
                first,
                prior_agg,
            ),
            PayloadView::Decide { slot, value } => self.lemma_decide(
                ids,
                i,
                s,
                applied,
                now,
                slot.0,
                value,
                false,
            ),
            PayloadView::Forward { commands } => {
                self.lemma_pooled(ids, i, s, applied, now, commands);
                let t = s.pooled(now, commands).refreshed(now);
                assert(self.faithful(ids, i, t, applied));
                self.lemma_opened(ids, i, t, applied, now)
            },
            PayloadView::Learn { from_slot } => {
                let k = from_slot.0;
                if !(k <= s.gc_floor || k > s.decided || k == 0) {
                    self.lemma_chunk(ids, i, s, applied, k, 0);
                    self.lemma_send(
                        ids,
                        i,
                        s,
                        applied,
                        f,
                        PayloadView::LearnReply {
                            first_slot: Slot(k),
                            values: chunk_of(s.retained, k, s.decided, 0),
                        },
                    );
                }
                self
            },
            PayloadView::LearnReply { first_slot, values } => {
                let t = State { learn_in_flight: None, ..s };
                assert(self.faithful(ids, i, t, applied));
                self.lemma_learned(ids, i, t, applied, now, first_slot.0, values)
            },
            PayloadView::Ping => self,
        }
    }

    /// Receiving a true message extends the history soundly.
    pub proof fn lemma_received(
        self,
        ids: Seq<ReplicaId>,
        i: int,
        s: State,
        applied: Seq<Delivery>,
        now: u64,
        msg: MessageView,
    ) -> (b: History)
        requires
            self.sound(ids.len()),
            self.faithful(ids, i, s, applied),
            self.message_ok(ids, ids[i], msg),
        ensures
            b.sound(ids.len()),
            self.grew(b, i),
            b.submitted == self.submitted,
            b.faithful(ids, i, s.received(now, msg), applied),
    {
        self.lemma_grew_refl(i);
        s.lemma_index(ids[i]);
        if s.heeds(msg.from) {
            s.lemma_index(msg.from);
            let f = s.index(msg.from);
            let t = s.noted(f, msg.decided.0);
            assert(self.acks_ok(t.peer_acked)) by {
                assert forall|j: int| 0 <= j < t.peer_acked.len() implies #[trigger] t.peer_acked[j]
                    <= self.delivered[j].len() by {
                    assert(s.peer_acked[j] <= self.delivered[j].len());
                }
            }
            assert(self.faithful(ids, i, t, applied));
            let b = self.lemma_handled(ids, i, t, applied, now, f, msg.payload);
            let u = t.handled(now, f, msg.payload);
            b.lemma_request_learn(ids, i, u, applied, now, f, msg.decided.0);
            b.lemma_gced(ids, i, u.request_learn(now, f, msg.decided.0), applied);
            b
        } else {
            self
        }
    }

    // ---- submission ----

    /// Submitting extends the history soundly.
    pub proof fn lemma_submitted(
        self,
        ids: Seq<ReplicaId>,
        i: int,
        s: State,
        applied: Seq<Delivery>,
        now: u64,
        data: Seq<u8>,
    ) -> (b: History)
        requires
            self.sound(ids.len()),
            self.faithful(ids, i, s, applied),
            s.submit_error(data.len()) is None,
            s.next_seq < u64::MAX,
        ensures
            b.sound(ids.len()),
            self.grew(b, i),
            b.faithful(ids, i, s.submitted(now, data), applied),
            b.submitted == self.submitted.insert((s.next_id(), data)),
    {
        let id = s.next_id();
        let a = History { submitted: self.submitted.insert((id, data)), ..self };
        let t = s.enqueued(now, data);
        s.lemma_enqueued_wf(now, data);
        assert forall|k: u64| #[trigger] self.slot(k).grew(a.slot(k), i) by {
            self.slot(k).lemma_grew_refl(i);
        }
        assert forall|k: u64| #[trigger] a.slot(k).sound() && a.slot(k).n() == ids.len() by {
            assert(self.slot(k).sound());
        }
        assert forall|k: u64, w: Seq<u8>| #[trigger] a.slot(k).has_value(w) implies a.proposable(
            k,
            w,
        ) by {
            assert(self.slot(k).has_value(w));
            self.lemma_proposable_persists(a, i, k, w);
        }
        self.lemma_log_persists(a, ids.len(), i, i, s.decided, s.dedup, s.actions, applied);
        self.lemma_actions_persist(a, ids, i, i, s.actions);
        self.lemma_acks_persist(a, ids.len(), i, s.peer_acked);
        assert(a.slots_ok(i, t.slots, t.gc_floor)) by {
            assert forall|k: u64| #[trigger] t.slots.contains_key(k) implies a.slot(k).holds(
                i,
                t.slots[k],
            ) by {
                assert(self.slot(k).holds(i, s.slots[k]));
            }
            assert forall|k: u64| k > t.gc_floor && !#[trigger] t.slots.contains_key(k) implies a.slot(
                k,
            ).absent(i) by {
                assert(self.slot(k).absent(i));
            }
        }
        assert forall|x: CommandId| #[trigger] t.pool.entries.contains_key(x) implies
            a.submitted.contains((x, t.pool.entries[x].data)) by {
            if x != id {
                assert(s.pool.entries.contains_key(x));
                assert(self.submitted.contains((x, s.pool.entries[x].data)));
            }
        }
        assert(a.ids_ok(t.m.me, t.boot, t.next_seq));
        assert(a.faithful(ids, i, t, applied));
        if s.m.leads() {
            let b = a.lemma_opened(ids, i, t, applied, now);
            t.lemma_opened_wf(now);
            assert(b.faithful(ids, i, t.opened(now).refreshed(now), applied));
            self.lemma_grew_trans(a, b, i);
            b
        } else {
            t.lemma_forwarded_wf(now, id, 1);
            let u = t.forwarded(now, id, 1);
            a.lemma_pool_noted(ids, i, t, applied, u);
            let target = s.forward_target(0);
            assert(0 <= target < ids.len() && target != i) by {
                let r = 0int % (s.m.n - 1);
                assert(s.m.n >= 2);
                assert(0 <= r < s.m.n - 1) by (nonlinear_arith)
                    requires
                        r == 0int % (s.m.n - 1),
                        s.m.n >= 2,
                ;
            }
            a.lemma_send(
                ids,
                i,
                u,
                applied,
                target,
                PayloadView::Forward { commands: seq![(id, data)] },
            );
            a
        }
    }

    // ---- time ----

    proof fn lemma_hedge(
        self,
        ids: Seq<ReplicaId>,
        i: int,
        s: State,
        applied: Seq<Delivery>,
        now: u64,
        k: u64,
    ) -> (b: History)
        requires
            self.sound(ids.len()),
            self.faithful(ids, i, s, applied),
        ensures
            b.sound(ids.len()),
            self.grew(b, i),
            b.submitted == self.submitted,
            b.faithful(ids, i, s.hedge(now, k), applied),
    {
        self.lemma_grew_refl(i);
        if k > s.decided {
            self.lemma_next_batch(ids, i, s, applied, k);
            self.lemma_claimed(ids, i, s, applied, k, s.next_batch());
            self.lemma_activated(
                ids,
                i,
                s.claimed(k, s.next_batch()),
                applied,
                now,
                k,
                batch_bytes(s.next_batch()),
            )
        } else {
            self
        }
    }

    proof fn lemma_hedge_each(
        self,
        ids: Seq<ReplicaId>,
        i: int,
        s: State,
        applied: Seq<Delivery>,
        now: u64,
        due: Seq<u64>,
    ) -> (b: History)
        requires
            self.sound(ids.len()),
            self.faithful(ids, i, s, applied),
        ensures
            b.sound(ids.len()),
            self.grew(b, i),
            b.submitted == self.submitted,
            b.faithful(ids, i, s.hedge_each(now, due), applied),
        decreases due.len(),
    {
        self.lemma_grew_refl(i);
        if due.len() == 0 {
            self
        } else {
            let a = self.lemma_hedge_each(ids, i, s, applied, now, due.drop_last());
            let t = s.hedge_each(now, due.drop_last());
            let b = a.lemma_hedge(ids, i, t, applied, now, due.last());
            self.lemma_grew_trans(a, b, i);
            b
        }
    }

    proof fn lemma_renewed(
        self,
        ids: Seq<ReplicaId>,
        i: int,
        s: State,
        applied: Seq<Delivery>,
        k: u64,
    )
        requires
            self.sound(ids.len()),
            self.faithful(ids, i, s, applied),
        ensures
            self.faithful(ids, i, s.renewed(k), applied),
    {
        s.lemma_renewed_wf(k);
        if s.slots.contains_key(k) && s.slots[k].is_running() {
            let t = s.renewed(k);
            let h = self.slot(k);
            assert(h.sound());
            assert(h.holds(i, s.slots[k]));
            let run = s.slots[k].proposer->Running_0;
            let again = RunView { needs_send: true, ..run };
            assert(h.tallies(i, again)) by {
                assert(h.tallies_first(run));
                assert(h.tallies_agg(run));
                assert(h.tallies_first(again));
                assert(h.tallies_agg(again));
                assert forall|m: int| 0 <= m < h.n() implies #[trigger] h.offer(i, again.step, m)
                    == again.proposal_for(m) by {
                    assert(h.offer(i, run.step, m) == run.proposal_for(m));
                }
            }
            assert forall|x: u64| #[trigger] t.slots.contains_key(x) implies self.slot(x).holds(
                i,
                t.slots[x],
            ) by {
                if x != k {
                    assert(s.slots.contains_key(x));
                }
            }
            assert forall|x: u64| x > t.gc_floor && !#[trigger] t.slots.contains_key(x) implies
                self.slot(x).absent(i) by {
                assert(!s.slots.contains_key(x));
            }
        }
    }

    proof fn lemma_resend_each(
        self,
        ids: Seq<ReplicaId>,
        i: int,
        s: State,
        applied: Seq<Delivery>,
        now: u64,
        stale: Seq<u64>,
    ) -> (b: History)
        requires
            self.sound(ids.len()),
            self.faithful(ids, i, s, applied),
        ensures
            b.sound(ids.len()),
            self.grew(b, i),
            b.submitted == self.submitted,
            b.faithful(ids, i, s.resend_each(now, stale), applied),
        decreases stale.len(),
    {
        self.lemma_grew_refl(i);
        if stale.len() == 0 {
            self
        } else {
            let a = self.lemma_resend_each(ids, i, s, applied, now, stale.drop_last());
            let t = s.resend_each(now, stale.drop_last());
            let k = stale.last();
            a.lemma_renewed(ids, i, t, applied, k);
            let b = a.lemma_drive(ids, i, t.renewed(k), applied, now, k);
            self.lemma_grew_trans(a, b, i);
            b
        }
    }

    /// Everything in `chunks` was submitted, and goes to a member.
    spec fn chunks_ok(self, n: nat, i: int, chunks: Chunks) -> bool {
        &&& chunks.open.len() == n
        &&& forall|x: int, y: int|
            0 <= x < n && 0 <= y < chunks.open[x].len() ==> self.submitted.contains(
                #[trigger] chunks.open[x][y],
            )
        &&& chunks.open[i].len() == 0
        &&& forall|x: int|
            0 <= x < n ==> (#[trigger] chunks.open[x]).len() <= 1 || commands_cost(chunks.open[x])
                <= MAX_BATCH_BYTES_LIMIT
        &&& forall|x: int|
            0 <= x < chunks.full.len() ==> self.chunk_ok(n, i, #[trigger] chunks.full[x])
    }

    spec fn chunk_ok(self, n: nat, i: int, chunk: (int, Seq<Command>)) -> bool {
        &&& 0 <= chunk.0 < n
        &&& chunk.0 != i
        &&& chunk.1.len() <= u32::MAX
        &&& forall|y: int|
            0 <= y < chunk.1.len() ==> self.submitted.contains(#[trigger] chunk.1[y])
    }

    proof fn lemma_chunked(
        self,
        ids: Seq<ReplicaId>,
        i: int,
        s: State,
        applied: Seq<Delivery>,
        due: Seq<CommandId>,
    )
        requires
            self.faithful(ids, i, s, applied),
            ids.len() > 1,
            forall|x: int| 0 <= x < due.len() ==> s.pool.entries.contains_key(#[trigger] due[x]),
        ensures
            self.chunks_ok(ids.len(), i, s.chunked(due)),
        decreases due.len(),
    {
        if due.len() > 0 {
            let init = due.drop_last();
            assert forall|x: int| 0 <= x < init.len() implies s.pool.entries.contains_key(
                #[trigger] init[x],
            ) by {
                assert(init[x] == due[x]);
            }
            self.lemma_chunked(ids, i, s, applied, init);
            let before = s.chunked(init);
            let after = s.chunked(due);
            let id = due.last();
            assert(s.pool.entries.contains_key(due[due.len() - 1]));
            let e = s.pool.entries[id];
            let c = (id, e.data);
            assert(self.submitted.contains(c));
            let target = s.forward_target(e.forward_attempts);
            let r = e.forward_attempts as int % (s.m.n - 1);
            assert(0 <= r < s.m.n - 1) by (nonlinear_arith)
                requires
                    r == e.forward_attempts as int % (s.m.n - 1),
                    s.m.n > 1,
            ;
            assert(0 <= target < ids.len() && target != i);
            let filling = before.open[target];
            assert(filling.push(c).drop_last() =~= filling);
            lemma_cost_counts(filling);
            assert forall|x: int| 0 <= x < ids.len() implies (#[trigger] after.open[x]).len() <= 1
                || commands_cost(after.open[x]) <= MAX_BATCH_BYTES_LIMIT by {
                if x != target {
                    assert(after.open[x] == before.open[x]);
                }
            }
            assert forall|x: int, y: int|
                0 <= x < ids.len() && 0 <= y < after.open[x].len() implies self.submitted.contains(
                #[trigger] after.open[x][y],
            ) by {
                if x != target {
                    assert(after.open[x] == before.open[x]);
                    assert(self.submitted.contains(before.open[x][y]));
                } else if after.open[x][y] != c {
                    assert(after.open[x][y] == before.open[x][y]);
                    assert(self.submitted.contains(before.open[x][y]));
                }
            }
            assert forall|x: int| 0 <= x < after.full.len() implies self.chunk_ok(
                ids.len(),
                i,
                #[trigger] after.full[x],
            ) by {
                if x < before.full.len() {
                    assert(after.full[x] == before.full[x]);
                } else {
                    let chunk = after.full[x];
                    assert(chunk == (target, before.open[target]));
                    assert forall|y: int| 0 <= y < chunk.1.len() implies self.submitted.contains(
                        #[trigger] chunk.1[y],
                    ) by {
                        assert(self.submitted.contains(before.open[target][y]));
                    }
                }
            }
        }
    }

    proof fn lemma_flushed(self, n: nat, i: int, chunks: Chunks, k: nat)
        requires
            self.chunks_ok(n, i, chunks),
            k <= n,
        ensures
            forall|x: int|
                0 <= x < chunks.flushed(k).len() ==> self.chunk_ok(
                    n,
                    i,
                    #[trigger] chunks.flushed(k)[x],
                ),
        decreases k,
    {
        if k > 0 {
            let before = chunks.flushed((k - 1) as nat);
            self.lemma_flushed(n, i, chunks, (k - 1) as nat);
            assert forall|x: int| 0 <= x < chunks.flushed(k).len() implies self.chunk_ok(
                n,
                i,
                #[trigger] chunks.flushed(k)[x],
            ) by {
                if x < before.len() {
                    assert(chunks.flushed(k)[x] == before[x]);
                } else {
                    let chunk = chunks.flushed(k)[x];
                    assert(chunk == (k - 1, chunks.open[k - 1]));
                    lemma_cost_counts(chunks.open[k - 1]);
                    assert forall|y: int| 0 <= y < chunk.1.len() implies self.submitted.contains(
                        #[trigger] chunk.1[y],
                    ) by {
                        assert(self.submitted.contains(chunks.open[k - 1][y]));
                    }
                }
            }
        }
    }

    proof fn lemma_send_forwards(
        self,
        ids: Seq<ReplicaId>,
        i: int,
        s: State,
        applied: Seq<Delivery>,
        chunks: Seq<(int, Seq<Command>)>,
    )
        requires
            self.faithful(ids, i, s, applied),
            forall|x: int|
                0 <= x < chunks.len() ==> self.chunk_ok(ids.len(), i, #[trigger] chunks[x]),
        ensures
            self.faithful(ids, i, s.send_forwards(chunks), applied),
        decreases chunks.len(),
    {
        if chunks.len() > 0 {
            let init = chunks.drop_last();
            assert forall|x: int| 0 <= x < init.len() implies self.chunk_ok(
                ids.len(),
                i,
                #[trigger] init[x],
            ) by {
                assert(init[x] == chunks[x]);
            }
            self.lemma_send_forwards(ids, i, s, applied, init);
            assert(self.chunk_ok(ids.len(), i, chunks[chunks.len() - 1]));
            self.lemma_send(
                ids,
                i,
                s.send_forwards(init),
                applied,
                chunks.last().0,
                PayloadView::Forward { commands: chunks.last().1 },
            );
        }
    }

    proof fn lemma_reforwarded(
        self,
        ids: Seq<ReplicaId>,
        i: int,
        s: State,
        applied: Seq<Delivery>,
        now: u64,
    )
        requires
            self.faithful(ids, i, s, applied),
        ensures
            self.faithful(ids, i, s.reforwarded(now), applied),
    {
        if !s.m.leads() {
            let due = s.forward_due(now);
            let dom = s.pool.entries.dom();
            let pred = |id: CommandId|
                s.forwards(id) && now.saturating_sub(s.pool.entries[id].last_forward)
                    >= s.forward_interval();
            crate::sorted::lemma_ascending(dom);
            crate::sorted::lemma_filter_ascends(ascending(dom), pred);
            assert(due == ascending(dom).filter(pred));
            assert forall|x: int| 0 <= x < due.len() implies s.pool.entries.contains_key(
                #[trigger] due[x],
            ) by {
                assert(due.contains(due[x]));
                assert(ascending(dom).to_set().contains(due[x]));
                assert(dom.contains(due[x]));
            }
            self.lemma_chunked(ids, i, s, applied, due);
            self.lemma_flushed(ids.len(), i, s.chunked(due), ids.len());
            s.lemma_refreshed_forwards_wf(now, due);
            let t = s.refreshed_forwards(now, due);
            self.lemma_pool_noted(ids, i, s, applied, t);
            self.lemma_send_forwards(ids, i, t, applied, s.chunked(due).flushed(ids.len()));
        }
    }

    proof fn lemma_learn_ticked(
        self,
        ids: Seq<ReplicaId>,
        i: int,
        s: State,
        applied: Seq<Delivery>,
        now: u64,
    )
        requires
            self.faithful(ids, i, s, applied),
        ensures
            self.faithful(ids, i, s.learn_ticked(now), applied),
    {
        let t = s.learn_expired(now);
        assert(self.faithful(ids, i, t, applied));
        if t.learn_in_flight is None && t.ahead().len() > 0 {
            let ahead = t.ahead();
            let x = t.learn_attempts as int % ahead.len() as int;
            assert(0 <= x < ahead.len()) by (nonlinear_arith)
                requires
                    x == t.learn_attempts as int % ahead.len() as int,
                    ahead.len() > 0,
            ;
            let all = Seq::new(t.m.n as nat, |y: int| y);
            let pred = |y: int| y != t.m.me_idx && t.peer_acked[y] > t.decided;
            assert(ahead == all.filter(pred));
            let idx = ahead[x];
            assert(0 <= idx < ids.len() && idx != i) by {
                assert(all.filter(pred).contains(idx));
                lemma_filter_members(all, pred, idx);
                let y = choose|y: int| 0 <= y < all.len() && all[y] == idx;
                assert(all[y] == y);
            }
            self.lemma_request_learn(ids, i, t, applied, now, idx, t.peer_acked[idx]);
        }
    }

    /// The passage of time extends the history soundly.
    pub proof fn lemma_ticked(
        self,
        ids: Seq<ReplicaId>,
        i: int,
        s: State,
        applied: Seq<Delivery>,
        now: u64,
    ) -> (b: History)
        requires
            self.sound(ids.len()),
            self.faithful(ids, i, s, applied),
        ensures
            b.sound(ids.len()),
            self.grew(b, i),
            b.submitted == self.submitted,
            b.faithful(ids, i, s.ticked(now), applied),
    {
        if s.decided < u64::MAX {
            self.lemma_observed(ids, i, s, applied, now, (s.decided + 1) as u64);
        }
        let s1 = s.frontier_observed(now);
        assert(self.faithful(ids, i, s1, applied));
        let a = self.lemma_hedge_each(ids, i, s1, applied, now, s1.hedge_due(now));
        let s2 = s1.hedged(now);
        assert(a.faithful(ids, i, s2, applied));
        let b = a.lemma_opened(ids, i, s2, applied, now);
        self.lemma_grew_trans(a, b, i);
        let s3 = s2.opened(now);
        let c = b.lemma_resend_each(ids, i, s3, applied, now, s3.stale(now));
        self.lemma_grew_trans(b, c, i);
        let s4 = s3.retransmitted(now);
        c.lemma_reforwarded(ids, i, s4, applied, now);
        let s5 = s4.reforwarded(now);
        c.lemma_learn_ticked(ids, i, s5, applied, now);
        let s6 = s5.learn_ticked(now);
        let s7 = State { last_ping: now, ..s6 };
        assert(c.faithful(ids, i, s7, applied));
        c.lemma_send_upto(ids, i, s7, applied, ids.len(), |idx: int| PayloadView::Ping);
        c
    }
}

/// What is left after filtering was there before.
pub proof fn lemma_filter_members(q: Seq<int>, pred: spec_fn(int) -> bool, x: int)
    requires
        q.filter(pred).contains(x),
    ensures
        q.contains(x),
        pred(x),
    decreases q.len(),
{
    reveal(Seq::filter);
    if q.len() > 0 {
        let init = q.drop_last();
        let sub = init.filter(pred);
        let j = choose|j: int| 0 <= j < q.filter(pred).len() && q.filter(pred)[j] == x;
        if j < sub.len() {
            assert(sub[j] == x);
            lemma_filter_members(init, pred, x);
            let y = choose|y: int| 0 <= y < init.len() && init[y] == x;
            assert(q[y] == x);
        } else {
            assert(q[q.len() - 1] == x);
        }
    }
}

} // verus!
