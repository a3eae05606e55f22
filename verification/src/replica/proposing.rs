//! The proposer role across slots: batching, opening slots, driving runs.

use vstd::prelude::*;

use crate::pool::origin_of;
use crate::proposer::{ProposerState, ProposerView, Run};
use crate::replica::Replica;
use crate::slot::Progress;
use crate::sorted::{ascending, Key};
use crate::state::{commands_cost, fitting, DEDUP_WINDOW};
use crate::types::{
    batch_bytes, commands_of, encode_batch, share, Bytes, CommandBatch, CommandId, Slot,
    COMMAND_WIRE_OVERHEAD,
};
use crate::wire::{Payload, PayloadView};

verus! {

/// Filtering a prefix gives a prefix.
pub(crate) proof fn lemma_filter_prefix<A>(q: Seq<A>, pred: spec_fn(A) -> bool, i: int)
    requires
        0 <= i <= q.len(),
    ensures
        q.take(i).filter(pred).len() <= q.filter(pred).len(),
        q.take(i).filter(pred) == q.filter(pred).take(q.take(i).filter(pred).len() as int),
        i < q.len() ==> q.take(i + 1).filter(pred) == (if pred(q[i]) {
            q.take(i).filter(pred).push(q[i])
        } else {
            q.take(i).filter(pred)
        }),
    decreases q.len() - i,
{
    reveal(Seq::filter);
    if i == q.len() {
        assert(q.take(i) =~= q);
        assert(q.filter(pred).take(q.filter(pred).len() as int) =~= q.filter(pred));
    } else {
        assert(q.take(i + 1).drop_last() =~= q.take(i));
        assert(q.take(i + 1).last() == q[i]);
        lemma_filter_prefix(q, pred, i + 1);
        let a = q.take(i).filter(pred);
        let b = q.take(i + 1).filter(pred);
        assert(a =~= b.take(a.len() as int));
        assert(a =~= q.filter(pred).take(a.len() as int));
    }
}

impl Replica {
    /// The commands that may ride in a new proposal, up to the batch limit.
    fn collect_batch(&self) -> (batch: CommandBatch)
        requires
            self.wf(),
        ensures
            commands_of(batch@) == self@.next_batch(),
    {
        let ghost s = self@;
        let ghost keys = ascending(s.pool.entries.dom());
        let ghost pred = |id: CommandId|
            s.pool.entries[id].proposed_in is None && id.seq <= s.dedup.high_water(origin_of(id))
                + DEDUP_WINDOW;
        let ghost command = |id: CommandId| (id, s.pool.entries[id].data);
        let ghost all = s.eligible();
        let limit = self.config.max_batch_bytes;
        proof {
            self.pool.entries.lemma_entries();
            assert(self.pool.entries@.dom() =~= s.pool.entries.dom());
            assert(keys == self.pool.entries.keys());
            assert(all == keys.filter(pred).map_values(command));
        }
        let mut batch: CommandBatch = Vec::new();
        let mut bytes: usize = 0;
        let mut i: usize = 0;
        proof {
            reveal(Seq::filter);
            assert(commands_of(batch@) =~= keys.take(0).filter(pred).map_values(command));
            if keys.len() == 0 {
                assert(keys.take(0) =~= keys);
            }
        }
        while i < self.pool.entries.len()
            invariant_except_break
                i == keys.len() ==> commands_of(batch@) == fitting(all, limit as nat),
            invariant
                i <= keys.len(),
                self.wf(),
                s == self@,
                limit == s.config.max_batch_bytes,
                keys == self.pool.entries.keys(),
                all == keys.filter(pred).map_values(command),
                forall|id: CommandId| #[trigger]
                    pred(id) == (s.pool.entries[id].proposed_in is None && id.seq
                        <= s.dedup.high_water(origin_of(id)) + DEDUP_WINDOW),
                forall|id: CommandId| #[trigger] command(id) == (id, s.pool.entries[id].data),
                commands_of(batch@) == keys.take(i as int).filter(pred).map_values(command),
                bytes == commands_cost(commands_of(batch@)),
                batch@.len() <= 1 || bytes <= limit,
            ensures
                commands_of(batch@) == fitting(all, limit as nat),
            decreases keys.len() - i,
        {
            let ghost taken = commands_of(batch@);
            let id = self.pool.entries.key_at(i);
            let entry = self.pool.entries.value_at(i);
            let high_water = self.dedup.high_water(id.origin, id.boot);
            proof {
                self.pool.entries.lemma_entries();
                assert(self.pool.entries@.contains_key(id));
                assert(s.pool.entries.contains_key(id));
                assert(s.pool.entries[id] == entry@);
                lemma_filter_prefix(keys, pred, i as int);
                lemma_filter_prefix(keys, pred, i + 1);
                if pred(id) {
                    assert(keys.take(i + 1).filter(pred).map_values(command) =~= taken.push(
                        command(id),
                    ));
                    assert(taken.push(command(id)).drop_last() =~= taken);
                    assert(all.take(taken.len() as int) =~= taken);
                    assert(all.take(taken.len() as int + 1) =~= taken.push(command(id)));
                }
            }
            // Per-origin sequencing window: never batch a command more than
            // DEDUP_WINDOW sequences past what has been delivered for its
            // origin. Batches are built lowest-sequence-first, so this does
            // not starve anything; it bounds the sparse dedup state (the
            // delivered-above-the-mark set) that out-of-order commits can
            // otherwise grow while one low sequence stays undecided.
            if entry.proposed_in.is_none() && id.seq <= high_water.saturating_add(DEDUP_WINDOW) {
                // Count encoded size (data plus per-command framing) so the
                // batch limit bounds the wire size, not just the payload
                // bytes.
                let cost = entry.data.len() + COMMAND_WIRE_OVERHEAD;
                if batch.len() > 0 && (bytes > limit || cost > limit - bytes) {
                    proof {
                        crate::invariants::lemma_fitting_is(
                            all,
                            limit as nat,
                            taken.len() as int,
                        );
                    }
                    break;
                }
                bytes += cost;
                batch.push((id, share(&entry.data)));
                assert(commands_of(batch@) =~= taken.push(command(id)));
            }
            i += 1;
            proof {
                if i == keys.len() {
                    assert(keys.take(i as int) =~= keys);
                    assert(commands_of(batch@) == all);
                    assert(fitting(all, limit as nat) == all);
                }
            }
        }
        batch
    }

    /// Claims unassigned pool commands (up to the batch limit) for `slot`.
    pub(super) fn take_unassigned_batch(&mut self, slot: Slot) -> (batch: CommandBatch)
        requires
            old(self).wf(),
        ensures
            final(self).wf(),
            commands_of(batch@) == old(self)@.next_batch(),
            final(self)@ == old(self)@.claimed(slot.0, old(self)@.next_batch()),
    {
        let batch = self.collect_batch();
        self.pool.claim(slot, &batch);
        proof {
            old(self)@.lemma_claimed_wf(slot.0, old(self)@.next_batch());
            assert(self@ =~= old(self)@.claimed(slot.0, old(self)@.next_batch()));
        }
        batch
    }

    /// How many proposers run beyond the watermark. Running proposers only
    /// exist there, since decided slots are done.
    fn running_count(&self) -> (r: usize)
        requires
            self.wf(),
        ensures
            r == self@.running().len(),
    {
        let ghost s = self@;
        let ghost keys = self.slots.keys();
        let ghost pred = |k: u64| k > s.decided && s.slots[k].is_running();
        let mut count: usize = 0;
        let mut i: usize = 0;
        proof {
            self.slots.lemma_entries();
            assert(keys.take(0).to_set().filter(pred) =~= Set::empty());
        }
        while i < self.slots.len()
            invariant
                i <= keys.len(),
                count <= i,
                self.wf(),
                s == self@,
                keys == self.slots.keys(),
                forall|k: u64| #[trigger]
                    pred(k) == (k > s.decided && s.slots[k].is_running()),
                keys.take(i as int).to_set().filter(pred).finite(),
                count == keys.take(i as int).to_set().filter(pred).len(),
            decreases keys.len() - i,
        {
            let k = self.slots.key_at(i);
            let running = self.slots.value_at(i).is_running();
            proof {
                self.slots.lemma_entries();
                assert(self.slots@.contains_key(k));
                let before = keys.take(i as int).to_set().filter(pred);
                let after = keys.take(i + 1).to_set().filter(pred);
                assert(keys.take(i + 1) =~= keys.take(i as int).push(k));
                if before.contains(k) {
                    let j = choose|j: int| 0 <= j < i && keys.take(i as int)[j] == k;
                    assert(keys[j].rank() < keys[i as int].rank());
                }
                assert forall|x: u64| keys.take(i + 1).contains(x) <==> keys.take(
                    i as int,
                ).contains(x) || x == k by {
                    vstd::seq_lib::lemma_seq_contains_after_push(keys.take(i as int), k, x);
                }
                assert(after =~= if pred(k) {
                    before.insert(k)
                } else {
                    before
                });
            }
            if k > self.decided_contig.0 && running {
                count += 1;
            }
            i += 1;
        }
        proof {
            self.slots.lemma_entries();
            assert(keys.take(i as int) =~= keys);
            assert(self.slots@.dom() =~= s.slots.dom());
            assert(s.running() =~= keys.to_set().filter(pred));
        }
        count
    }

    /// The highest slot that is open, decided or known.
    fn highest_slot(&self) -> (r: Slot)
        requires
            self.wf(),
        ensures
            r.0 == self@.highest(),
    {
        proof {
            self.slots.lemma_entries();
            assert(self.slots@.dom() =~= self@.slots.dom());
        }
        let len = self.slots.len();
        let last_known = if len == 0 {
            0
        } else {
            self.slots.key_at(len - 1)
        };
        let a = if self.max_open.0 > self.decided_contig.0 {
            self.max_open.0
        } else {
            self.decided_contig.0
        };
        Slot(
            if last_known > a {
                last_known
            } else {
                a
            },
        )
    }

    /// Leader only: opens new slots (up to the pipeline depth) for pool
    /// commands not already riding in an open proposal.
    pub(super) fn maybe_open_slots(&mut self, now: u64)
        requires
            old(self).wf(),
        ensures
            final(self).wf(),
            final(self)@ == old(self)@.opened(now),
        decreases u64::MAX - old(self)@.max_open, 2int,
    {
        if !self.is_leader() {
            return;
        }
        loop
            invariant
                self.wf(),
                self@.open_more(now) == old(self)@.open_more(now),
                self@.max_open >= old(self)@.max_open,
            ensures
                self.wf(),
                self@ == old(self)@.open_more(now),
            decreases u64::MAX - self@.max_open,
        {
            if self.running_count() >= self.config.pipeline as usize {
                break;
            }
            let highest = self.highest_slot();
            // Pipelining is bounded by distance from the frontier, not just
            // by concurrently running proposers: with a stuck frontier and
            // later slots still deciding, the leader would otherwise open
            // slots (and accumulate its own decided-ahead values, which the
            // retention budget must not drop) without bound.
            if highest.0 == u64::MAX || highest.0 - self.decided_contig.0
                >= self.config.pipeline as u64 {
                break;
            }
            let slot = highest.next();
            let ghost s = self@;
            let batch = self.take_unassigned_batch(slot);
            assert(commands_of(batch@).len() == batch@.len());
            if batch.len() == 0 {
                proof {
                    assert(self@.pool.entries =~= s.pool.entries);
                    assert(self@ =~= s);
                }
                break;
            }
            self.max_open = slot;
            assert(self@ =~= s.opening());
            assert(self.wf());
            proof {
                self@.lemma_activated_wf(now, slot.0, batch_bytes(s.next_batch()));
            }
            self.activate(now, slot, encode_batch(&batch));
        }
        self.refresh_pool_pending(now);
    }

    /// Starts this replica's proposer for a slot, always at round 1 phase 0
    /// with a fresh value (the only way new values enter a slot).
    pub(super) fn activate(&mut self, now: u64, slot: Slot, value: Bytes)
        requires
            old(self).wf(),
            slot.0 > old(self)@.gc_floor,
        ensures
            final(self).wf(),
            final(self)@ == old(self)@.activated(now, slot.0, value@),
        decreases u64::MAX - old(self)@.max_open, 5int,
    {
        self.observe(now, slot);
        let ghost s = self@;
        let fast = self.is_leader();
        let mut started = false;
        match self.slots.get_mut(&slot.0) {
            Some(state) => {
                if state.is_idle() && !state.is_decided() {
                    state.proposer = ProposerState::Running(
                        Box::new(Run::start(value, self.m, fast, now, &mut self.rng)),
                    );
                    started = true;
                }
            },
            None => {},
        }
        if !started {
            proof {
                assert(self@.slots =~= s.slots);
                assert(self@ =~= s);
            }
            return;
        }
        proof {
            assert(self@.slots =~= s.started(now, slot.0, value@).slots);
            assert(self@ =~= s.started(now, slot.0, value@));
            s.lemma_started_wf(now, slot.0, value@);
        }
        self.drive(now, slot);
    }

    /// Broadcasts the step of the slot's running proposer.
    fn broadcast_records(&mut self, slot: Slot)
        requires
            old(self).wf(),
            old(self)@.slots.contains_key(slot.0),
            old(self)@.slots[slot.0].is_running(),
        ensures
            final(self).wf(),
            final(self)@ == old(self)@.send_records(slot.0),
    {
        let ghost run = self@.slots[slot.0].proposer->Running_0;
        let ghost f = |idx: int|
            PayloadView::Record { slot, step: run.step, proposal: run.proposal_for(idx) };
        let mut idx: usize = 0;
        while idx < self.n()
            invariant
                idx <= self@.m.n,
                self.wf(),
                self@ == old(self)@.send_upto(idx as nat, f),
                self@.m == old(self)@.m,
                self@.slots == old(self)@.slots,
                self@.slots.contains_key(slot.0),
                self@.slots[slot.0].proposer == ProposerView::Running(run),
                forall|i: int| #[trigger]
                    f(i) == (PayloadView::Record {
                        slot,
                        step: run.step,
                        proposal: run.proposal_for(i),
                    }),
            decreases self@.m.n - idx,
        {
            if idx != self.m.me_idx {
                assert(self.slots@.contains_key(slot.0));
                let payload = match self.slots.get(&slot.0) {
                    Some(state) => match &state.proposer {
                        ProposerState::Running(r) => Payload::Record {
                            slot,
                            step: r.step,
                            proposal: r.proposal_for(idx),
                        },
                        _ => Payload::Ping,
                    },
                    None => Payload::Ping,
                };
                self.send_to(idx, payload);
            }
            idx += 1;
        }
    }

    /// Transmits the proposer's current step: records locally (which may
    /// catch the proposer up or complete a quorum immediately, looping to
    /// the next step), then broadcasts to the other recorders.
    pub(super) fn drive(&mut self, now: u64, slot: Slot)
        requires
            old(self).wf(),
        ensures
            final(self).wf(),
            final(self)@ == old(self)@.drive(now, slot.0),
        decreases u64::MAX - old(self)@.max_open, 4int,
    {
        let progress = match self.slots.get_mut(&slot.0) {
            Some(state) => state.drive(self.m, now, &mut self.rng),
            None => {
                return;
            },
        };
        proof {
            old(self)@.lemma_drive_local_wf(now, slot.0);
            assert(self@.slots =~= old(self)@.drive_local(now, slot.0).slots);
            assert(self@ =~= old(self)@.drive_local(now, slot.0));
        }
        match progress {
            Progress::Wait => {},
            Progress::Send => {
                self.broadcast_records(slot);
            },
            Progress::Decided(value) => {
                self.decide_slot(now, slot, value, true);
            },
        }
    }

    /// Installs a decided value for a slot (idempotent) and runs everything
    /// downstream: dissemination, pool bookkeeping, in-order delivery, GC,
    /// and leader pipelining.
    pub(super) fn decide_slot(&mut self, now: u64, slot: Slot, value: Bytes, is_decider: bool)
        requires
            old(self).wf(),
        ensures
            final(self).wf(),
            final(self)@ == old(self)@.decide(now, slot.0, value@, is_decider),
        decreases u64::MAX - old(self)@.max_open, 3int,
    {
        let ghost v = value@;
        let settled = self.settle(now, slot, value, is_decider);
        proof {
            old(self)@.lemma_settled_frame(now, slot.0, v, is_decider);
        }
        if settled {
            self.maybe_open_slots(now);
        }
    }
}

} // verus!
