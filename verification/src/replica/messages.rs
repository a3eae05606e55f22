//! What a replica does with submitted commands and received messages.

use vstd::prelude::*;

use crate::config::position;
use crate::pool::Pool;
use crate::replica::Replica;
use crate::slot::Progress;
use crate::state::{chunk_of, State, SubmitError, LEARN_CHUNK_BYTES};
use crate::types::{
    bytes_from, commands_of, share, Bytes, CommandBatch, CommandId, Proposal, Slot,
    MAX_COMMAND_BYTES,
};
use crate::wire::{proposal_opt, values_of, Message, Payload, ReplyFirst};

verus! {

impl Replica {
    /// Submits a command for replication. It will be delivered exactly once,
    /// in the same slot, on every replica of the group (as long as this
    /// process stays up to keep re-proposing it). The returned id correlates
    /// the eventual [`Action::Deliver`](crate::Action::Deliver) entry with
    /// this submission.
    ///
    /// `now` is monotonic nanoseconds from any fixed origin; all inputs must
    /// use the same clock.
    pub fn submit(&mut self, now: u64, command: &[u8]) -> (r: Result<CommandId, SubmitError>)
        requires
            old(self).wf(),
            old(self)@.next_seq < u64::MAX,
        ensures
            final(self).wf(),
            match old(self)@.submit_error(command@.len()) {
                Some(e) => r == Err::<CommandId, SubmitError>(e) && final(self)@ == old(self)@,
                None => r == Ok::<CommandId, SubmitError>(old(self)@.next_id()) && final(self)@
                    == old(self)@.submitted(now, command@),
            },
            r == Err::<CommandId, SubmitError>(SubmitError::CommandTooLarge) <==> command@.len()
                > 0x4000_0000,
            r == Err::<CommandId, SubmitError>(SubmitError::PoolFull) <==> command@.len()
                <= 0x4000_0000 && old(self)@.pool.bytes + command@.len() + 28 > old(
                self,
            )@.config.max_pool_bytes,
            r is Err ==> final(self)@ == old(self)@,
            r matches Ok(id) ==> id.origin == old(self)@.config.me && id.boot == old(self)@.boot
                && id.seq == old(self)@.next_seq + 1 && final(self)@.next_seq == id.seq
                && final(self)@.holds(id, command@),
    {
        if command.len() > MAX_COMMAND_BYTES {
            return Err(SubmitError::CommandTooLarge);
        }
        let cost = Pool::cost(command.len());
        if cost > self.config.max_pool_bytes || self.pool.bytes > self.config.max_pool_bytes - cost {
            return Err(SubmitError::PoolFull);
        }
        let ghost s = self@;
        self.next_seq += 1;
        let id = CommandId { origin: self.config.me, boot: self.boot, seq: self.next_seq };
        let data = bytes_from(command);
        proof {
            s.lemma_removed_wf(id);
            s.lemma_enqueued_wf(now, command@);
            s.lemma_submitted_wf(now, command@);
            let _ = s.lemma_submitted_follows(now, command@);
        }
        self.pool.remove(&id);
        self.pool.insert(id, share(&data), now);
        assert(self@ =~= s.enqueued(now, command@));
        if self.is_leader() {
            self.maybe_open_slots(now);
        } else {
            // Forward to the leader (re-forwarded with target rotation from
            // tick() until decided, so a dead leader cannot strand it).
            if let Some(target) = self.forward_target(0) {
                let ghost t = self@;
                match self.pool.entries.get_mut(&id) {
                    Some(entry) => {
                        entry.last_forward = now;
                        entry.forward_attempts = 1;
                    },
                    None => {},
                }
                proof {
                    assert(self@.pool.entries =~= t.forwarded(now, id, 1).pool.entries);
                    assert(self@ =~= t.forwarded(now, id, 1));
                    t.lemma_forwarded_wf(now, id, 1);
                }
                let commands: CommandBatch = vec![(id, data)];
                assert(commands_of(commands@) =~= seq![(id, command@)]);
                self.send_to(target, Payload::Forward { commands });
            }
        }
        self.refresh_pool_pending(now);
        Ok(id)
    }

    /// Feeds a message received from the transport into the replica.
    /// Messages from unknown replicas are ignored.
    pub fn receive(&mut self, now: u64, message: Message)
        requires
            old(self).wf(),
        ensures
            final(self).wf(),
            final(self)@ == old(self)@.received(now, message@),
    {
        let from_idx = match position(&self.config.replicas, &message.from) {
            Some(idx) => idx,
            None => {
                return;
            },
        };
        proof {
            self@.lemma_index(message.from);
        }
        if from_idx == self.m.me_idx {
            return;
        }
        let ghost s = self@;
        if self.peer_acked[from_idx].0 < message.decided.0 {
            self.peer_acked.set(from_idx, message.decided);
        }
        assert(self@ =~= s.noted(from_idx as int, message.decided.0));
        let their_decided = message.decided;
        self.handle(now, from_idx, message.payload);
        self.maybe_request_learn(now, from_idx, their_decided);
        self.maybe_gc();
    }

    /// Acts on a payload from the replica at `from_idx`.
    fn handle(&mut self, now: u64, from_idx: usize, payload: Payload)
        requires
            old(self).wf(),
            from_idx < old(self)@.m.n,
        ensures
            final(self).wf(),
            final(self)@ == old(self)@.handled(now, from_idx as int, payload@),
            final(self)@.m == old(self)@.m,
    {
        proof {
            self@.lemma_handled_wf(now, from_idx as int, payload@);
        }
        match payload {
            Payload::Record { slot, step, proposal } => {
                self.on_record(now, from_idx, slot, step, proposal)
            },
            Payload::RecordReply { slot, req_step, step, first, prior_agg } => {
                self.on_record_reply(now, from_idx, slot, req_step, step, first, prior_agg)
            },
            Payload::Decide { slot, value } => self.decide_slot(now, slot, value, false),
            Payload::Forward { commands } => self.on_forward(now, commands),
            Payload::Learn { from_slot } => self.on_learn(from_idx, from_slot),
            Payload::LearnReply { first_slot, values } => {
                self.on_learn_reply(now, first_slot, values)
            },
            Payload::Ping => {
                // Header processing already recorded the watermark; pings
                // carry no payload. Every replica sends its own periodic
                // pings (ping_tick), so no echo is needed.
            },
        }
    }

    fn on_record(&mut self, now: u64, from_idx: usize, slot: Slot, step: u32, proposal: Proposal)
        requires
            old(self).wf(),
            from_idx < old(self)@.m.n,
        ensures
            final(self).wf(),
            final(self)@ == old(self)@.on_record(now, from_idx as int, slot.0, step, proposal@),
    {
        if slot.0 <= self.gc_floor.0 || step < 4 {
            // Freed slots are only ever probed by stragglers that have
            // themselves delivered past them (retention invariant), so there
            // is nothing useful to reply.
            return;
        }
        // A replica far behind the slot does not materialize recorder state
        // for it: open ISRs hold proposal values that no budget covers, and
        // honest proposers only drive slots near their own frontier, so a
        // Record this far ahead means we are lagging -- catch up via Learn
        // first (ignoring a Record is ordinary message loss). The window
        // comfortably covers the leader's pipeline plus hedged stragglers.
        if slot.0 > self.decided_contig.0 && slot.0 - self.decided_contig.0 > self.ahead_window() {
            return;
        }
        let ghost p = proposal@;
        self.observe(now, slot);
        let ghost s = self@;
        assert(self.slots@.contains_key(slot.0));
        let reply = match self.slots.get_mut(&slot.0) {
            Some(state) => state.record(now, slot, step, proposal),
            None => Payload::Ping,
        };
        proof {
            let state = s.slots[slot.0].recorded(now, step, p);
            s.lemma_replaced_wf(slot.0, state);
            assert(self@.slots =~= s.slots.insert(slot.0, state));
            assert(self@ =~= State { slots: s.slots.insert(slot.0, state), ..s });
        }
        self.send_to(from_idx, reply);
    }

    fn on_record_reply(
        &mut self,
        now: u64,
        from_idx: usize,
        slot: Slot,
        req_step: u32,
        reply_step: u32,
        first: ReplyFirst,
        prior_agg: Option<Proposal>,
    )
        requires
            old(self).wf(),
            from_idx < old(self)@.m.n,
        ensures
            final(self).wf(),
            final(self)@ == old(self)@.on_record_reply(
                now,
                from_idx as int,
                slot.0,
                req_step,
                reply_step,
                first@,
                proposal_opt(prior_agg),
            ),
    {
        let ghost s = self@;
        let ghost f = first@;
        let ghost a = proposal_opt(prior_agg);
        let progress = match self.slots.get_mut(&slot.0) {
            Some(state) => state.answer(
                self.m,
                now,
                &mut self.rng,
                from_idx,
                req_step,
                reply_step,
                first,
                prior_agg,
            ),
            None => {
                return;
            },
        };
        proof {
            let t = s.answered(now, from_idx as int, slot.0, req_step, reply_step, f, a);
            assert(self@.slots =~= t.slots);
            assert(self@ =~= t);
            s.lemma_answered_state_wf(now, from_idx as int, slot.0, req_step, reply_step, f, a);
        }
        match progress {
            Progress::Wait => {},
            Progress::Send => {
                self.drive(now, slot);
            },
            Progress::Decided(value) => {
                self.decide_slot(now, slot, value, true);
            },
        }
    }

    fn on_forward(&mut self, now: u64, commands: CommandBatch)
        requires
            old(self).wf(),
        ensures
            final(self).wf(),
            final(self)@ == old(self)@.on_forward(now, commands_of(commands@)),
    {
        let ghost cs = commands_of(commands@);
        let mut i: usize = 0;
        assert(self@.pooled(now, cs.take(0)) == self@);
        while i < commands.len()
            invariant
                i <= commands@.len(),
                cs == commands_of(commands@),
                self.wf(),
                self@ == old(self)@.pooled(now, cs.take(i as int)),
            decreases commands.len() - i,
        {
            let ghost s = self@;
            let id = commands[i].0;
            let data = share(&commands[i].1);
            proof {
                assert(cs.take(i + 1).drop_last() =~= cs.take(i as int));
                assert(cs.take(i + 1).last() == (id, data@));
            }
            // A refused command is dropped silently: the origin keeps
            // re-forwarding.
            if !self.dedup.is_delivered(&id) && !self.pool.entries.contains_key(&id) && data.len()
                <= MAX_COMMAND_BYTES {
                let cost = Pool::cost(data.len());
                if cost <= self.config.max_pool_bytes && self.pool.bytes
                    <= self.config.max_pool_bytes - cost {
                    proof {
                        assert(s.pool.entries.contains_key(id) == self.pool.entries@.contains_key(
                            id,
                        ));
                        s.lemma_inserted_wf(now, id, data@);
                    }
                    self.pool.insert(id, data, now);
                    assert(self@ =~= State { pool: s.pool.inserted(id, data@, now), ..s });
                }
            }
            i += 1;
        }
        assert(cs.take(i as int) =~= cs);
        self.refresh_pool_pending(now);
        self.maybe_open_slots(now);
    }

    pub(super) fn maybe_request_learn(&mut self, now: u64, from_idx: usize, their_decided: Slot)
        requires
            old(self).wf(),
            from_idx < old(self)@.m.n,
        ensures
            final(self).wf(),
            final(self)@ == old(self)@.request_learn(now, from_idx as int, their_decided.0),
    {
        if their_decided.0 <= self.decided_contig.0 {
            return;
        }
        if let Some((_, sent_at)) = self.learn_in_flight {
            if now.saturating_sub(sent_at) < self.config.retransmit_delay {
                return;
            }
        }
        let ghost s = self@;
        self.learn_in_flight = Some((from_idx, now));
        assert(self@ =~= State { learn_in_flight: Some((from_idx, now)), ..s });
        let from_slot = self.decided_contig.next();
        self.send_to(from_idx, Payload::Learn { from_slot });
    }

    fn on_learn(&mut self, from_idx: usize, from_slot: Slot)
        requires
            old(self).wf(),
            from_idx < old(self)@.m.n,
        ensures
            final(self).wf(),
            final(self)@ == old(self)@.on_learn(from_idx as int, from_slot.0),
    {
        if from_slot.0 <= self.gc_floor.0 || from_slot.0 > self.decided_contig.0 || from_slot.0
            == 0 {
            return;
        }
        let values = self.learn_chunk(from_slot);
        self.send_to(from_idx, Payload::LearnReply { first_slot: from_slot, values });
    }

    /// The retained values from `from_slot` on, up to a chunk's size.
    fn learn_chunk(&self, from_slot: Slot) -> (values: Vec<Bytes>)
        requires
            self.wf(),
            self@.gc_floor < from_slot.0 <= self@.decided,
        ensures
            values_of(values@) == chunk_of(self@.retained, from_slot.0, self@.decided, 0),
    {
        let ghost goal = chunk_of(self@.retained, from_slot.0, self@.decided, 0);
        let mut values: Vec<Bytes> = Vec::new();
        let mut bytes: usize = 0;
        let mut slot: u64 = from_slot.0;
        assert(values_of(values@) + goal =~= goal);
        loop
            invariant_except_break
                values_of(values@) + chunk_of(self@.retained, slot, self@.decided, bytes as nat)
                    == goal,
            invariant
                self.wf(),
                self@.gc_floor < slot <= self@.decided,
                bytes < LEARN_CHUNK_BYTES,
            ensures
                values_of(values@) == goal,
            decreases self@.decided - slot,
        {
            let ghost before = values_of(values@);
            assert(self@.retained.contains_key(slot));
            assert(self.retained@.contains_key(slot));
            let value = match self.retained.get(&slot) {
                Some(value) => share(value),
                None => bytes_from(&[]),
            };
            assert(value@ == self@.retained[slot]);
            let len = value.len();
            values.push(value);
            proof {
                assert(values_of(values@) =~= before.push(value@));
                if slot >= self@.decided || bytes + len >= LEARN_CHUNK_BYTES {
                    assert(before + seq![value@] =~= values_of(values@));
                } else {
                    let rest = chunk_of(
                        self@.retained,
                        (slot + 1) as u64,
                        self@.decided,
                        (bytes + len) as nat,
                    );
                    assert(before + (seq![value@] + rest) =~= values_of(values@) + rest);
                }
            }
            if slot == self.decided_contig.0 || len >= LEARN_CHUNK_BYTES - bytes {
                break;
            }
            bytes += len;
            slot += 1;
        }
        values
    }

    fn on_learn_reply(&mut self, now: u64, first_slot: Slot, values: Vec<Bytes>)
        requires
            old(self).wf(),
        ensures
            final(self).wf(),
            final(self)@ == old(self)@.on_learn_reply(now, first_slot.0, values_of(values@)),
    {
        self.learn_in_flight = None;
        let ghost s = self@;
        let ghost vs = values_of(values@);
        assert(s =~= State { learn_in_flight: None, ..old(self)@ });
        let mut i: usize = 0;
        assert(s.learned(now, first_slot.0, vs.take(0)) == s);
        while i < values.len()
            invariant
                i <= values@.len(),
                vs == values_of(values@),
                self.wf(),
                self@ == s.learned(now, first_slot.0, vs.take(i as int)),
            decreases values.len() - i,
        {
            proof {
                assert(vs.take(i + 1).drop_last() =~= vs.take(i as int));
                assert(vs.take(i + 1).last() == values@[i as int]@);
            }
            if let Some(slot) = first_slot.0.checked_add(i as u64) {
                self.decide_slot(now, Slot(slot), share(&values[i]), false);
            }
            i += 1;
        }
        assert(vs.take(i as int) =~= vs);
        // If the sender advertised more, receive()'s epilogue requests the
        // next chunk via maybe_request_learn.
    }
}

} // verus!
