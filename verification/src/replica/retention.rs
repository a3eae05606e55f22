//! Decisions, in-order delivery, and the retention of decided values.

use vstd::prelude::*;

use crate::pool::{lemma_total_insert, lemma_total_remove, Dedup, Pool};
use crate::proposer::{ProposerState, ProposerView};
use crate::recorder::RecorderSlot;
use crate::replica::{delivered_commands, Action, Replica};
use crate::slot::{SlotState, SlotView};
use crate::state::{accepted, batch_of, dedup_after, least, lengths, pool_without, State};
use crate::types::{commands_of, decode_batch, share, Bytes, CommandBatch, CommandId, Slot};
use crate::wire::{Payload, PayloadView};

verus! {

/// The commands of a decided value.
pub(crate) fn batch_in(value: &Bytes) -> (r: CommandBatch)
    ensures
        commands_of(r@) == batch_of(value@),
{
    match decode_batch(value) {
        Some(batch) => batch,
        None => {
            let batch: CommandBatch = Vec::new();
            assert(commands_of(batch@) =~= Seq::empty());
            batch
        },
    }
}

/// Takes those commands of `batch` that are new: they leave the pool.
fn deliver_batch(dedup: &mut Dedup, pool: &mut Pool, batch: &CommandBatch) -> (r: Vec<
    (CommandId, Vec<u8>),
>)
    requires
        old(dedup).wf(),
        old(pool).wf(),
        old(pool)@.accounted(),
    ensures
        final(dedup).wf(),
        final(pool).wf(),
        final(dedup)@ == dedup_after(old(dedup)@, commands_of(batch@)),
        delivered_commands(r@) == accepted(old(dedup)@, commands_of(batch@)),
        final(pool)@ == pool_without(old(pool)@, accepted(old(dedup)@, commands_of(batch@))),
{
    let ghost cs = commands_of(batch@);
    let ghost d = dedup@;
    let ghost p = pool@;
    let mut commands: Vec<(CommandId, Vec<u8>)> = Vec::new();
    let mut i: usize = 0;
    assert(delivered_commands(commands@) =~= accepted(d, cs.take(0)));
    while i < batch.len()
        invariant
            i <= batch@.len(),
            cs == commands_of(batch@),
            dedup.wf(),
            pool.wf(),
            p.accounted(),
            dedup@ == dedup_after(d, cs.take(i as int)),
            delivered_commands(commands@) == accepted(d, cs.take(i as int)),
            pool@ == pool_without(p, accepted(d, cs.take(i as int))),
        decreases batch.len() - i,
    {
        let ghost before = delivered_commands(commands@);
        let ghost c = cs[i as int];
        proof {
            assert(cs.take(i + 1).drop_last() =~= cs.take(i as int));
            assert(cs.take(i + 1).last() == c);
            crate::invariants::lemma_pool_without(p, before);
            crate::pool::pool_bytes_are_accounted(pool@, c.0, Seq::empty(), 0);
        }
        let id = batch[i].0;
        if dedup.mark_delivered(&id) {
            pool.remove(&id);
            commands.push((id, vstd::slice::slice_to_vec(&batch[i].1)));
            proof {
                assert(delivered_commands(commands@) =~= before.push(c));
                assert(before.push(c).drop_last() =~= before);
            }
        }
        i += 1;
    }
    assert(cs.take(i as int) =~= cs);
    commands
}

impl Replica {
    /// Delivers the slot after the watermark.
    fn deliver_next(&mut self)
        requires
            old(self).wf(),
            old(self)@.can_deliver(),
        ensures
            final(self).wf(),
            final(self)@ == old(self)@.delivered_one(),
    {
        let next = self.decided_contig.next();
        assert(self.retained@.contains_key(next.0));
        let batch = match self.retained.get(&next.0) {
            Some(value) => batch_in(value),
            None => Vec::new(),
        };
        let commands = deliver_batch(&mut self.dedup, &mut self.pool, &batch);
        self.decided_contig = next;
        self.actions.push_back(Action::Deliver { slot: next, commands });
        proof {
            old(self)@.lemma_delivered_one_wf();
            assert(self@ =~= old(self)@.delivered_one());
        }
    }

    pub(super) fn try_deliver(&mut self, now: u64)
        requires
            old(self).wf(),
        ensures
            final(self).wf(),
            final(self)@ == old(self)@.try_delivered(now),
    {
        while self.decided_contig.0 < u64::MAX && self.retained.contains_key(
            &(self.decided_contig.0 + 1),
        )
            invariant
                self.wf(),
                self@.delivered() == old(self)@.delivered(),
            ensures
                self.wf(),
                self@ == old(self)@.delivered(),
            decreases u64::MAX - self@.decided,
        {
            assert(self@.retained.contains_key((self@.decided + 1) as u64));
            self.deliver_next();
        }
        let ghost s = self@;
        self.peer_acked.set(self.m.me_idx, self.decided_contig);
        assert(self@ =~= s.acknowledged());
        self.refresh_pool_pending(now);
        self.maybe_gc();
    }

    /// Frees the oldest slot that is not freed yet.
    fn free_oldest(&mut self)
        requires
            old(self).wf(),
            old(self)@.gc_floor < old(self)@.decided,
        ensures
            final(self).wf(),
            final(self)@ == old(self)@.freed((old(self)@.gc_floor + 1) as u64),
    {
        let next = self.gc_floor.next();
        self.gc_floor = next;
        proof {
            assert(old(self)@.retained.contains_key(next.0));
            assert(lengths(old(self)@.retained).dom() =~= old(self)@.retained.dom());
            lemma_total_remove(lengths(old(self)@.retained), next.0);
            assert(lengths(old(self)@.retained).remove(next.0) =~= lengths(
                old(self)@.retained.remove(next.0),
            ));
        }
        if let Some(value) = self.retained.remove(&next.0) {
            self.retained_bytes -= value.len();
        }
        self.slots.remove(&next.0);
        proof {
            let goal = old(self)@.freed(next.0);
            assert(self@.slots =~= old(self)@.slots.remove(next.0));
            assert(self@.retained =~= old(self)@.retained.remove(next.0));
            assert(self@.slots =~= goal.slots);
            assert(self@.retained =~= goal.retained);
            assert(self@ =~= goal);
            old(self)@.lemma_freed_wf(next.0);
        }
    }

    pub(super) fn maybe_gc(&mut self)
        requires
            old(self).wf(),
        ensures
            final(self).wf(),
            final(self)@ == old(self)@.gced(),
    {
        self.peer_acked.set(self.m.me_idx, self.decided_contig);
        let ghost s = self@;
        assert(s =~= old(self)@.acknowledged());
        let mut floor = self.peer_acked[0].0;
        let mut i: usize = 1;
        assert(s.peer_acked.take(1) =~= seq![s.peer_acked[0]]);
        while i < self.peer_acked.len()
            invariant
                1 <= i <= self.peer_acked@.len(),
                self@ == s,
                floor == least(s.peer_acked.take(i as int)),
            decreases self.peer_acked.len() - i,
        {
            assert(s.peer_acked.take(i + 1).drop_last() =~= s.peer_acked.take(i as int));
            if self.peer_acked[i].0 < floor {
                floor = self.peer_acked[i].0;
            }
            i += 1;
        }
        proof {
            assert(s.peer_acked.take(i as int) =~= s.peer_acked);
            crate::invariants::lemma_least(s.peer_acked);
            assert(s.peer_acked[s.m.me_idx as int] == s.decided);
        }
        assert(self.wf());
        while self.gc_floor.0 < floor
            invariant
                self.wf(),
                floor <= self@.decided,
                self@.freed(floor) == s.freed(floor),
            decreases floor - self@.gc_floor,
        {
            let ghost before = self@;
            self.free_oldest();
            proof {
                assert(self@.freed(floor).slots =~= before.freed(floor).slots);
                assert(self@.freed(floor).retained =~= before.freed(floor).retained);
                assert(self@.freed(floor) =~= before.freed(floor));
            }
        }
        // Escape hatch: past the retention budget, free the oldest delivered
        // values even if a (presumably dead) replica has not acknowledged
        // them. A replica lagging behind the freed prefix can never rejoin
        // this group -- the crash-stop model's expectation.
        while self.retained_bytes > self.config.max_retained_bytes && self.gc_floor.0
            < self.decided_contig.0
            invariant
                self.wf(),
                self@.evicted() == s.freed(floor).evicted(),
            decreases self@.decided - self@.gc_floor,
        {
            self.free_oldest();
        }
    }

    /// Makes slot `slot` known.
    pub(super) fn observe(&mut self, now: u64, slot: Slot)
        requires
            old(self).wf(),
            slot.0 > old(self)@.gc_floor,
        ensures
            final(self).wf(),
            final(self)@ == old(self)@.observed(now, slot.0),
            final(self)@.slots.contains_key(slot.0),
    {
        if !self.slots.contains_key(&slot.0) {
            self.slots.insert(slot.0, SlotState::new(now));
        }
        proof {
            assert(self@ =~= old(self)@.observed(now, slot.0));
            old(self)@.lemma_observed_wf(now, slot.0);
        }
    }

    /// Installs `value` as the decision of `slot`.
    fn install(&mut self, slot: Slot, value: Bytes)
        requires
            old(self).wf(),
            old(self)@.slots.contains_key(slot.0),
            !old(self)@.slots[slot.0].is_decided(),
            old(self)@.kept() + value@.len() <= usize::MAX,
        ensures
            final(self).wf(),
            final(self)@ == old(self)@.installed(slot.0, value@),
    {
        let len = value.len();
        assert(self.slots@.contains_key(slot.0));
        proof {
            assert(!self@.retained.contains_key(slot.0));
            assert(lengths(self@.retained).dom() =~= self@.retained.dom());
            lemma_total_insert(lengths(self@.retained), slot.0, len as nat);
            assert(lengths(self@.retained).insert(slot.0, len as nat) =~= lengths(
                self@.retained.insert(slot.0, value@),
            ));
        }
        match self.slots.get_mut(&slot.0) {
            Some(state) => {
                state.recorder = RecorderSlot::Decided(share(&value));
                state.proposer = ProposerState::Done;
            },
            None => {},
        }
        if self.retained.insert(slot.0, value).is_none() {
            self.retained_bytes += len;
        }
        proof {
            let goal = old(self)@.installed(slot.0, value@);
            assert(self@.slots =~= goal.slots);
            assert(self@.retained =~= goal.retained);
            assert(self@ =~= goal);
            old(self)@.lemma_installed_wf(slot.0, value@);
        }
    }

    /// Broadcasts the decision of `slot`.
    fn broadcast_decision(&mut self, slot: Slot, value: &Bytes)
        requires
            old(self).wf(),
        ensures
            final(self).wf(),
            final(self)@ == old(self)@.send_all(
                |idx: int| PayloadView::Decide { slot, value: value@ },
            ),
    {
        let ghost f = |idx: int| PayloadView::Decide { slot, value: value@ };
        let mut idx: usize = 0;
        while idx < self.n()
            invariant
                idx <= self@.m.n,
                self.wf(),
                self@ == old(self)@.send_upto(idx as nat, f),
                self@.m == old(self)@.m,
                forall|i: int| #[trigger] f(i) == (PayloadView::Decide { slot, value: value@ }),
            decreases self@.m.n - idx,
        {
            if idx != self.m.me_idx {
                self.send_to(idx, Payload::Decide { slot, value: share(value) });
            }
            idx += 1;
        }
    }

    /// Does what a decision brings about but for opening new slots. Returns
    /// whether it changed anything beyond the slot's own proposer.
    pub(super) fn settle(&mut self, now: u64, slot: Slot, value: Bytes, is_decider: bool) -> (r: bool)
        requires
            old(self).wf(),
        ensures
            final(self).wf(),
            final(self)@ == old(self)@.settled(now, slot.0, value@, is_decider),
            r == old(self)@.settles(slot.0, value@, is_decider),
    {
        if slot.0 <= self.gc_floor.0 {
            return false;
        }
        // Bound the decided-ahead buffer: past the retention budget, ignore
        // remote decisions beyond the frontier instead of storing them. The
        // sender has not seen our acknowledgment, so it retains the value
        // and Learn re-fetches it once the frontier advances. Our own
        // decisions are always kept (proposers only run within the pipeline
        // of the frontier, so they cannot grow this without bound).
        match self.retained_bytes.checked_add(value.len()) {
            None => {
                return false;
            },
            Some(kept) => {
                if !is_decider && slot.0 - 1 > self.decided_contig.0 && kept
                    > self.config.max_retained_bytes {
                    return false;
                }
            },
        }
        self.observe(now, slot);
        let ghost s = self@;
        let decided = match self.slots.get_mut(&slot.0) {
            Some(state) => {
                let decided = state.is_decided();
                if decided {
                    state.proposer = ProposerState::Done;
                }
                decided
            },
            None => false,
        };
        if decided {
            proof {
                let done = SlotView { proposer: ProposerView::Done, ..s.slots[slot.0] };
                s.lemma_replaced_wf(slot.0, done);
                assert(self@.slots =~= s.slots.insert(slot.0, done));
                assert(self@ =~= State { slots: s.slots.insert(slot.0, done), ..s });
            }
            return false;
        }
        proof {
            assert(self@.slots =~= s.slots);
            assert(self@ =~= s);
        }
        self.install(slot, share(&value));
        if is_decider {
            self.broadcast_decision(slot, &value);
        }
        // Commands of ours that rode in this slot but lost become
        // immediately re-batchable.
        let batch = batch_in(&value);
        let ghost s2 = self@;
        self.pool.release(slot, &batch);
        proof {
            assert(self@ =~= s2.released(slot.0, batch_of(value@)));
            s2.lemma_released_wf(slot.0, batch_of(value@));
        }
        self.refresh_pool_pending(now);
        self.try_deliver(now);
        true
    }
}

} // verus!
