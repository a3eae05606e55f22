//! Every operation of the model keeps a replica well-formed.

use vstd::prelude::*;

use crate::codec::lemma_le_bytes;
use crate::pool::{
    entry_cost, entry_costs, has_id, lemma_total_insert, lemma_total_part, origin_of,
    pool_bytes_are_accounted, PoolView,
};
use crate::proposer::{lemma_drawn, lemma_none_set, ProposerView, RunView};
use crate::recorder::RecorderView;
use crate::slot::{ProgressView, SlotView};
use crate::sorted::{ascending, lemma_ascending, lemma_filter_ascends, Key};
use crate::state::{
    accepted, batch_of, commands_cost, fitting, least, lengths, pool_without, State,
    DEDUP_WINDOW,
};
use crate::types::{
    batch_bytes, command_bytes, commands_bytes, commands_fit, lemma_commands_bytes_push, Command,
    CommandId, ProposalView, Slot, MAX_COMMAND_BYTES,
};
use crate::wire::{MessageView, PayloadView, ReplyFirstView};

verus! {

pub proof fn lemma_least(marks: Seq<u64>)
    requires
        marks.len() > 0,
    ensures
        forall|i: int| 0 <= i < marks.len() ==> least(marks) <= #[trigger] marks[i],
        marks.contains(least(marks)),
    decreases marks.len(),
{
    if marks.len() > 1 {
        let init = marks.drop_last();
        lemma_least(init);
        assert forall|i: int| 0 <= i < marks.len() implies least(marks) <= #[trigger] marks[i] by {
            if i < marks.len() - 1 {
                assert(init[i] == marks[i]);
            }
        }
        let j = choose|j: int| 0 <= j < init.len() && init[j] == least(init);
        assert(marks[j] == least(init));
        assert(marks[marks.len() - 1] == marks.last());
    } else {
        assert(marks[0] == least(marks));
    }
}

/// Removing commands keeps the pool accounted for.
pub proof fn lemma_pool_without(p: PoolView, cs: Seq<Command>)
    requires
        p.accounted(),
    ensures
        pool_without(p, cs).accounted(),
        pool_without(p, cs).bytes <= p.bytes,
        forall|id: CommandId| #[trigger]
            pool_without(p, cs).entries.contains_key(id) <==> p.entries.contains_key(id) && !has_id(
                cs,
                id,
            ),
        forall|id: CommandId| #[trigger]
            pool_without(p, cs).entries.contains_key(id) ==> pool_without(p, cs).entries[id]
                == p.entries[id],
    decreases cs.len(),
{
    if cs.len() > 0 {
        let init = cs.drop_last();
        lemma_pool_without(p, init);
        let before = pool_without(p, init);
        pool_bytes_are_accounted(before, cs.last().0, Seq::empty(), 0);
        assert forall|id: CommandId| #[trigger]
            pool_without(p, cs).entries.contains_key(id) <==> p.entries.contains_key(id) && !has_id(
                cs,
                id,
            ) by {
            if has_id(init, id) {
                let i = choose|i: int| 0 <= i < init.len() && (#[trigger] init[i]).0 == id;
                assert(cs[i].0 == id);
            }
            if has_id(cs, id) && id != cs.last().0 {
                let i = choose|i: int| 0 <= i < cs.len() && (#[trigger] cs[i]).0 == id;
                assert(init[i].0 == id);
            }
            assert(cs[cs.len() - 1] == cs.last());
        }
    }
}

/// Changing what is noted of entries, but not their data, keeps the pool
/// accounted for.
pub proof fn lemma_same_data_accounted(p: PoolView, q: PoolView)
    requires
        p.accounted(),
        q.bytes == p.bytes,
        q.entries.dom() == p.entries.dom(),
        forall|id: CommandId| #[trigger]
            p.entries.contains_key(id) ==> q.entries[id].data == p.entries[id].data,
    ensures
        q.accounted(),
{
    assert(entry_costs(q.entries) =~= entry_costs(p.entries)) by {
        assert forall|id: CommandId| #[trigger] entry_costs(q.entries).contains_key(id) implies
            entry_costs(q.entries)[id] == entry_costs(p.entries)[id] by {
            assert(p.entries.contains_key(id));
        }
    }
}

/// The cost of a prefix is at most the cost of the whole.
pub proof fn lemma_cost_monotone(cs: Seq<Command>, k: int)
    requires
        0 <= k <= cs.len(),
    ensures
        commands_cost(cs.take(k)) <= commands_cost(cs),
    decreases cs.len(),
{
    if k == cs.len() {
        assert(cs.take(k) =~= cs);
    } else {
        assert(cs.drop_last().take(k) =~= cs.take(k));
        lemma_cost_monotone(cs.drop_last(), k);
    }
}

/// Each command costs at least its overhead.
pub proof fn lemma_cost_counts(cs: Seq<Command>)
    ensures
        commands_cost(cs) >= 28 * cs.len(),
    decreases cs.len(),
{
    if cs.len() > 0 {
        lemma_cost_counts(cs.drop_last());
    }
}

/// What fits is a prefix, which is a single command or stays within the
/// limit; one more would not.
pub proof fn lemma_fitting(cs: Seq<Command>, limit: nat)
    ensures
        fitting(cs, limit).len() <= cs.len(),
        fitting(cs, limit) == cs.take(fitting(cs, limit).len() as int),
        fitting(cs, limit).len() <= 1 || commands_cost(fitting(cs, limit)) <= limit,
        cs.len() > 0 ==> fitting(cs, limit).len() > 0,
        fitting(cs, limit).len() < cs.len() ==> commands_cost(
            cs.take(fitting(cs, limit).len() as int + 1),
        ) > limit,
    decreases cs.len(),
{
    if cs.len() <= 1 || commands_cost(cs) <= limit {
        assert(cs.take(cs.len() as int) =~= cs);
    } else {
        let init = cs.drop_last();
        lemma_fitting(init, limit);
        let k = fitting(cs, limit).len() as int;
        assert(init.take(k) =~= cs.take(k));
        if k < init.len() {
            assert(init.take(k + 1) =~= cs.take(k + 1));
        } else {
            assert(cs.take(k + 1) =~= cs);
        }
    }
}

/// A prefix that may not be exceeded is what fits.
pub proof fn lemma_fitting_is(cs: Seq<Command>, limit: nat, k: int)
    requires
        0 <= k <= cs.len(),
        k <= 1 || commands_cost(cs.take(k)) <= limit,
        k == cs.len() || (k >= 1 && commands_cost(cs.take(k + 1)) > limit),
    ensures
        fitting(cs, limit) == cs.take(k),
    decreases cs.len(),
{
    if k == cs.len() {
        assert(cs.take(k) =~= cs);
    } else {
        lemma_cost_monotone(cs, k + 1);
        let init = cs.drop_last();
        assert(init.take(k) =~= cs.take(k));
        if k < init.len() {
            assert(init.take(k + 1) =~= cs.take(k + 1));
        }
        lemma_fitting_is(init, limit, k);
    }
}

/// The encoding of commands is as long as they cost.
pub proof fn lemma_encoded_length(cs: Seq<Command>)
    ensures
        commands_bytes(cs).len() == commands_cost(cs),
    decreases cs.len(),
{
    if cs.len() > 0 {
        let init = cs.drop_last();
        let c = cs.last();
        lemma_encoded_length(init);
        assert(cs =~= init.push(c));
        lemma_commands_bytes_push(init, c);
        lemma_le_bytes(c.0.origin.0 as nat, 8);
        lemma_le_bytes(c.0.boot as nat, 8);
        lemma_le_bytes(c.0.seq as nat, 8);
        lemma_le_bytes((c.1.len() as u32) as nat, 4);
        assert(command_bytes(c).len() == entry_cost(c.1.len()));
    }
}

impl State {
    /// The commands that may ride in a new proposal are in the pool.
    pub proof fn lemma_eligible(self)
        requires
            self.wf(),
        ensures
            forall|i: int|
                0 <= i < self.eligible().len() ==> {
                    let c = #[trigger] self.eligible()[i];
                    &&& self.pool.entries.contains_key(c.0)
                    &&& c.1 == self.pool.entries[c.0].data
                    &&& self.pool.entries[c.0].proposed_in is None
                    &&& c.0.seq <= self.dedup.high_water(origin_of(c.0)) + DEDUP_WINDOW
                },
    {
        let dom = self.pool.entries.dom();
        let keys = ascending(dom);
        let pred = |id: CommandId|
            self.pool.entries[id].proposed_in is None && id.seq <= self.dedup.high_water(
                origin_of(id),
            ) + DEDUP_WINDOW;
        lemma_ascending(dom);
        lemma_filter_ascends(keys, pred);
        assert forall|i: int| 0 <= i < self.eligible().len() implies {
            let c = #[trigger] self.eligible()[i];
            &&& self.pool.entries.contains_key(c.0)
            &&& c.1 == self.pool.entries[c.0].data
            &&& self.pool.entries[c.0].proposed_in is None
            &&& c.0.seq <= self.dedup.high_water(origin_of(c.0)) + DEDUP_WINDOW
        } by {
            let id = keys.filter(pred)[i];
            assert(keys.filter(pred).contains(id));
            assert(keys.to_set().contains(id));
            assert(dom.contains(id));
        }
    }

    /// Every batch that a replica proposes consists of commands in its pool
    /// that ride in no other proposal and are within their origin's sequencing
    /// window, and its encoding fits the length fields of the wire format.
    pub proof fn batches_fit_the_wire_format(self)
        requires
            self.wf(),
        ensures
            commands_fit(self.next_batch()),
            batch_bytes(self.next_batch()).len() <= u32::MAX,
            self.next_batch().len() <= 1 || batch_bytes(self.next_batch()).len()
                <= self.config.max_batch_bytes + 5,
            forall|i: int|
                0 <= i < self.next_batch().len() ==> {
                    let c = #[trigger] self.next_batch()[i];
                    &&& self.pool.entries.contains_key(c.0)
                    &&& c.1 == self.pool.entries[c.0].data
                    &&& self.pool.entries[c.0].proposed_in is None
                    &&& c.0.seq <= self.dedup.high_water(origin_of(c.0)) + DEDUP_WINDOW
                },
    {
        let all = self.eligible();
        let limit = self.config.max_batch_bytes as nat;
        let cs = self.next_batch();
        self.lemma_eligible();
        lemma_fitting(all, limit);
        lemma_cost_counts(cs);
        lemma_encoded_length(cs);
        lemma_le_bytes((cs.len() as u32) as nat, 4);
        assert forall|i: int| 0 <= i < cs.len() implies {
            let c = #[trigger] cs[i];
            &&& self.pool.entries.contains_key(c.0)
            &&& c.1 == self.pool.entries[c.0].data
            &&& self.pool.entries[c.0].proposed_in is None
            &&& c.0.seq <= self.dedup.high_water(origin_of(c.0)) + DEDUP_WINDOW
        } by {
            assert(cs[i] == all[i]);
        }
        assert forall|i: int| 0 <= i < cs.len() implies (#[trigger] cs[i]).1.len() <= u32::MAX by {
            assert(self.pool.entries.contains_key(cs[i].0));
        }
        if cs.len() == 1 {
            assert(self.pool.entries.contains_key(cs[0].0));
            assert(cs.drop_last() =~= Seq::empty());
            assert(commands_cost(cs.drop_last()) == 0);
            assert(commands_cost(cs) == entry_cost(cs[0].1.len()));
        } else if cs.len() == 0 {
            assert(commands_cost(cs) == 0);
        }
    }

    pub proof fn lemma_refreshed_wf(self, now: u64)
        requires
            self.wf(),
        ensures
            self.refreshed(now).wf(),
    {
    }

    pub proof fn lemma_send_wf(self, idx: int, payload: PayloadView)
        requires
            self.wf(),
        ensures
            self.send(idx, payload).wf(),
    {
    }

    pub proof fn lemma_send_all_wf(self, payloads: spec_fn(int) -> PayloadView)
        requires
            self.wf(),
        ensures
            self.send_all(payloads).wf(),
    {
        self.lemma_send_upto_frame(self.m.n as nat, payloads);
    }

    pub proof fn lemma_delivered_one_wf(self)
        requires
            self.wf(),
            self.can_deliver(),
        ensures
            self.delivered_one().wf(),
    {
        let next = (self.decided + 1) as u64;
        let commands = accepted(self.dedup, batch_of(self.retained[next]));
        lemma_pool_without(self.pool, commands);
        let s = self.delivered_one();
        assert forall|id: CommandId| #[trigger] s.pool.entries.contains_key(id) implies
            s.pool.entries[id].data.len() <= MAX_COMMAND_BYTES by {
            assert(self.pool.entries.contains_key(id));
        }
    }

    pub proof fn lemma_delivered_wf(self)
        requires
            self.wf(),
        ensures
            self.delivered().wf(),
        decreases u64::MAX - self.decided,
    {
        if self.can_deliver() {
            self.lemma_delivered_one_wf();
            self.delivered_one().lemma_delivered_wf();
        }
    }

    pub proof fn lemma_freed_wf(self, floor: u64)
        requires
            self.wf(),
            floor <= self.decided,
        ensures
            self.freed(floor).wf(),
            self.freed(floor).kin(self),
    {
        let above = Set::new(|k: u64| k > floor);
        let s = self.freed(floor);
        if self.gc_floor < floor {
            assert(s.slots.dom() =~= self.slots.dom().intersect(above));
            assert(s.retained.dom() =~= self.retained.dom().intersect(above));
            assert forall|k: u64| #[trigger] s.slots.contains_key(k) implies k > s.gc_floor
                && s.slots[k].wf(s.m.n as nat) by {
                assert(self.slots.contains_key(k));
            }
            assert forall|k: u64| #[trigger] s.retained.contains_key(k) implies
                s.slots.contains_key(k) && s.slots[k].recorder == RecorderView::Decided(
                s.retained[k],
            ) by {
                assert(self.retained.contains_key(k));
            }
            assert forall|k: u64| #[trigger] s.slots.contains_key(k)
                && s.slots[k].is_decided() implies s.retained.contains_key(k)
                && s.slots[k].proposer is Done by {
                assert(self.slots.contains_key(k));
            }
            assert forall|k: u64| s.gc_floor < k <= s.decided implies
                #[trigger] s.retained.contains_key(k) by {
                assert(self.retained.contains_key(k));
            }
            self.lemma_freed_kept(floor);
        }
    }

    /// Freeing keeps less.
    pub proof fn lemma_freed_kept(self, floor: u64)
        requires
            self.retained.dom().finite(),
        ensures
            self.freed(floor).kept() <= self.kept(),
    {
        let s = self.freed(floor);
        if self.gc_floor < floor {
            assert(lengths(self.retained).dom() =~= self.retained.dom());
            assert(lengths(s.retained).submap_of(lengths(self.retained)));
            lemma_total_part(lengths(s.retained), lengths(self.retained));
        }
    }

    pub proof fn lemma_evicted_wf(self)
        requires
            self.wf(),
        ensures
            self.evicted().wf(),
        decreases self.decided - self.gc_floor,
    {
        if self.kept() > self.config.max_retained_bytes && self.gc_floor < self.decided {
            let next = (self.gc_floor + 1) as u64;
            self.lemma_freed_wf(next);
            self.freed(next).lemma_evicted_wf();
        }
    }

    pub proof fn lemma_gced_wf(self)
        requires
            self.wf(),
        ensures
            self.gced().wf(),
            self.gced().kin(self),
            self.gced().max_open == self.max_open,
            self.gced().decided == self.decided,
            self.gced().actions == self.actions,
            self.gced().rng == self.rng,
            self.gced().pool == self.pool,
            self.gced().dedup == self.dedup,
            self.gced().pending_since == self.pending_since,
            self.gced().learn_in_flight == self.learn_in_flight,
            self.gced().gc_floor >= self.gc_floor,
            self.gced().peer_acked == self.acknowledged().peer_acked,
    {
        let s = self.acknowledged();
        assert(s.wf());
        lemma_least(s.peer_acked);
        assert(s.peer_acked[s.m.me_idx as int] == s.decided);
        s.lemma_freed_wf(least(s.peer_acked));
        let t = s.freed(least(s.peer_acked));
        t.lemma_evicted_wf();
        t.lemma_evicted_frame();
    }

    pub proof fn lemma_claimed_wf(self, slot: u64, cs: Seq<Command>)
        requires
            self.wf(),
        ensures
            self.claimed(slot, cs).wf(),
    {
        let s = self.claimed(slot, cs);
        assert(s.pool.entries.dom() =~= self.pool.entries.dom());
        lemma_same_data_accounted(self.pool, s.pool);
        assert forall|id: CommandId| #[trigger] s.pool.entries.contains_key(id) implies
            s.pool.entries[id].data.len() <= MAX_COMMAND_BYTES by {
            assert(self.pool.entries.contains_key(id));
        }
    }

    pub proof fn lemma_released_wf(self, slot: u64, winners: Seq<Command>)
        requires
            self.wf(),
        ensures
            self.released(slot, winners).wf(),
    {
        let s = self.released(slot, winners);
        assert(s.pool.entries.dom() =~= self.pool.entries.dom());
        lemma_same_data_accounted(self.pool, s.pool);
        assert forall|id: CommandId| #[trigger] s.pool.entries.contains_key(id) implies
            s.pool.entries[id].data.len() <= MAX_COMMAND_BYTES by {
            assert(self.pool.entries.contains_key(id));
        }
    }

    pub proof fn lemma_observed_wf(self, now: u64, slot: u64)
        requires
            self.wf(),
            slot > self.gc_floor,
        ensures
            self.observed(now, slot).wf(),
            self.observed(now, slot).slots.contains_key(slot),
    {
        let s = self.observed(now, slot);
        assert forall|k: u64| #[trigger] s.slots.contains_key(k) implies k > s.gc_floor
            && s.slots[k].wf(s.m.n as nat) by {
            if k != slot {
                assert(self.slots.contains_key(k));
            }
        }
        assert forall|k: u64| #[trigger] s.slots.contains_key(k)
            && s.slots[k].is_decided() implies s.retained.contains_key(k)
            && s.slots[k].proposer is Done by {
            assert(self.slots.contains_key(k));
        }
    }

    /// Replacing an undecided slot state by another.
    pub proof fn lemma_replaced_wf(self, slot: u64, state: SlotView)
        requires
            self.wf(),
            slot > self.gc_floor,
            self.slots.contains_key(slot),
            state.wf(self.m.n as nat),
            state.is_decided() == self.slots[slot].is_decided(),
            state.is_decided() ==> state.recorder == self.slots[slot].recorder && state.proposer
                is Done,
        ensures
            (State { slots: self.slots.insert(slot, state), ..self }).wf(),
    {
        let s = State { slots: self.slots.insert(slot, state), ..self };
        assert forall|k: u64| #[trigger] s.slots.contains_key(k) implies k > s.gc_floor
            && s.slots[k].wf(s.m.n as nat) by {
            if k != slot {
                assert(self.slots.contains_key(k));
            }
        }
        assert forall|k: u64| #[trigger] s.slots.contains_key(k)
            && s.slots[k].is_decided() implies s.retained.contains_key(k)
            && s.slots[k].proposer is Done by {
            assert(self.slots.contains_key(k));
        }
    }

    pub proof fn lemma_installed_wf(self, slot: u64, value: Seq<u8>)
        requires
            self.wf(),
            slot > self.gc_floor,
            self.slots.contains_key(slot),
            !self.slots[slot].is_decided(),
            self.kept() + value.len() <= usize::MAX,
        ensures
            self.installed(slot, value).wf(),
            self.installed(slot, value).kept() == self.kept() + value.len(),
    {
        let s = self.installed(slot, value);
        assert(!self.retained.contains_key(slot));
        assert(lengths(self.retained).dom() =~= self.retained.dom());
        lemma_total_insert(lengths(self.retained), slot, value.len());
        assert(lengths(s.retained) =~= lengths(self.retained).insert(slot, value.len()));
        assert forall|k: u64| #[trigger] s.slots.contains_key(k) implies k > s.gc_floor
            && s.slots[k].wf(s.m.n as nat) by {
            if k != slot {
                assert(self.slots.contains_key(k));
            }
        }
        assert forall|k: u64| #[trigger] s.slots.contains_key(k)
            && s.slots[k].is_decided() implies s.retained.contains_key(k)
            && s.slots[k].proposer is Done by {
            if k != slot {
                assert(self.slots.contains_key(k));
            }
        }
        assert forall|k: u64| #[trigger] s.retained.contains_key(k) implies s.slots.contains_key(k)
            && s.slots[k].recorder == RecorderView::Decided(s.retained[k]) by {
            if k != slot {
                assert(self.retained.contains_key(k));
            }
        }
        assert forall|k: u64| s.gc_floor < k <= s.decided implies
            #[trigger] s.retained.contains_key(k) by {
            assert(self.retained.contains_key(k));
        }
    }

    pub proof fn lemma_settled_wf(self, now: u64, slot: u64, value: Seq<u8>, is_decider: bool)
        requires
            self.wf(),
        ensures
            self.settled(now, slot, value, is_decider).wf(),
    {
        if !self.drops(slot, value, is_decider) {
            self.lemma_observed_wf(now, slot);
            let s = self.observed(now, slot);
            if s.slots[slot].is_decided() {
                s.lemma_replaced_wf(
                    slot,
                    SlotView { proposer: ProposerView::Done, ..s.slots[slot] },
                );
            } else {
                s.lemma_installed_wf(slot, value);
                let s1 = s.installed(slot, value);
                let f = |idx: int| PayloadView::Decide { slot: Slot(slot), value };
                s1.lemma_send_all_wf(f);
                let s2 = if is_decider {
                    s1.send_all(f)
                } else {
                    s1
                };
                s2.lemma_released_wf(slot, batch_of(value));
                let s3 = s2.released(slot, batch_of(value)).refreshed(now);
                s3.lemma_delivered_wf();
                let s4 = s3.delivered().acknowledged();
                assert(s4.wf());
                s4.refreshed(now).lemma_gced_wf();
            }
        }
    }

    pub proof fn lemma_started_wf(self, now: u64, slot: u64, value: Seq<u8>)
        requires
            self.wf(),
            slot > self.gc_floor,
            self.slots.contains_key(slot),
            !self.slots[slot].is_decided(),
        ensures
            self.started(now, slot, value).wf(),
    {
        lemma_none_set(self.m.n as nat);
        lemma_drawn(self.rng, self.m.n as nat);
        let run = RunView::started(value, self.m, self.m.leads(), now, self.rng);
        assert(run.wf(self.m.n as nat));
        self.lemma_replaced_wf(
            slot,
            SlotView { proposer: ProposerView::Running(run), ..self.slots[slot] },
        );
    }

    pub proof fn lemma_drive_local_wf(self, now: u64, slot: u64)
        requires
            self.wf(),
            self.slots.contains_key(slot),
        ensures
            self.drive_local(now, slot).wf(),
    {
        self.slots[slot].lemma_driven_wf(self.m, now, self.rng);
        self.lemma_replaced_wf(slot, self.slots[slot].driven(self.m, now, self.rng).slot);
    }

    // ---- the operations that call each other ----

    pub proof fn lemma_decide_wf(self, now: u64, slot: u64, value: Seq<u8>, is_decider: bool)
        requires
            self.wf(),
        ensures
            self.decide(now, slot, value, is_decider).wf(),
            self.decide(now, slot, value, is_decider).kin(self),
            self.decide(now, slot, value, is_decider).max_open >= self.max_open,
        decreases u64::MAX - self.max_open, 3int,
    {
        self.lemma_settled_wf(now, slot, value, is_decider);
        self.lemma_settled_frame(now, slot, value, is_decider);
        if self.settles(slot, value, is_decider) {
            self.settled(now, slot, value, is_decider).lemma_opened_wf(now);
        }
    }

    pub proof fn lemma_open_more_wf(self, now: u64)
        requires
            self.wf(),
        ensures
            self.open_more(now).wf(),
            self.open_more(now).kin(self),
            self.open_more(now).max_open >= self.max_open,
        decreases u64::MAX - self.max_open, 1int,
    {
        if self.can_open() {
            let slot = (self.highest() + 1) as u64;
            self.lemma_claimed_wf(slot, self.next_batch());
            let s = self.opening();
            assert(s.wf());
            s.lemma_activated_wf(now, slot, batch_bytes(self.next_batch()));
            s.activated(now, slot, batch_bytes(self.next_batch())).lemma_open_more_wf(now);
        }
    }

    pub proof fn lemma_opened_wf(self, now: u64)
        requires
            self.wf(),
        ensures
            self.opened(now).wf(),
            self.opened(now).kin(self),
            self.opened(now).max_open >= self.max_open,
        decreases u64::MAX - self.max_open, 2int,
    {
        if self.m.leads() {
            self.lemma_open_more_wf(now);
        }
    }

    pub proof fn lemma_activated_wf(self, now: u64, slot: u64, value: Seq<u8>)
        requires
            self.wf(),
            slot > self.gc_floor,
        ensures
            self.activated(now, slot, value).wf(),
            self.activated(now, slot, value).kin(self),
            self.activated(now, slot, value).max_open >= self.max_open,
        decreases u64::MAX - self.max_open, 5int,
    {
        self.lemma_observed_wf(now, slot);
        let s = self.observed(now, slot);
        if s.slots[slot].proposer is Idle && !s.slots[slot].is_decided() {
            s.lemma_started_wf(now, slot, value);
            s.started(now, slot, value).lemma_drive_wf(now, slot);
        }
    }

    pub proof fn lemma_drive_wf(self, now: u64, slot: u64)
        requires
            self.wf(),
        ensures
            self.drive(now, slot).wf(),
            self.drive(now, slot).kin(self),
            self.drive(now, slot).max_open >= self.max_open,
        decreases u64::MAX - self.max_open, 4int,
    {
        if self.slots.contains_key(slot) {
            self.lemma_drive_local_wf(now, slot);
            let s = self.drive_local(now, slot);
            match self.slots[slot].driven(self.m, now, self.rng).next {
                ProgressView::Wait => {},
                ProgressView::Send => {
                    let run = s.slots[slot].proposer->Running_0;
                    let f = |idx: int|
                        PayloadView::Record {
                            slot: Slot(slot),
                            step: run.step,
                            proposal: run.proposal_for(idx),
                        };
                    s.lemma_send_all_wf(f);
                    s.lemma_send_upto_frame(s.m.n as nat, f);
                },
                ProgressView::Decided(value) => {
                    s.lemma_decide_wf(now, slot, value, true);
                },
            }
        }
    }

    // ---- messages ----

    pub proof fn lemma_on_record_wf(
        self,
        now: u64,
        from_idx: int,
        slot: u64,
        step: u32,
        p: ProposalView,
    )
        requires
            self.wf(),
        ensures
            self.on_record(now, from_idx, slot, step, p).wf(),
            self.on_record(now, from_idx, slot, step, p).kin(self),
    {
        if !(slot <= self.gc_floor || step < 4 || slot > self.decided + self.ahead_window()) {
            self.lemma_observed_wf(now, slot);
            let s = self.observed(now, slot);
            s.lemma_replaced_wf(slot, s.slots[slot].recorded(now, step, p));
        }
    }

    pub proof fn lemma_answered_state_wf(
        self,
        now: u64,
        from_idx: int,
        slot: u64,
        req_step: u32,
        reply_step: u32,
        first: ReplyFirstView,
        prior_agg: Option<ProposalView>,
    )
        requires
            self.wf(),
            self.slots.contains_key(slot),
            0 <= from_idx < self.m.n,
        ensures
            self.answered(now, from_idx, slot, req_step, reply_step, first, prior_agg).wf(),
    {
        let t = self.slots[slot];
        t.lemma_answered_wf(
            self.m,
            now,
            self.rng,
            from_idx,
            req_step,
            reply_step,
            first,
            prior_agg,
        );
        self.lemma_replaced_wf(
            slot,
            t.answered(self.m, now, self.rng, from_idx, req_step, reply_step, first, prior_agg),
        );
    }

    pub proof fn lemma_on_record_reply_wf(
        self,
        now: u64,
        from_idx: int,
        slot: u64,
        req_step: u32,
        reply_step: u32,
        first: ReplyFirstView,
        prior_agg: Option<ProposalView>,
    )
        requires
            self.wf(),
            0 <= from_idx < self.m.n,
        ensures
            self.on_record_reply(now, from_idx, slot, req_step, reply_step, first, prior_agg).wf(),
            self.on_record_reply(
                now,
                from_idx,
                slot,
                req_step,
                reply_step,
                first,
                prior_agg,
            ).kin(self),
    {
        if self.slots.contains_key(slot) {
            self.lemma_answered_state_wf(
                now,
                from_idx,
                slot,
                req_step,
                reply_step,
                first,
                prior_agg,
            );
            let s = self.answered(now, from_idx, slot, req_step, reply_step, first, prior_agg);
            s.lemma_drive_wf(now, slot);
            match self.slots[slot].answer_progress(
                self.m,
                from_idx,
                req_step,
                reply_step,
                first,
                prior_agg,
            ) {
                ProgressView::Decided(value) => {
                    s.lemma_decide_wf(now, slot, value, true);
                },
                _ => {},
            }
        }
    }

    pub proof fn lemma_inserted_wf(self, now: u64, id: CommandId, data: Seq<u8>)
        requires
            self.wf(),
            !self.pool.entries.contains_key(id),
            data.len() <= MAX_COMMAND_BYTES,
            self.pool.bytes + entry_cost(data.len()) <= self.config.max_pool_bytes,
        ensures
            (State { pool: self.pool.inserted(id, data, now), ..self }).wf(),
    {
        pool_bytes_are_accounted(self.pool, id, data, now);
        let s = State { pool: self.pool.inserted(id, data, now), ..self };
        assert forall|x: CommandId| #[trigger] s.pool.entries.contains_key(x) implies
            s.pool.entries[x].data.len() <= MAX_COMMAND_BYTES by {
            if x != id {
                assert(self.pool.entries.contains_key(x));
            }
        }
    }

    pub proof fn lemma_pooled_wf(self, now: u64, cs: Seq<Command>)
        requires
            self.wf(),
        ensures
            self.pooled(now, cs).wf(),
            self.pooled(now, cs) == (State { pool: self.pooled(now, cs).pool, ..self }),
        decreases cs.len(),
    {
        if cs.len() > 0 {
            self.lemma_pooled_wf(now, cs.drop_last());
            let before = self.pooled(now, cs.drop_last());
            if before.takes(cs.last()) {
                before.lemma_inserted_wf(now, cs.last().0, cs.last().1);
            }
        }
    }

    pub proof fn lemma_on_forward_wf(self, now: u64, cs: Seq<Command>)
        requires
            self.wf(),
        ensures
            self.on_forward(now, cs).wf(),
            self.on_forward(now, cs).kin(self),
    {
        self.lemma_pooled_wf(now, cs);
        self.pooled(now, cs).refreshed(now).lemma_opened_wf(now);
    }

    pub proof fn lemma_learned_wf(self, now: u64, first: u64, values: Seq<Seq<u8>>)
        requires
            self.wf(),
        ensures
            self.learned(now, first, values).wf(),
            self.learned(now, first, values).kin(self),
        decreases values.len(),
    {
        if values.len() > 0 {
            let before = self.learned(now, first, values.drop_last());
            self.lemma_learned_wf(now, first, values.drop_last());
            let slot = first + values.len() - 1;
            if slot <= u64::MAX {
                before.lemma_decide_wf(now, slot as u64, values.last(), false);
            }
        }
    }

    pub proof fn lemma_request_learn_wf(self, now: u64, from_idx: int, their_decided: u64)
        requires
            self.wf(),
        ensures
            self.request_learn(now, from_idx, their_decided).wf(),
            self.request_learn(now, from_idx, their_decided).kin(self),
    {
    }

    pub proof fn lemma_handled_wf(self, now: u64, idx: int, payload: PayloadView)
        requires
            self.wf(),
            0 <= idx < self.m.n,
        ensures
            self.handled(now, idx, payload).wf(),
            self.handled(now, idx, payload).kin(self),
    {
        match payload {
            PayloadView::Record { slot, step, proposal } => {
                self.lemma_on_record_wf(now, idx, slot.0, step, proposal);
            },
            PayloadView::RecordReply { slot, req_step, step, first, prior_agg } => {
                self.lemma_on_record_reply_wf(now, idx, slot.0, req_step, step, first, prior_agg);
            },
            PayloadView::Decide { slot, value } => {
                self.lemma_decide_wf(now, slot.0, value, false);
            },
            PayloadView::Forward { commands } => {
                self.lemma_on_forward_wf(now, commands);
            },
            PayloadView::Learn { .. } => {},
            PayloadView::LearnReply { first_slot, values } => {
                let s = State { learn_in_flight: None, ..self };
                s.lemma_learned_wf(now, first_slot.0, values);
            },
            PayloadView::Ping => {},
        }
    }

    /// The index of a member other than this replica.
    pub proof fn lemma_index(self, id: crate::types::ReplicaId)
        requires
            self.wf(),
            self.config.replicas.contains(id),
        ensures
            0 <= self.index(id) < self.m.n,
            self.config.replicas[self.index(id)] == id,
            forall|i: int|
                0 <= i < self.m.n && #[trigger] self.config.replicas[i] == id ==> i == self.index(
                    id,
                ),
            self.index(id) == self.m.me_idx <==> id == self.m.me,
    {
        let i = self.index(id);
        assert forall|j: int| 0 <= j < self.m.n && #[trigger] self.config.replicas[j] == id implies j
            == i by {
            let q = self.config.replicas;
            if i < j {
                assert(q[i].rank() < q[j].rank());
            } else if j < i {
                assert(q[j].rank() < q[i].rank());
            }
        }
    }

    /// Receiving keeps a replica well-formed.
    pub proof fn lemma_received_wf(self, now: u64, message: MessageView)
        requires
            self.wf(),
        ensures
            self.received(now, message).wf(),
            self.received(now, message).kin(self),
    {
        if self.heeds(message.from) {
            self.lemma_index(message.from);
            let idx = self.index(message.from);
            let s = self.noted(idx, message.decided.0);
            assert(s.wf());
            s.lemma_handled_wf(now, idx, message.payload);
            let t = s.handled(now, idx, message.payload);
            t.lemma_request_learn_wf(now, idx, message.decided.0);
            t.request_learn(now, idx, message.decided.0).lemma_gced_wf();
        }
    }

    // ---- submission ----

    pub proof fn lemma_forwarded_wf(self, now: u64, id: CommandId, attempts: u64)
        requires
            self.wf(),
            self.pool.entries.contains_key(id),
        ensures
            self.forwarded(now, id, attempts).wf(),
    {
        let s = self.forwarded(now, id, attempts);
        assert(s.pool.entries.dom() =~= self.pool.entries.dom());
        lemma_same_data_accounted(self.pool, s.pool);
        assert forall|x: CommandId| #[trigger] s.pool.entries.contains_key(x) implies
            s.pool.entries[x].data.len() <= MAX_COMMAND_BYTES by {
            assert(self.pool.entries.contains_key(x));
        }
    }

    pub proof fn lemma_removed_wf(self, id: CommandId)
        requires
            self.wf(),
        ensures
            (State { pool: self.pool.removed(id), ..self }).wf(),
            self.pool.removed(id).bytes <= self.pool.bytes,
            self.pool.entries.contains_key(id) ==> entry_cost(self.pool.entries[id].data.len())
                <= self.pool.bytes,
    {
        pool_bytes_are_accounted(self.pool, id, Seq::empty(), 0);
        let s = State { pool: self.pool.removed(id), ..self };
        assert forall|x: CommandId| #[trigger] s.pool.entries.contains_key(x) implies
            s.pool.entries[x].data.len() <= MAX_COMMAND_BYTES by {
            assert(self.pool.entries.contains_key(x));
        }
    }

    pub proof fn lemma_enqueued_wf(self, now: u64, data: Seq<u8>)
        requires
            self.wf(),
            self.submit_error(data.len()) is None,
        ensures
            self.enqueued(now, data).wf(),
            self.enqueued(now, data).pool.entries.contains_key(self.next_id()),
    {
        let id = self.next_id();
        self.lemma_removed_wf(id);
        let s = State { pool: self.pool.removed(id), ..self };
        s.lemma_inserted_wf(now, id, data);
    }

    /// Submitting keeps a replica well-formed.
    pub proof fn lemma_submitted_wf(self, now: u64, data: Seq<u8>)
        requires
            self.wf(),
            self.submit_error(data.len()) is None,
        ensures
            self.submitted(now, data).wf(),
            self.submitted(now, data).m == self.m,
            self.submitted(now, data).config == self.config,
            self.submitted(now, data).boot == self.boot,
            self.submitted(now, data).next_seq == self.next_seq + 1 || self.next_seq == u64::MAX,
    {
        self.lemma_enqueued_wf(now, data);
        let s = self.enqueued(now, data);
        s.lemma_opened_wf(now);
        s.lemma_forwarded_wf(now, self.next_id(), 1);
    }

    // ---- time ----

    pub proof fn lemma_hedge_wf(self, now: u64, slot: u64)
        requires
            self.wf(),
        ensures
            self.hedge(now, slot).wf(),
            self.hedge(now, slot).kin(self),
    {
        if slot > self.decided {
            self.lemma_claimed_wf(slot, self.next_batch());
            self.claimed(slot, self.next_batch()).lemma_activated_wf(
                now,
                slot,
                batch_bytes(self.next_batch()),
            );
        }
    }

    pub proof fn lemma_hedge_each_wf(self, now: u64, due: Seq<u64>)
        requires
            self.wf(),
        ensures
            self.hedge_each(now, due).wf(),
            self.hedge_each(now, due).kin(self),
        decreases due.len(),
    {
        if due.len() > 0 {
            self.lemma_hedge_each_wf(now, due.drop_last());
            self.hedge_each(now, due.drop_last()).lemma_hedge_wf(now, due.last());
        }
    }

    pub proof fn lemma_renewed_wf(self, slot: u64)
        requires
            self.wf(),
        ensures
            self.renewed(slot).wf(),
    {
        if self.slots.contains_key(slot) {
            if let ProposerView::Running(run) = self.slots[slot].proposer {
                self.lemma_replaced_wf(
                    slot,
                    SlotView {
                        proposer: ProposerView::Running(RunView { needs_send: true, ..run }),
                        ..self.slots[slot]
                    },
                );
            }
        }
    }

    pub proof fn lemma_resend_each_wf(self, now: u64, stale: Seq<u64>)
        requires
            self.wf(),
        ensures
            self.resend_each(now, stale).wf(),
            self.resend_each(now, stale).kin(self),
        decreases stale.len(),
    {
        if stale.len() > 0 {
            self.lemma_resend_each_wf(now, stale.drop_last());
            let s = self.resend_each(now, stale.drop_last());
            s.lemma_renewed_wf(stale.last());
            s.renewed(stale.last()).lemma_drive_wf(now, stale.last());
        }
    }

    pub proof fn lemma_refreshed_forwards_wf(self, now: u64, ids: Seq<CommandId>)
        requires
            self.wf(),
        ensures
            self.refreshed_forwards(now, ids).wf(),
    {
        let s = self.refreshed_forwards(now, ids);
        assert(s.pool.entries.dom() =~= self.pool.entries.dom());
        lemma_same_data_accounted(self.pool, s.pool);
        assert forall|x: CommandId| #[trigger] s.pool.entries.contains_key(x) implies
            s.pool.entries[x].data.len() <= MAX_COMMAND_BYTES by {
            assert(self.pool.entries.contains_key(x));
        }
    }

    pub proof fn lemma_send_forwards_frame(self, chunks: Seq<(int, Seq<Command>)>)
        ensures
            self.send_forwards(chunks) == (State {
                actions: self.send_forwards(chunks).actions,
                ..self
            }),
        decreases chunks.len(),
    {
        if chunks.len() > 0 {
            self.lemma_send_forwards_frame(chunks.drop_last());
        }
    }

    pub proof fn lemma_learn_ticked_wf(self, now: u64)
        requires
            self.wf(),
        ensures
            self.learn_ticked(now).wf(),
    {
    }

    /// The passage of time keeps a replica well-formed.
    pub proof fn lemma_ticked_wf(self, now: u64)
        requires
            self.wf(),
        ensures
            self.ticked(now).wf(),
            self.ticked(now).m == self.m,
            self.ticked(now).config == self.config,
            self.ticked(now).boot == self.boot,
            self.ticked(now).next_seq == self.next_seq,
    {
        if self.decided < u64::MAX {
            self.lemma_observed_wf(now, (self.decided + 1) as u64);
        }
        let s1 = self.frontier_observed(now);
        s1.lemma_hedge_each_wf(now, s1.hedge_due(now));
        let s2 = s1.hedged(now);
        assert(s2.wf());
        s2.lemma_opened_wf(now);
        let s3 = s2.opened(now);
        s3.lemma_resend_each_wf(now, s3.stale(now));
        let s4 = s3.retransmitted(now);
        let ids = s4.forward_due(now);
        s4.lemma_refreshed_forwards_wf(now, ids);
        s4.refreshed_forwards(now, ids).lemma_send_forwards_frame(
            s4.chunked(ids).flushed(s4.m.n as nat),
        );
        let s5 = s4.reforwarded(now);
        assert(s5.wf());
        s5.lemma_learn_ticked_wf(now);
        let s6 = s5.learn_ticked(now);
        let f = |idx: int| PayloadView::Ping;
        (State { last_ping: now, ..s6 }).lemma_send_upto_frame(s6.m.n as nat, f);
    }
}

} // verus!
