//! Which commands a proposal takes.

use vstd::prelude::*;

use crate::hedging::lemma_place;
use crate::invariants::lemma_fitting;
use crate::pool::{has_id, origin_of};
use crate::proposer::{
    drawn, lemma_drawn, lemma_none_set, lemma_set_count_update, ProposerView,
};
use crate::sorted::{
    ascending, lemma_ascending, lemma_ascends_distinct, lemma_filter_ascends, Key,
};
use crate::state::State;
use crate::types::{
    batch_bytes, batch_decoding_inverts_encoding, parse_batch, Command, CommandId, Slot,
};
use crate::upkeep::{lemma_weight, weight};
use crate::wire::PayloadView;

verus! {

/// Commands are taken by origin, then boot, then sequence number.
pub open spec fn earlier(a: CommandId, b: CommandId) -> bool {
    ||| a.origin.0 < b.origin.0
    ||| a.origin == b.origin && a.boot < b.boot
    ||| a.origin == b.origin && a.boot == b.boot && a.seq < b.seq
}

impl State {
    /// Whether the command under `id` may be proposed: it rides in no slot, and
    /// is at most 1024 after the last one of its origin up to which all were
    /// delivered.
    pub open spec fn ripe(self, id: CommandId) -> bool {
        &&& self.pool.entries.contains_key(id)
        &&& self.pool.entries[id].proposed_in is None
        &&& id.seq <= self.dedup.high_water(origin_of(id)) + 1024
    }

    /// A proposal takes the commands that may be proposed, in order, as many as
    /// fit: at least one if there is any, and further ones as long as they keep
    /// within the limit on batches, each counted with 28 bytes besides its
    /// data. What it leaves comes after what it takes, and the first of those
    /// would have exceeded the limit.
    pub proof fn batches_take_what_fits(self, left: CommandId)
        requires
            self.wf(),
        ensures
            ({
                let b = self.next_batch();
                let limit = self.config.max_batch_bytes;
                &&& b.len() <= 1 || weight(b) <= limit
                &&& forall|i: int|
                    0 <= i < b.len() ==> self.ripe((#[trigger] b[i]).0) && b[i].1
                        == self.pool.entries[b[i].0].data
                &&& forall|i: int, j: int|
                    0 <= i < j < b.len() ==> earlier((#[trigger] b[i]).0, (#[trigger] b[j]).0)
                &&& self.ripe(left) && !has_id(b, left) ==> {
                    &&& b.len() > 0
                    &&& forall|i: int| 0 <= i < b.len() ==> earlier((#[trigger] b[i]).0, left)
                    &&& (forall|id: CommandId| #[trigger]
                        self.ripe(id) && !has_id(b, id) ==> !earlier(id, left)) ==> weight(b)
                        + self.pool.entries[left].data.len() + 28 > limit
                }
            }),
    {
        let keys = ascending(self.pool.entries.dom());
        let pred = |id: CommandId|
            self.pool.entries[id].proposed_in is None && id.seq <= self.dedup.high_water(
                origin_of(id),
            ) + 1024;
        lemma_ascending(self.pool.entries.dom());
        lemma_filter_ascends(keys, pred);
        let q = keys.filter(pred);
        let all = self.eligible();
        let b = self.next_batch();
        let limit = self.config.max_batch_bytes as nat;
        let n = b.len() as int;
        lemma_fitting(all, limit);
        lemma_weight(b);
        assert(all == q.map_values(|id: CommandId| (id, self.pool.entries[id].data)));
        assert forall|x: int| 0 <= x < q.len() implies self.ripe(#[trigger] q[x]) by {
            assert(q.contains(q[x]));
            assert(keys.to_set().contains(q[x]));
        }
        assert forall|i: int| 0 <= i < b.len() implies self.ripe((#[trigger] b[i]).0) && b[i].1
            == self.pool.entries[b[i].0].data by {
            assert(b[i] == all[i]);
            assert(self.ripe(q[i]));
        }
        assert forall|i: int, j: int| 0 <= i < j < q.len() implies earlier(
            #[trigger] q[i],
            #[trigger] q[j],
        ) by {
            lemma_earlier(q[i], q[j]);
        }
        assert forall|i: int, j: int| 0 <= i < j < b.len() implies earlier(
            (#[trigger] b[i]).0,
            (#[trigger] b[j]).0,
        ) by {
            assert(b[i] == all[i] && b[j] == all[j]);
            assert(earlier(q[i], q[j]));
        }
        if self.ripe(left) && !has_id(b, left) {
            assert(keys.to_set().contains(left));
            assert(q.contains(left));
            let x = choose|x: int| 0 <= x < q.len() && q[x] == left;
            if x < n {
                assert(b[x] == all[x]);
                assert(has_id(b, left));
            }
            assert forall|i: int| 0 <= i < b.len() implies earlier((#[trigger] b[i]).0, left) by {
                assert(b[i] == all[i]);
                assert(earlier(q[i], q[x]));
            }
            if forall|id: CommandId| #[trigger]
                self.ripe(id) && !has_id(b, id) ==> !earlier(id, left) {
                if x > n {
                    assert(earlier(q[n], q[x]));
                    assert(self.ripe(q[n]));
                    if has_id(b, q[n]) {
                        let i = choose|i: int| 0 <= i < b.len() && (#[trigger] b[i]).0 == q[n];
                        assert(b[i] == all[i]);
                        assert(earlier(q[i], q[n]));
                    }
                }
                let more = all.take(n + 1);
                lemma_weight(more);
                assert(more.drop_last() =~= b);
                assert(more.last() == all[n]);
            }
        }
    }
}

impl State {
    /// Whether the proposer for slot `k` is at its first step with the value
    /// `value`: with the reserved priority for all if this replica leads, and
    /// with some lower one for each of them otherwise.
    pub open spec fn offers(self, k: u64, value: Seq<u8>) -> bool {
        match self.slots[k].proposer {
            ProposerView::Running(run) => {
                &&& run.step == 4
                &&& run.proposal.proposer == self.config.me
                &&& run.proposal.value == value
                &&& forall|j: int|
                    0 <= j < self.m.n ==> if self.config.me == self.config.replicas[0] {
                        (#[trigger] run.proposal_for(j)).priority == 0xffff_ffff
                    } else {
                        1 <= run.proposal_for(j).priority < 0xffff_ffff
                    }
            },
            _ => false,
        }
    }

    /// Whether the recorder has seen nothing for slot `k`, and the proposer has
    /// not run.
    pub open spec fn untouched(self, k: u64) -> bool {
        &&& self.slots[k].proposer is Idle
        &&& self.slots[k].recorder is Open
        &&& self.slots[k].recorder->Open_0.step < 4
    }

    /// A proposer that starts where the recorder has seen nothing stays at its
    /// first step.
    proof fn lemma_starts_fresh(self, now: u64, k: u64, value: Seq<u8>)
        requires
            self.wf(),
            self.m.n >= 2,
            k > self.gc_floor,
            !self.slots.contains_key(k) || self.untouched(k),
        ensures
            self.activated(now, k, value).offers(k, value),
            self.activated(now, k, value).slots[k].proposer->Running_0.sent_at == now,
    {
        let a = self.observed(now, k);
        self.lemma_observed_wf(now, k);
        let b = a.started(now, k, value);
        a.lemma_started_wf(now, k, value);
        lemma_none_set(self.m.n as nat);
        lemma_drawn(self.rng, self.m.n as nat);
        let slot = b.slots[k];
        let run = slot.proposer->Running_0;
        let me = b.m.me_idx as int;
        let ids = self.config.replicas;
        if me > 0 {
            assert(ids[0].rank() < ids[me].rank());
        }
        let own = slot.self_recorded(b.m, now, b.rng);
        lemma_set_count_update(run.replied, me);
        assert(own.next is Wait);
        assert(slot.driven(b.m, now, b.rng).slot == own.slot);
        let local = b.drive_local(now, k);
        let r = local.slots[k].proposer->Running_0;
        let f = |i: int|
            PayloadView::Record { slot: Slot(k), step: r.step, proposal: r.proposal_for(i) };
        local.lemma_send_upto_frame(b.m.n as nat, f);
        let d = b.drive(now, k);
        assert(d == local.send_upto(b.m.n as nat, f));
        assert(d.slots[k] == own.slot);
        assert(self.activated(now, k, value) == d);
        assert(r.priorities == run.priorities && r.proposal == run.proposal && r.step == 4);
        assert forall|j: int| 0 <= j < self.m.n implies if self.config.me == ids[0] {
            (#[trigger] r.proposal_for(j)).priority == 0xffff_ffff
        } else {
            1 <= r.proposal_for(j).priority < 0xffff_ffff
        } by {
            if me > 0 {
                assert(r.priorities[j] == drawn(self.rng, self.m.n as nat)[j]);
            }
        }
    }

    /// Whether the commands `b` ride in `slot`.
    pub open spec fn ride(self, b: Seq<Command>, slot: Slot) -> bool {
        forall|id: CommandId| #[trigger]
            has_id(b, id) ==> self.pool.entries.contains_key(id)
                && self.pool.entries[id].proposed_in == Some(slot)
    }

    proof fn lemma_batch_members(self)
        requires
            self.wf(),
        ensures
            forall|id: CommandId| #[trigger]
                has_id(self.next_batch(), id) ==> self.pool.entries.contains_key(id)
                    && self.pool.entries[id].proposed_in is None,
    {
        let q = self.next_batch();
        self.lemma_eligible();
        lemma_fitting(self.eligible(), self.config.max_batch_bytes as nat);
        assert forall|id: CommandId| #[trigger] has_id(q, id) implies
            self.pool.entries.contains_key(id) && self.pool.entries[id].proposed_in is None by {
            let i = choose|i: int| 0 <= i < q.len() && (#[trigger] q[i]).0 == id;
            assert(q[i] == self.eligible()[i]);
        }
    }

    /// Each slot that is due gets a batch, the first of them the first.
    proof fn lemma_due_gets_a_batch(self, now: u64, due: Seq<u64>, x: int, k: u64) -> (b: Seq<
        Command,
    >)
        requires
            self.wf(),
            self.m.n >= 2,
            self.rested(),
            0 <= x < due.len(),
            due[x] == k,
            due.no_duplicates(),
            k > self.decided,
            self.slots.contains_key(k),
            self.untouched(k),
        ensures
            ({
                let t = self.hedge_each(now, due);
                &&& t.slots.contains_key(k)
                &&& t.offers(k, batch_bytes(b))
                &&& parse_batch(batch_bytes(b)) == Some(b)
                &&& t.slots[k].proposer->Running_0.sent_at == now
                &&& t.ride(b, Slot(k))
                &&& x == 0 ==> b == self.next_batch()
                &&& forall|id: CommandId| #[trigger] t.ripe(id) ==> b.len() > 0
            }),
        decreases due.len(),
    {
        let init = due.drop_last();
        let j = due.last();
        let _ = self.lemma_hedge_each_emits(now, init, k);
        self.lemma_hedge_each_wf(now, init);
        let s = self.hedge_each(now, init);
        let value = batch_bytes(s.next_batch());
        let t = s.claimed(j, s.next_batch());
        s.lemma_claimed_wf(j, s.next_batch());
        s.lemma_batch_members();
        assert(t.rested());
        self.lemma_hedge_each_proposes(now, init);
        let u = self.hedge_each(now, due);
        if x == due.len() - 1 {
            assert(!init.contains(k)) by {
                if init.contains(k) {
                    let y = choose|y: int| 0 <= y < init.len() && init[y] == k;
                    assert(due[y] == due[x]);
                }
            }
            self.lemma_hedge_each_leaves(now, init, k);
            t.lemma_starts_fresh(now, k, value);
            t.lemma_activated_pool(now, k, value);
            assert(u == t.activated(now, k, value));
            let b = s.next_batch();
            s.batches_fit_the_wire_format();
            batch_decoding_inverts_encoding(value, b);
            assert forall|id: CommandId| #[trigger] u.ripe(id) implies b.len() > 0 by {
                assert(s.ripe(id));
                s.batches_take_what_fits(id);
            }
            b
        } else {
            assert(init[x] == k);
            assert(j != k) by {
                assert(due[due.len() - 1] == j);
            }
            let b = self.lemma_due_gets_a_batch(now, init, x, k);
            if j > s.decided {
                t.lemma_activated_leaves(now, j, value, k);
                t.lemma_activated_pool(now, j, value);
                assert(u == t.activated(now, j, value));
                assert forall|id: CommandId| #[trigger] has_id(b, id) implies
                    u.pool.entries.contains_key(id) && u.pool.entries[id].proposed_in == Some(
                    Slot(k),
                ) by {
                    assert(!has_id(s.next_batch(), id));
                }
                assert forall|id: CommandId| #[trigger] u.ripe(id) implies b.len() > 0 by {
                    assert(s.ripe(id));
                }
            }
            b
        }
    }

    /// A slot that was not stale is left alone as steps are transmitted again.
    proof fn lemma_resend_each_leaves(self, now: u64, stale: Seq<u64>, k: u64)
        requires
            self.wf(),
            self.m.n >= 2,
            self.rested(),
            self.slots.contains_key(k),
            !stale.contains(k),
        ensures
            self.leaves(self.resend_each(now, stale), k),
        decreases stale.len(),
    {
        if stale.len() > 0 {
            let init = stale.drop_last();
            let j = stale.last();
            assert(stale[stale.len() - 1] == j);
            assert(!init.contains(k)) by {
                if init.contains(k) {
                    let x = choose|x: int| 0 <= x < init.len() && init[x] == k;
                    assert(stale[x] == k);
                }
            }
            self.lemma_resend_each_leaves(now, init, k);
            self.lemma_resend_each_runs(now, init);
            self.lemma_resend_each_wf(now, init);
            let s = self.resend_each(now, init);
            let t = s.renewed(j);
            s.lemma_renewed_wf(j);
            assert(t.poised(j)) by {
                assert forall|x: u64| #[trigger] t.slots.contains_key(x) implies (x != j
                    ==> t.slots[x].rested(t.m.me_idx as int)) && t.slots[x].poised(
                    t.m.me_idx as int,
                ) by {
                    assert(s.slots.contains_key(x));
                }
            }
            let _ = t.lemma_drive_emits(now, j, k);
        }
    }

    /// A replica that takes over proposes what waits. When a tick starts the
    /// proposer for a slot of which the recorder has seen nothing, then the
    /// proposal is a batch of commands that now ride in the slot, and the last
    /// transmission goes to every other replica with it. For the slot after the
    /// watermark it is the batch of what may be proposed; for later ones it is
    /// not empty as long as anything is left.
    pub proof fn started_slots_get_batches(self, now: u64, k: u64) -> (b: Seq<Command>)
        requires
            self.wf(),
            self.m.n >= 2,
            self.rested(),
            k > self.decided,
            self.slots.contains_key(k),
            self.untouched(k),
            self.ticked(now).slots[k].is_running(),
        ensures
            ({
                let t = self.ticked(now);
                let sent = self.transmitted(t, k);
                &&& exists|value: Seq<u8>| #[trigger]
                    t.offers(k, value) && parse_batch(value) == Some(b)
                &&& t.ride(b, Slot(k))
                &&& k == self.decided + 1 ==> b == self.next_batch()
                &&& forall|id: CommandId| #[trigger] t.ripe(id) ==> b.len() > 0
                &&& sent.len() >= self.m.n - 1
                &&& exists|d: u64|
                    sent.skip(sent.len() - (self.m.n - 1)) == #[trigger] t.records(k, d)
            }),
    {
        let _ = self.hedging_goes_by_position(now, k);
        let s1 = self.frontier_observed(now);
        self.lemma_frontier_follows(now);
        assert(self.settles_into(s1));
        assert(s1.rested()) by {
            assert forall|x: u64| #[trigger] s1.slots.contains_key(x) implies s1.slots[x].rested(
                s1.m.me_idx as int,
            ) by {
                if s1.runs(x) {
                    assert(self.runs(x));
                    assert(self.slots.contains_key(x));
                }
            }
        }
        let due = s1.hedge_due(now);
        let pred = |x: u64| s1.hedges(x) && now >= s1.hedge_deadline(s1.slots[x]);
        lemma_ascending(s1.slots.dom());
        let keys = ascending(s1.slots.dom());
        lemma_filter_ascends(keys, pred);
        assert(due == keys.filter(pred));
        lemma_ascends_distinct(due);
        assert(keys.to_set().contains(k));
        lemma_place(self.config.replicas, self.config.me, self.m.me_idx as int);
        assert(due.contains(k)) by {
            if !due.contains(k) {
                assert(!pred(k));
            }
        }
        let x = choose|x: int| 0 <= x < due.len() && due[x] == k;
        if k == self.decided + 1 {
            assert(s1 == self);
            if x > 0 {
                assert(due[0].rank() < due[x].rank());
                assert(due.contains(due[0]));
                assert(pred(due[0]));
            }
        }
        let b = s1.lemma_due_gets_a_batch(now, due, x, k);
        let value = batch_bytes(b);
        let _ = s1.lemma_hedge_each_emits(now, due, k);
        let _ = s1.lemma_hedged_follows(now);
        let h = s1.hedge_each(now, due);
        let s2 = s1.hedged(now);
        assert(s2.rested());
        let _ = s2.lemma_opened_emits(now, k);
        s2.lemma_opened_wf(now);
        s2.lemma_opened_leaves(now, k);
        s2.lemma_opened_pools(now);
        s2.lemma_opened_proposes(now);
        let s3 = s2.opened(now);
        let stale = s3.stale(now);
        let old = |x: u64|
            x > s3.decided && (s3.slots[x].proposer matches ProposerView::Running(run)
                && now.saturating_sub(run.sent_at) >= s3.config.retransmit_delay);
        lemma_ascending(s3.slots.dom());
        lemma_filter_ascends(ascending(s3.slots.dom()), old);
        assert(stale == ascending(s3.slots.dom()).filter(old));
        assert(!old(k));
        s3.lemma_resend_each_leaves(now, stale, k);
        s3.lemma_resend_each_pool(now, stale);
        s3.lemma_resend_each_proposes(now, stale);
        let s4 = self.tick_middle(now);
        assert(s4 == s3.retransmitted(now));
        self.lemma_tick_parts(now);
        self.lemma_tick_middle_proposes(now);
        let s5 = s4.reforwarded(now);
        s4.lemma_reforwarded_follows(now);
        let t = self.ticked(now);
        assert(t.slots[k] == h.slots[k]);
        assert(t.offers(k, value));
        assert forall|id: CommandId| #[trigger]
            s5.pool.entries.contains_key(id) == s4.pool.entries.contains_key(id) && (
            s4.pool.entries.contains_key(id) ==> s5.pool.entries[id].proposed_in
                == s4.pool.entries[id].proposed_in) by {
            if !s4.m.leads() {
                s4.lemma_reforwards(now, id);
            }
        }
        assert forall|id: CommandId| #[trigger] has_id(b, id) implies t.pool.entries.contains_key(
            id,
        ) && t.pool.entries[id].proposed_in == Some(Slot(k)) by {
            assert(h.pool.entries.contains_key(id));
            s2.lemma_opened_keeps_riding(now, id, Slot(k));
            assert(s5.pool.entries.contains_key(id));
        }
        assert forall|id: CommandId| #[trigger] t.ripe(id) implies b.len() > 0 by {
            assert(s5.pool.entries.contains_key(id));
            assert(s3.pool.entries.contains_key(id));
            assert(s5.learn_ticked(now).dedup == s5.dedup) by {
                s5.lemma_learn_ticked_follows(now);
            }
            assert(t.dedup == h.dedup) by {
                s5.lemma_learn_ticked_follows(now);
                let s6 = s5.learn_ticked(now);
                let s7 = State { last_ping: now, ..s6 };
                s7.lemma_send_upto_frame(s7.m.n as nat, |idx: int| PayloadView::Ping);
            }
            assert(h.ripe(id));
        }
        b
    }
}

impl State {
    /// Commands that ride in a slot keep riding in it as others are opened.
    proof fn lemma_opened_keeps_riding(self, now: u64, id: CommandId, slot: Slot)
        requires
            self.wf(),
            self.m.n >= 2,
            self.rested(),
            self.pool.entries.contains_key(id),
            self.pool.entries[id].proposed_in == Some(slot),
        ensures
            self.open_more(now).pool.entries.contains_key(id),
            self.open_more(now).pool.entries[id].proposed_in == Some(slot),
        decreases u64::MAX - self.max_open,
    {
        if self.can_open() {
            let j = (self.highest() + 1) as u64;
            let q = self.next_batch();
            let value = batch_bytes(q);
            let s = self.opening();
            self.lemma_claimed_wf(j, q);
            assert(s.wf());
            assert(s.rested());
            self.lemma_eligible();
            lemma_fitting(self.eligible(), self.config.max_batch_bytes as nat);
            if has_id(q, id) {
                let i = choose|i: int| 0 <= i < q.len() && (#[trigger] q[i]).0 == id;
                assert(q[i] == self.eligible()[i]);
            }
            let _ = s.lemma_activated_emits(now, j, value, 0);
            s.lemma_activated_wf(now, j, value);
            s.lemma_activated_pool(now, j, value);
            s.activated(now, j, value).lemma_opened_keeps_riding(now, id, slot);
        }
    }

    /// A leader that opens a slot proposes the batch of what may be proposed
    /// for it, with the reserved priority, and its commands ride in the slot.
    pub proof fn opened_slots_get_the_batch(self, now: u64)
        requires
            self.wf(),
            self.m.n >= 2,
            self.rested(),
            self.config.replicas[0] == self.config.me,
            self.can_open(),
        ensures
            ({
                let t = self.opened(now);
                let b = self.next_batch();
                &&& exists|k: u64, value: Seq<u8>|
                    {
                        &&& #[trigger] t.offers(k, value)
                        &&& parse_batch(value) == Some(b)
                        &&& t.slots.contains_key(k)
                        &&& !self.slots.contains_key(k)
                        &&& k > self.decided
                        &&& t.ride(b, Slot(k))
                    }
            }),
    {
        let ids = self.config.replicas;
        if self.m.me_idx > 0 {
            assert(Key::rank(ids[0]) < Key::rank(ids[self.m.me_idx as int]));
        }
        let k = (self.highest() + 1) as u64;
        let b = self.next_batch();
        let value = batch_bytes(b);
        self.batches_fit_the_wire_format();
        batch_decoding_inverts_encoding(value, b);
        let s = self.opening();
        self.lemma_claimed_wf(k, b);
        assert(s.wf());
        assert(s.rested());
        if self.slots.contains_key(k) {
            self.lemma_last_known(k);
        }
        s.lemma_starts_fresh(now, k, value);
        let _ = s.lemma_activated_emits(now, k, value, 0);
        s.lemma_activated_wf(now, k, value);
        s.lemma_activated_pool(now, k, value);
        let u = s.activated(now, k, value);
        u.lemma_opened_leaves(now, k);
        let o = self.open_more(now);
        assert(o == u.open_more(now));
        self.lemma_eligible();
        lemma_fitting(self.eligible(), self.config.max_batch_bytes as nat);
        let t = self.opened(now);
        u.lemma_opened_proposes(now);
        assert(t.offers(k, value));
        assert forall|id: CommandId| #[trigger] has_id(b, id) implies t.pool.entries.contains_key(
            id,
        ) && t.pool.entries[id].proposed_in == Some(Slot(k)) by {
            let i = choose|i: int| 0 <= i < b.len() && (#[trigger] b[i]).0 == id;
            assert(b[i] == self.eligible()[i]);
            u.lemma_opened_keeps_riding(now, id, Slot(k));
        }
    }
}

proof fn lemma_earlier(a: CommandId, b: CommandId)
    ensures
        a.rank() < b.rank() <==> earlier(a, b),
{
}

} // verus!
