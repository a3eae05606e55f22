//! A group of one: every command is delivered as soon as it is submitted.

use vstd::prelude::*;

use crate::config::ConfigView;
use crate::lifetime::{belongs, Input, Lifetime};
use crate::pool::{origin_of, EntryView, OriginView};
use crate::proposer::{lemma_none_set, Member, ProposerView, RunView};
use crate::recorder::IsrView;
use crate::slot::{ProgressView, SlotView};
use crate::sorted::{ascending, ascending_is_unique, ascends};
use crate::state::{
    accepted, batch_of, dedup_after, least, lengths, pool_without, ActionView, State, DEDUP_WINDOW,
};
use crate::types::{batch_bytes, batch_decoding_inverts_encoding, CommandId, Origin, Slot};
use crate::wire::PayloadView;

verus! {

impl State {
    /// The origin of this replica's own commands.
    pub open spec fn origin(self) -> Origin {
        Origin { replica: self.config.me, boot: self.boot }
    }

    /// The only replica of its group, with everything submitted delivered and
    /// everything delivered freed.
    pub open spec fn at_rest(self) -> bool {
        &&& self.wf()
        &&& self.m.n == 1
        &&& self.slots == Map::<u64, SlotView>::empty()
        &&& self.gc_floor == self.decided
        &&& self.max_open <= self.decided
        &&& self.pool.entries == Map::<CommandId, EntryView>::empty()
        &&& self.pending_since is None
        &&& self.learn_in_flight is None
        &&& self.dedup.of(self.origin()) == (OriginView {
            high_water: self.next_seq,
            above: Set::empty(),
        })
    }

    /// At rest, nothing is retained.
    proof fn lemma_keeps_nothing(self)
        requires
            self.at_rest(),
        ensures
            self.retained == Map::<u64, Seq<u8>>::empty(),
            self.kept() == 0,
    {
        assert forall|x: u64| !#[trigger] self.retained.contains_key(x) by {
            if self.retained.contains_key(x) {
                assert(self.slots.contains_key(x));
            }
        }
        assert(self.retained =~= Map::<u64, Seq<u8>>::empty());
        assert(lengths(self.retained) =~= Map::empty());
    }

    /// A lone replica that is at rest and has one command in its pool.
    spec fn loaded(self, s: State, id: CommandId, data: Seq<u8>) -> bool {
        &&& s.at_rest()
        &&& self.wf()
        &&& self == (State { next_seq: self.next_seq, pool: self.pool, ..s })
        &&& self.pool.entries.dom() == set![id]
        &&& self.pool.entries[id].data == data
        &&& self.pool.entries[id].proposed_in is None
        &&& id.origin == s.config.me
        &&& id.boot == s.boot
        &&& id.seq == s.next_seq + 1
    }

    /// The next batch is the one command.
    proof fn lemma_loaded_batch(self, s: State, id: CommandId, data: Seq<u8>)
        requires
            self.loaded(s, id, data),
        ensures
            self.next_batch() == seq![(id, data)],
    {
        let keys = seq![id];
        assert(keys.to_set() =~= set![id]) by {
            assert forall|k: CommandId| keys.to_set().contains(k) <==> set![id].contains(k) by {
                if k == id {
                    assert(keys[0] == id);
                }
            }
        }
        assert(ascends(keys));
        ascending_is_unique(keys);
        let pred = |x: CommandId|
            self.pool.entries[x].proposed_in is None && x.seq <= self.dedup.high_water(
                origin_of(x),
            ) + DEDUP_WINDOW;
        assert(origin_of(id) == s.origin());
        assert(pred(id));
        reveal(Seq::filter);
        assert(keys.drop_last().filter(pred) =~= Seq::empty());
        assert(keys.filter(pred) =~= seq![id]);
        assert(self.eligible() =~= seq![(id, data)]);
    }

    /// With an empty pool there is nothing to open.
    proof fn lemma_nothing_to_open(self, now: u64)
        requires
            self.wf(),
            self.pool.entries == Map::<CommandId, EntryView>::empty(),
        ensures
            self.open_more(now) == self,
            self.opened(now) == (if self.m.leads() {
                State { pending_since: None, ..self }
            } else {
                self
            }),
    {
        self.lemma_eligible();
        crate::invariants::lemma_fitting(
            self.eligible(),
            self.config.max_batch_bytes as nat,
        );
        if self.eligible().len() > 0 {
            assert(self.pool.entries.contains_key(self.eligible()[0].0));
        }
    }

    /// The proposer of a fresh slot decides at once.
    proof fn lemma_solo_drive(self, now: u64, k: u64, value: Seq<u8>)
        requires
            self.wf(),
            self.m.n == 1,
            self.slots.contains_key(k),
            self.slots[k] == (SlotView {
                proposer: ProposerView::Running(
                    RunView::started(value, self.m, true, now, self.rng),
                ),
                ..SlotView::fresh(now)
            }),
        ensures
            self.slots[k].driven(self.m, now, self.rng).next == ProgressView::Decided(value),
            !self.slots[k].driven(self.m, now, self.rng).slot.is_decided(),
    {
        let run = RunView::started(value, self.m, true, now, self.rng);
        let p = run.proposal;
        let slot = self.slots[k];
        lemma_none_set(1);
        crate::types::proposal_order_is_total(p, p, p);
        let sent = RunView { needs_send: false, sent_at: now, ..run };
        assert(sent.proposal_for(0) == p);
        let isr1 = IsrView::empty().record(4, p);
        assert(isr1.step == 4 && isr1.first == Some(p) && isr1.prior_agg is None);
        assert(sent.progress(self.m, 0, 4, 4, p, None) == ProgressView::Decided(value));
        let d = slot.self_recorded(self.m, now, self.rng);
        assert(d.next == ProgressView::Decided(value));
        assert(slot.driven(self.m, now, self.rng) == d);
    }

    /// Delivering the one command of the next slot.
    proof fn lemma_solo_delivered(self, id: CommandId, data: Seq<u8>, value: Seq<u8>)
        requires
            self.wf(),
            self.decided < u64::MAX,
            self.pool.entries.dom() == set![id],
            self.pool.entries[id].data == data,
            id.origin == self.config.me,
            id.boot == self.boot,
            self.dedup.of(self.origin()) == (OriginView {
                high_water: (id.seq - 1) as u64,
                above: Set::empty(),
            }),
            id.seq >= 1,
            self.retained.dom() == set![(self.decided + 1) as u64],
            self.retained[(self.decided + 1) as u64] == value,
            batch_of(value) == seq![(id, data)],
        ensures
            ({
                let t = self.delivered();
                let next = (self.decided + 1) as u64;
                &&& t.decided == next
                &&& t.pool.entries == Map::<CommandId, EntryView>::empty()
                &&& t.dedup.of(self.origin()) == (OriginView {
                    high_water: id.seq,
                    above: Set::empty(),
                })
                &&& t.actions == self.actions.push(
                    ActionView::Deliver { slot: Slot(next), commands: seq![(id, data)] },
                )
            }),
    {
        let cs = seq![(id, data)];
        let d = self.dedup;
        let o = d.of(self.origin());
        assert(origin_of(id) == self.origin());
        assert(self.can_deliver());
        assert(cs.drop_last() =~= Seq::empty());
        assert(cs.last() == (id, data));
        assert(dedup_after(d, cs.drop_last()) == d);
        assert(accepted(d, cs.drop_last()) =~= Seq::empty());
        assert(d.admits(id));
        assert(accepted(d, cs) =~= cs);
        let added = OriginView { above: o.above.insert(id.seq), ..o };
        let step = OriginView { high_water: id.seq, above: added.above.remove(id.seq) };
        assert(step.above =~= Set::empty());
        assert(step.drained() == step);
        assert(added.drained() == step.drained());
        assert(dedup_after(d, cs) == d.marked(id));
        assert(d.marked(id).of(self.origin()) == step);
        assert(pool_without(self.pool, cs.drop_last()) == self.pool);
        let t = self.delivered_one();
        assert(t.pool == self.pool.removed(id));
        assert(t.pool.entries =~= Map::<CommandId, EntryView>::empty());
        assert(!t.can_deliver());
        assert(t.delivered() == t);
        assert(self.delivered() == t);
    }

    /// Freeing everything delivered.
    proof fn lemma_solo_gced(self)
        requires
            self.wf(),
            self.m.n == 1,
            forall|k: u64| #[trigger] self.slots.contains_key(k) ==> k <= self.decided,
        ensures
            self.gced().slots == Map::<u64, SlotView>::empty(),
            self.gced().gc_floor == self.decided,
    {
        let s = self.acknowledged();
        assert(s.peer_acked =~= seq![self.decided]);
        assert(least(s.peer_acked) == self.decided);
        self.lemma_gced_wf();
        let t = self.gced();
        let u = s.freed(self.decided);
        u.lemma_evicted_frame();
        assert(t.gc_floor == self.decided);
        assert forall|k: u64| !#[trigger] t.slots.contains_key(k) by {
            if t.slots.contains_key(k) {
                assert(k > self.decided);
                u.lemma_evicted_slots(k);
                assert(u.slots.contains_key(k));
                assert(self.slots.contains_key(k));
            }
        }
        assert(t.slots =~= Map::<u64, SlotView>::empty());
    }

    /// Settling the decision that a lone replica just made.
    proof fn lemma_solo_settled(
        self,
        now: u64,
        s: State,
        id: CommandId,
        data: Seq<u8>,
        k: u64,
        value: Seq<u8>,
    )
        requires
            self.wf(),
            s.at_rest(),
            s.next_seq < u64::MAX,
            s.decided < u64::MAX,
            self.m == s.m,
            self.config == s.config,
            self.boot == s.boot,
            self.next_seq == s.next_seq + 1,
            self.decided == s.decided,
            self.gc_floor == s.gc_floor,
            self.retained == s.retained,
            self.dedup == s.dedup,
            self.actions == s.actions,
            self.learn_in_flight is None,
            self.max_open == k,
            k == s.decided + 1,
            self.slots.dom() == set![k],
            !self.slots[k].is_decided(),
            self.pool.entries.dom() == set![id],
            self.pool.entries[id].data == data,
            self.pool.entries[id].proposed_in == Some(Slot(k)),
            id == s.next_id(),
            batch_of(value) == seq![(id, data)],
            value.len() <= u32::MAX,
        ensures
            ({
                let t = self.settled(now, k, value, true);
                &&& t.at_rest()
                &&& t.next_seq == self.next_seq
                &&& t.decided == k
                &&& t.actions == s.actions.push(
                    ActionView::Deliver { slot: Slot(k), commands: seq![(id, data)] },
                )
            }),
    {
        s.lemma_keeps_nothing();
        assert(!self.drops(k, value, true));
        assert(self.slots.contains_key(k));
        assert(self.observed(now, k) == self);
        let s1 = self.installed(k, value);
        self.lemma_installed_wf(k, value);
        let f = |idx: int| PayloadView::Decide { slot: Slot(k), value };
        s1.lemma_send_upto_frame(s1.m.n as nat, f);
        s1.lemma_send_upto_pending(s1.m.n as nat, f);
        let s2 = s1.send_all(f);
        assert(s2 == s1);
        let cs = seq![(id, data)];
        assert(cs[0] == (id, data));
        assert(crate::pool::has_id(cs, id));
        assert(s2.pool.released(Slot(k), cs).entries =~= s2.pool.entries);
        let s3 = s2.released(k, batch_of(value)).refreshed(now);
        s2.lemma_released_wf(k, batch_of(value));
        assert(!s3.pool.has_unassigned());
        assert(s3.wf());
        assert(s3.retained.dom() =~= set![k]);
        s3.lemma_solo_delivered(id, data, value);
        s3.lemma_delivered_wf();
        s3.lemma_delivered_frame();
        let s4 = s3.delivered();
        let s5 = s4.acknowledged().refreshed(now);
        assert(s5.wf());
        assert(!s5.pool.has_unassigned());
        assert forall|x: u64| #[trigger] s5.slots.contains_key(x) implies x <= s5.decided by {}
        s5.lemma_solo_gced();
        s5.lemma_gced_wf();
        let t = self.settled(now, k, value, true);
        assert(t == s5.gced());
    }

    /// A lone replica at rest delivers what is submitted to it at once.
    proof fn lemma_solo_submitted(self, now: u64, data: Seq<u8>)
        requires
            self.at_rest(),
            self.submit_error(data.len()) is None,
            self.next_seq < u64::MAX,
            self.decided < u64::MAX,
        ensures
            ({
                let t = self.submitted(now, data);
                &&& t.at_rest()
                &&& t.decided == self.decided + 1
                &&& t.actions == self.actions.push(
                    ActionView::Deliver {
                        slot: Slot((self.decided + 1) as u64),
                        commands: seq![(self.next_id(), data)],
                    },
                )
            }),
    {
        let id = self.next_id();
        let s = self.enqueued(now, data);
        self.lemma_enqueued_wf(now, data);
        assert(s.pool.entries.dom() =~= set![id]);
        assert(s.loaded(self, id, data));
        s.lemma_loaded_batch(self, id, data);
        let cs = seq![(id, data)];
        let value = batch_bytes(cs);
        s.batches_fit_the_wire_format();
        batch_decoding_inverts_encoding(value, cs);
        assert(batch_of(value) == cs);
        assert(self.m.leads());
        let k = (self.decided + 1) as u64;
        assert(s.running() =~= Set::empty());
        assert(s.slots.dom() =~= Set::<u64>::empty());
        assert(s.last_known() == 0) by {
            crate::sorted::lemma_ascending(s.slots.dom());
            let keys = ascending(s.slots.dom());
            if keys.len() > 0 {
                assert(keys.to_set().contains(keys[0]));
            }
        }
        assert(s.highest() == self.decided);
        assert(s.can_open());
        let o = s.opening();
        s.lemma_claimed_wf(k, cs);
        assert(o.wf());
        assert(cs[0] == (id, data));
        assert(crate::pool::has_id(cs, id));
        assert(o.pool.entries.dom() =~= set![id]);
        // activation and drive
        let a = o.observed(now, k);
        o.lemma_observed_wf(now, k);
        let b = a.started(now, k, value);
        a.lemma_started_wf(now, k, value);
        b.lemma_solo_drive(now, k, value);
        let c = b.drive_local(now, k);
        b.lemma_drive_local_wf(now, k);
        assert(c.slots.dom() =~= set![k]);
        c.lemma_solo_settled(now, self, id, data, k, value);
        let d = c.settled(now, k, value, true);
        c.lemma_settled_frame(now, k, value, true);
        self.lemma_keeps_nothing();
        assert(c.settles(k, value, true));
        d.lemma_nothing_to_open(now);
        assert(d.opened(now) == d);
        assert(c.decide(now, k, value, true) == d);
        assert(b.drive(now, k) == d);
        assert(o.activated(now, k, value) == d);
        assert(d.max_open > s.max_open);
        assert(s.open_more(now) == d);
        assert(!d.pool.has_unassigned());
        assert(d.refreshed(now) == d);
    }

    /// A tick changes nothing for a lone replica at rest.
    pub proof fn lemma_solo_ticked(self, now: u64)
        requires
            self.at_rest(),
            self.decided < u64::MAX,
        ensures
            self.ticked(now) == self,
    {
        let keys = ascending(self.slots.dom());
        assert(self.slots.dom() =~= Set::<u64>::empty());
        crate::sorted::lemma_ascending(self.slots.dom());
        assert(keys =~= Seq::empty()) by {
            if keys.len() > 0 {
                assert(keys.to_set().contains(keys[0]));
            }
        }
        reveal(Seq::filter);
        assert(!self.known_from((self.decided + 1) as u64));
        assert(self.frontier_observed(now) == self);
        assert(self.hedge_due(now) =~= Seq::empty());
        assert(!self.pool.has_unassigned());
        assert(self.hedged(now) =~= self);
        self.lemma_nothing_to_open(now);
        assert(self.opened(now) =~= self);
        assert(self.stale(now) =~= Seq::empty());
        assert(self.retransmitted(now) == self);
        assert(self.ahead() =~= Seq::empty()) by {
            let all = Seq::new(self.m.n as nat, |i: int| i);
            let pred = |i: int| i != self.m.me_idx && self.peer_acked[i] > self.decided;
            if self.ahead().len() > 0 {
                let x = self.ahead()[0];
                assert(all.filter(pred).contains(x));
                crate::consensus::lemma_filter_members(all, pred, x);
                let y = choose|y: int| 0 <= y < all.len() && all[y] == x;
                assert(all[y] == y);
            }
        }
        assert(self.learn_ticked(now) == self);
    }
}

impl Lifetime {
    /// A lone replica is always at rest.
    pub proof fn lemma_at_rest(config: ConfigView, m: Member, inputs: Seq<Input>)
        requires
            belongs(config, m),
            config.replicas.len() == 1,
            Lifetime::begun(config, m).run(inputs).state.decided < u64::MAX,
        ensures
            Lifetime::begun(config, m).run(inputs).state.at_rest(),
        decreases inputs.len(),
    {
        let l = Lifetime::begun(config, m);
        if inputs.len() == 0 {
            assert(crate::pool::entry_costs(l.state.pool.entries) =~= Map::empty());
            assert(lengths(l.state.retained) =~= Map::empty());
        } else {
            let init = inputs.drop_last();
            Lifetime::lemma_last(config, m, inputs);
            Lifetime::lemma_at_rest(config, m, init);
            let before = l.run(init);
            let s = before.state;
            Lifetime::lemma_same_place(config, m, init);
            match inputs.last() {
                Input::Submit { now, data } => {
                    if s.submit_error(data.len()) is None && s.next_seq < u64::MAX {
                        s.lemma_solo_submitted(now, data);
                    }
                },
                Input::Receive { now, message } => {
                    assert(!s.heeds(message.from)) by {
                        if s.config.replicas.contains(message.from) {
                            assert(s.config.replicas[0] == message.from);
                        }
                    }
                },
                Input::Tick { now } => {
                    s.lemma_solo_ticked(now);
                },
                Input::Poll => {},
            }
        }
    }

    /// In a group of one, everything decides inside `submit`: the delivery of
    /// an accepted command is ready when the submission returns. (The log of
    /// a replica ends with the last slot number.)
    pub proof fn lone_replicas_deliver_at_once(
        config: ConfigView,
        m: Member,
        inputs: Seq<Input>,
        now: u64,
        data: Seq<u8>,
    )
        requires
            belongs(config, m),
            config.replicas.len() == 1,
            Lifetime::begun(config, m).run(inputs).state.decided < u64::MAX,
            Lifetime::begun(config, m).run(inputs).state.submit_error(data.len()) is None,
            Lifetime::begun(config, m).run(inputs).state.next_seq < u64::MAX,
        ensures
            ({
                let s = Lifetime::begun(config, m).run(inputs).state;
                let t = s.submitted(now, data);
                &&& t.decided == s.decided + 1
                &&& t.actions == s.actions.push(
                    ActionView::Deliver {
                        slot: Slot((s.decided + 1) as u64),
                        commands: seq![(s.next_id(), data)],
                    },
                )
            }),
    {
        Lifetime::lemma_at_rest(config, m, inputs);
        Lifetime::begun(config, m).run(inputs).state.lemma_solo_submitted(now, data);
    }
}

} // verus!
