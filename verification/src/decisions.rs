//! What is decided stays decided, and is delivered.

use vstd::prelude::*;

use crate::config::ConfigView;
use crate::delivery::{
    deliveries, deliveries_from, dedup_of, dedup_through, lemma_deliveries, lemma_deliveries_join,
    pending,
};
use crate::lifetime::{belongs, Input, Lifetime};
use crate::pool::has_id;
use crate::proposer::Member;
use crate::state::{accepted, batch_of, State};
use crate::types::{CommandId, ProposalView, Slot};
use crate::wire::PayloadView;

verus! {

impl State {
    /// Each slot has one value forever: a decision for a slot that is decided
    /// already, whether delivered, freed or decided ahead of the watermark,
    /// changes nothing, whatever value it brings.
    pub proof fn second_decisions_change_nothing(
        self,
        now: u64,
        slot: u64,
        value: Seq<u8>,
        is_decider: bool,
    )
        requires
            self.wf(),
            slot <= self.decided || self.retained.contains_key(slot),
        ensures
            self.decide(now, slot, value, is_decider) == self,
    {
        if slot > self.gc_floor {
            assert(self.retained.contains_key(slot));
            assert(self.slots.contains_key(slot));
            let s = self.settled(now, slot, value, is_decider);
            assert(s.slots =~= self.slots);
            assert(s =~= self);
        }
    }

    /// A proposer that asks for a decided slot is answered with its value.
    pub proof fn decided_slots_answer_with_their_value(
        self,
        now: u64,
        from_idx: int,
        slot: u64,
        step: u32,
        p: ProposalView,
    )
        requires
            self.wf(),
            self.retained.contains_key(slot),
            step >= 4,
            slot <= self.decided + self.ahead_window(),
        ensures
            self.on_record(now, from_idx, slot, step, p) == self.send(
                from_idx,
                PayloadView::Decide { slot: Slot(slot), value: self.retained[slot] },
            ),
    {
        assert(self.slots.contains_key(slot));
        assert(self.slots.insert(slot, self.slots[slot]) =~= self.slots);
    }

    /// The values of the slots from the watermark of this replica to `last`.
    pub open spec fn values_to(self, last: u64) -> Seq<Seq<u8>> {
        Seq::new((last - self.decided) as nat, |j: int| self.retained[(self.decided + 1 + j) as u64])
    }

    proof fn lemma_delivered_values(self)
        requires
            self.wf(),
        ensures
            ({
                let t = self.delivered();
                let vals = self.values_to(t.decided);
                &&& t.decided >= self.decided
                &&& forall|k: u64|
                    self.decided < k <= t.decided ==> #[trigger] self.retained.contains_key(k)
                &&& pending(t.actions) == pending(self.actions) + deliveries_from(
                    self.decided as int,
                    self.dedup,
                    vals,
                )
                &&& t.dedup == dedup_through(self.dedup, vals)
            }),
        decreases u64::MAX - self.decided,
    {
        let t = self.delivered();
        let vals = self.values_to(t.decided);
        self.lemma_delivered_frame();
        if self.can_deliver() {
            let s = self.delivered_one();
            self.lemma_delivered_one_wf();
            self.lemma_delivered_one_follows();
            s.lemma_delivered_values();
            s.lemma_delivered_frame();
            let one = seq![self.retained[(self.decided + 1) as u64]];
            let rest = s.values_to(t.decided);
            lemma_deliveries_join(self.decided as int, self.dedup, one, rest);
            assert(vals =~= one + rest);
            assert(pending(t.actions) =~= pending(self.actions) + deliveries_from(
                self.decided as int,
                self.dedup,
                vals,
            ));
        } else {
            assert(vals =~= Seq::empty());
            assert(pending(t.actions) =~= pending(self.actions) + deliveries_from(
                self.decided as int,
                self.dedup,
                vals,
            ));
        }
    }

    /// Delivery goes as far as the decided slots are contiguous, and no
    /// further. It hands out, for each slot on the way, the commands of its
    /// value that were not delivered before, and what it hands out leaves the
    /// pool.
    pub proof fn delivery_goes_as_far_as_decisions_do(self, now: u64)
        requires
            self.wf(),
        ensures
            ({
                let t = self.try_delivered(now);
                let vals = self.values_to(t.decided);
                let new = deliveries_from(self.decided as int, self.dedup, vals);
                &&& t.decided >= self.decided
                &&& forall|k: u64|
                    self.decided < k <= t.decided ==> #[trigger] self.retained.contains_key(k)
                &&& t.decided < u64::MAX ==> !self.retained.contains_key((t.decided + 1) as u64)
                &&& pending(t.actions) == pending(self.actions) + new
                &&& t.dedup == dedup_through(self.dedup, vals)
                &&& forall|j: int, id: CommandId|
                    0 <= j < new.len() && #[trigger] has_id(new[j].1, id)
                        ==> !t.pool.entries.contains_key(id)
            }),
    {
        let d = self.delivered();
        self.lemma_delivered_values();
        self.lemma_delivered_frame();
        self.lemma_delivered_wf();
        let u = d.acknowledged().refreshed(now);
        assert(u.wf());
        u.lemma_gced_wf();
        self.lemma_delivered_gone();
    }

    /// What is delivered leaves the pool.
    proof fn lemma_delivered_gone(self)
        requires
            self.wf(),
        ensures
            ({
                let t = self.delivered();
                let new = deliveries_from(
                    self.decided as int,
                    self.dedup,
                    self.values_to(t.decided),
                );
                &&& forall|j: int, id: CommandId|
                    0 <= j < new.len() && #[trigger] has_id(new[j].1, id)
                        ==> !t.pool.entries.contains_key(id)
                &&& forall|id: CommandId| #[trigger]
                    t.pool.entries.contains_key(id) ==> self.pool.entries.contains_key(id)
            }),
        decreases u64::MAX - self.decided,
    {
        let t = self.delivered();
        let vals = self.values_to(t.decided);
        let new = deliveries_from(self.decided as int, self.dedup, vals);
        self.lemma_delivered_frame();
        if self.can_deliver() {
            let s = self.delivered_one();
            let v = self.retained[(self.decided + 1) as u64];
            self.lemma_delivered_one_wf();
            s.lemma_delivered_gone();
            s.lemma_delivered_frame();
            let one = seq![v];
            let rest = s.values_to(t.decided);
            let later = deliveries_from(s.decided as int, s.dedup, rest);
            let cs = accepted(self.dedup, batch_of(v));
            crate::invariants::lemma_pool_without(self.pool, cs);
            lemma_deliveries_join(self.decided as int, self.dedup, one, rest);
            assert(vals =~= one + rest);
            assert(one.drop_last() =~= Seq::empty());
            assert(dedup_through(self.dedup, one.drop_last()) == self.dedup);
            assert(dedup_through(self.dedup, one) == s.dedup);
            assert(deliveries_from(self.decided as int, self.dedup, one.drop_last())
                =~= Seq::empty());
            let first = deliveries_from(self.decided as int, self.dedup, one);
            assert(first =~= seq![(Slot((self.decided + 1) as u64), cs)]);
            assert(new == first + later);
            assert forall|j: int, id: CommandId|
                0 <= j < new.len() && #[trigger] has_id(new[j].1, id) implies
                !t.pool.entries.contains_key(id) by {
                if j == 0 {
                    assert(!s.pool.entries.contains_key(id));
                } else {
                    assert(new[j] == later[j - 1]);
                    assert(has_id(later[j - 1].1, id));
                }
            }
            assert forall|id: CommandId| #[trigger] t.pool.entries.contains_key(id) implies
                self.pool.entries.contains_key(id) by {
                assert(s.pool.entries.contains_key(id));
            }
        } else {
            assert(vals =~= Seq::empty());
            assert(new =~= Seq::empty());
        }
    }
}

impl Lifetime {
    /// A decided value never changes: as long as a replica has not freed a
    /// slot, it holds the value it was decided with, whatever it is given.
    pub proof fn decisions_are_final(
        config: ConfigView,
        m: Member,
        before: Seq<Input>,
        after: Seq<Input>,
        slot: u64,
    )
        requires
            belongs(config, m),
            Lifetime::begun(config, m).run(before).state.retained.contains_key(slot),
        ensures
            ({
                let l = Lifetime::begun(config, m);
                let s = l.run(before).state;
                let t = l.run(before + after).state;
                slot <= t.gc_floor || (t.retained.contains_key(slot) && t.retained[slot]
                    == s.retained[slot])
            }),
        decreases after.len(),
    {
        if after.len() == 0 {
            assert(before + after =~= before);
        } else {
            let init = after.drop_last();
            Lifetime::decisions_are_final(config, m, before, init, slot);
            assert((before + after).drop_last() =~= before + init);
            Lifetime::lemma_last(config, m, before + after);
            reveal(State::remembers);
        }
    }

    /// Whatever it is given, a replica has delivered all that it can.
    proof fn lemma_caught_up(config: ConfigView, m: Member, inputs: Seq<Input>)
        requires
            belongs(config, m),
        ensures
            !Lifetime::begun(config, m).run(inputs).state.can_deliver(),
        decreases inputs.len(),
    {
        let t = Lifetime::begun(config, m).run(inputs).state;
        if m.n >= 2 {
            if inputs.len() > 0 {
                Lifetime::lemma_caught_up(config, m, inputs.drop_last());
                if inputs.last() !is Poll {
                    Lifetime::lemma_rested(config, m, inputs.drop_last());
                    let _ = Lifetime::lemma_last_emits(config, m, inputs, 0);
                }
            }
        } else if t.decided < u64::MAX {
            Lifetime::lemma_at_rest(config, m, inputs);
            if t.can_deliver() {
                assert(t.slots.contains_key((t.decided + 1) as u64));
            }
        }
    }

    /// The log of a replica, whatever it is given: there is one value for each
    /// slot up to the watermark, the one retained as long as it is, and slot
    /// by slot the replica hands out the commands of that value that were not
    /// delivered before. The slot after the watermark is not decided.
    pub proof fn deliveries_are_decided_batches(
        config: ConfigView,
        m: Member,
        inputs: Seq<Input>,
    ) -> (vals: Seq<Seq<u8>>)
        requires
            belongs(config, m),
        ensures
            ({
                let l = Lifetime::begun(config, m).run(inputs);
                let s = l.state;
                let all = l.log + pending(s.actions);
                &&& vals.len() == s.decided
                &&& all.len() == s.decided
                &&& forall|k: int|
                    0 <= k < all.len() ==> #[trigger] all[k] == (
                        Slot((k + 1) as u64),
                        accepted(dedup_of(vals.take(k)), batch_of(vals[k])),
                    )
                &&& forall|k: u64|
                    s.gc_floor < k <= s.decided ==> #[trigger] s.retained.contains_key(k)
                        && s.retained[k] == vals[k - 1]
                &&& s.decided < u64::MAX ==> !s.retained.contains_key((s.decided + 1) as u64)
                &&& s.dedup == dedup_of(vals)
            }),
    {
        let vals = Lifetime::lemma_run(config, m, inputs);
        let l = Lifetime::begun(config, m).run(inputs);
        let s = l.state;
        let all = l.log + pending(s.actions);
        lemma_deliveries(vals);
        Lifetime::lemma_caught_up(config, m, inputs);
        assert forall|k: int| 0 <= k < all.len() implies #[trigger] all[k] == (
            Slot((k + 1) as u64),
            accepted(dedup_of(vals.take(k)), batch_of(vals[k])),
        ) by {
            assert(deliveries(vals)[k].0 == Slot((k + 1) as u64));
        }
        assert forall|k: u64| s.gc_floor < k <= s.decided implies #[trigger] s.retained.contains_key(
            k,
        ) && s.retained[k] == vals[k - 1] by {
            assert(s.retained[k] == vals[k - 1]);
        }
        vals
    }
}

} // verus!
