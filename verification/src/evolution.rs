//! What holds of a single replica, whatever messages it receives.

use vstd::prelude::*;

use crate::delivery::{
    dedup_through, deliveries_from, lemma_accepted, lemma_accepted_delivered,
    lemma_delivered_accepted, lemma_delivered_stays_delivered, lemma_deliveries_join,
    lemma_pending_push, pending,
};
use crate::pool::has_id;
use crate::proposer::ProposerView;
use crate::slot::ProgressView;
use crate::state::{accepted, batch_of, least, State};
use crate::types::{batch_bytes, Command, CommandId, Slot};
use crate::wire::{MessageView, PayloadView};

verus! {

impl State {
    /// The leader has opened no slot further than the pipeline allows.
    pub open spec fn bounded(self) -> bool {
        self.max_open <= self.decided + self.config.pipeline
    }

    /// Commands that wait for a proposal are waited for.
    pub open spec fn heeded(self) -> bool {
        self.pool.has_unassigned() ==> self.pending_since is Some
    }

    /// The time since when commands wait is set exactly while some do.
    pub open spec fn coherent(self) -> bool {
        self.pool.has_unassigned() <==> self.pending_since is Some
    }

    /// Whether `t` is this replica after it delivered `more`.
    pub open spec fn delivers(self, t: State, more: Seq<Seq<u8>>) -> bool {
        &&& t.decided == self.decided + more.len()
        &&& t.dedup == dedup_through(self.dedup, more)
        &&& pending(t.actions) == pending(self.actions) + deliveries_from(
            self.decided as int,
            self.dedup,
            more,
        )
    }

    /// Nothing is to be sent.
    pub open spec fn silent(self) -> bool {
        forall|x: int| 0 <= x < self.actions.len() ==> (#[trigger] self.actions[x]) is Deliver
    }

    /// The command `id`, with `data`, waits in the pool or has been delivered.
    pub open spec fn holds(self, id: CommandId, data: Seq<u8>) -> bool {
        ||| self.pool.entries.contains_key(id) && self.pool.entries[id].data == data
        ||| self.dedup.is_delivered(id)
    }

    /// Whether `id` is one that this replica may yet give out.
    pub open spec fn may_issue(self, id: CommandId) -> bool {
        id.origin == self.config.me && id.boot == self.boot && id.seq > self.next_seq
    }

    /// Whether `t` still holds every command of this replica's pool (but one
    /// whose id was given out only since), and counts as delivered what this
    /// replica does.
    pub open spec fn keeps(self, t: State) -> bool {
        &&& forall|id: CommandId| #[trigger]
            self.pool.entries.contains_key(id) && (t.next_seq == self.next_seq || !self.may_issue(
                id,
            )) ==> t.holds(id, self.pool.entries[id].data)
        &&& forall|id: CommandId| #[trigger]
            self.dedup.is_delivered(id) ==> t.dedup.is_delivered(id)
    }

    /// Whether `t` has the values that this replica retains, but for those it
    /// has freed.
    #[verifier::opaque]
    pub open spec fn remembers(self, t: State) -> bool {
        forall|k: u64| #[trigger]
            self.retained.contains_key(k) ==> k <= t.gc_floor || (t.retained.contains_key(k)
                && t.retained[k] == self.retained[k])
    }

    /// Whether `more` are the values of the slots that `t` has delivered beyond
    /// this replica's watermark, as far as `t` retains them.
    #[verifier::opaque]
    pub open spec fn backed(self, t: State, more: Seq<Seq<u8>>) -> bool {
        forall|k: u64|
            self.decided < k <= self.decided + more.len() ==> #[trigger] self.backed_at(t, more, k)
    }

    pub open spec fn backed_at(self, t: State, more: Seq<Seq<u8>>, k: u64) -> bool {
        k > t.gc_floor ==> t.retained.contains_key(k) && t.retained[k] == more[k - self.decided - 1]
    }

    /// No command that has been delivered waits in the pool. (Sequence number
    /// zero is never issued.)
    #[verifier::opaque]
    pub open spec fn tidy(self) -> bool {
        forall|id: CommandId| #[trigger]
            self.pool.entries.contains_key(id) && id.seq != 0 ==> !self.dedup.is_delivered(id)
    }

    /// Whether `t` is this replica some time later.
    pub open spec fn follows(self, t: State, more: Seq<Seq<u8>>) -> bool {
        &&& t.m == self.m
        &&& t.config == self.config
        &&& t.boot == self.boot
        &&& t.gc_floor >= self.gc_floor
        &&& t.next_seq >= self.next_seq
        &&& self.keeps(t)
        &&& self.remembers(t)
        &&& self.backed(t, more)
        &&& t.next_seq == self.next_seq && self.tidy() ==> t.tidy()
        &&& self.bounded() ==> t.bounded()
        &&& self.heeded() ==> t.heeded()
        &&& self.m.n == 1 && self.silent() ==> t.silent()
        &&& self.delivers(t, more)
    }

    /// Whether the undelivered slots of `t` are those of this replica, with
    /// proposers started or done, steps sent at `now`, and slots added that
    /// have a proposer.
    pub open spec fn slots_follow(self, t: State, now: u64) -> bool {
        forall|k: u64|
            k > t.decided ==> {
                &&& self.slots.contains_key(k) ==> #[trigger] t.slots.contains_key(k)
                &&& t.slots.contains_key(k) ==> self.slot_follows(t, k, now)
            }
    }

    pub open spec fn slot_follows(self, t: State, k: u64, now: u64) -> bool {
        match t.slots[k].proposer {
            ProposerView::Idle => self.slots.contains_key(k) && self.slots[k].proposer is Idle
                && self.slots[k].first_observed == t.slots[k].first_observed
                && self.slots[k].last_progress == t.slots[k].last_progress,
            ProposerView::Running(run) => run.sent_at == now || (self.slots.contains_key(k) && (
            self.slots[k].proposer matches ProposerView::Running(r) && r.sent_at == run.sent_at)),
            ProposerView::Done => true,
        }
    }

    pub proof fn lemma_slots_follow_trans(self, t: State, u: State, now: u64)
        requires
            self.slots_follow(t, now),
            t.slots_follow(u, now),
            t.decided <= u.decided,
        ensures
            self.slots_follow(u, now),
    {
        assert forall|k: u64| k > u.decided implies {
            &&& self.slots.contains_key(k) ==> #[trigger] u.slots.contains_key(k)
            &&& u.slots.contains_key(k) ==> self.slot_follows(u, k, now)
        } by {
            if self.slots.contains_key(k) {
                assert(t.slots.contains_key(k));
            }
            if u.slots.contains_key(k) {
                assert(t.slot_follows(u, k, now));
                if t.slots.contains_key(k) {
                    assert(self.slot_follows(t, k, now));
                }
            }
        }
    }

    pub proof fn lemma_keeps_trans(self, t: State, u: State)
        requires
            self.keeps(t),
            t.keeps(u),
            t.config == self.config,
            t.boot == self.boot,
            t.next_seq >= self.next_seq,
            u.next_seq >= t.next_seq,
        ensures
            self.keeps(u),
    {
        assert forall|id: CommandId| #[trigger]
            self.pool.entries.contains_key(id) && (u.next_seq == self.next_seq || !self.may_issue(
                id,
            )) implies u.holds(id, self.pool.entries[id].data) by {
            assert(t.holds(id, self.pool.entries[id].data));
            if t.dedup.is_delivered(id) {
                assert(u.dedup.is_delivered(id));
            } else {
                assert(t.pool.entries.contains_key(id));
            }
        }
        assert forall|id: CommandId| #[trigger] self.dedup.is_delivered(id) implies
            u.dedup.is_delivered(id) by {
            assert(t.dedup.is_delivered(id));
        }
    }

    pub proof fn lemma_remembers_trans(self, t: State, u: State)
        requires
            self.remembers(t),
            t.remembers(u),
            t.gc_floor <= u.gc_floor,
        ensures
            self.remembers(u),
    {
        reveal(State::remembers);
        assert forall|k: u64| #[trigger] self.retained.contains_key(k) implies k <= u.gc_floor || (
        u.retained.contains_key(k) && u.retained[k] == self.retained[k]) by {
            if k > t.gc_floor {
                assert(t.retained.contains_key(k));
            }
        }
    }

    pub proof fn lemma_backed_trans(self, t: State, u: State, a: Seq<Seq<u8>>, b: Seq<Seq<u8>>)
        requires
            self.backed(t, a),
            t.backed(u, b),
            t.remembers(u),
            t.decided == self.decided + a.len(),
            t.gc_floor <= u.gc_floor,
        ensures
            self.backed(u, a + b),
    {
        reveal(State::backed);
        reveal(State::remembers);
        assert forall|k: u64|
            self.decided < k <= self.decided + (a + b).len() implies #[trigger] self.backed_at(
            u,
            a + b,
            k,
        ) by {
            if k <= t.decided {
                assert(self.backed_at(t, a, k));
            } else {
                assert(t.backed_at(u, b, k));
            }
        }
    }

    pub proof fn lemma_follows_trans(self, t: State, u: State, a: Seq<Seq<u8>>, b: Seq<Seq<u8>>)
        requires
            self.follows(t, a),
            t.follows(u, b),
        ensures
            self.follows(u, a + b),
    {
        self.lemma_keeps_trans(t, u);
        self.lemma_remembers_trans(t, u);
        self.lemma_backed_trans(t, u, a, b);
        lemma_deliveries_join(self.decided as int, self.dedup, a, b);
        assert(pending(u.actions) =~= pending(self.actions) + deliveries_from(
            self.decided as int,
            self.dedup,
            a + b,
        ));
    }

    /// Nothing that matters to delivery has changed.
    pub proof fn lemma_still(self, t: State)
        requires
            t.m == self.m,
            t.config == self.config,
            t.boot == self.boot,
            t.gc_floor >= self.gc_floor,
            t.next_seq == self.next_seq,
            t.pool == self.pool || self.keeps(t) && (self.tidy() ==> t.tidy()),
            t.retained == self.retained || self.remembers(t),
            t.max_open == self.max_open,
            t.decided == self.decided,
            t.dedup == self.dedup,
            pending(t.actions) == pending(self.actions),
            self.heeded() ==> t.heeded(),
            self.m.n == 1 && self.silent() ==> t.silent(),
        ensures
            self.follows(t, Seq::empty()),
    {
        reveal(State::remembers);
        reveal(State::tidy);
        reveal(State::backed);
        assert(pending(t.actions) =~= pending(self.actions) + deliveries_from(
            self.decided as int,
            self.dedup,
            Seq::empty(),
        ));
    }

    pub proof fn lemma_send_pending(self, idx: int, payload: PayloadView)
        ensures
            pending(self.send(idx, payload).actions) == pending(self.actions),
    {
        lemma_pending_push(self.actions, self.send(idx, payload).actions.last());
    }

    pub proof fn lemma_send_upto_pending(self, k: nat, payloads: spec_fn(int) -> PayloadView)
        requires
            self.m.wf(),
            k <= self.m.n,
        ensures
            pending(self.send_upto(k, payloads).actions) == pending(self.actions),
            self.m.n == 1 ==> self.send_upto(k, payloads).actions == self.actions,
        decreases k,
    {
        if k > 0 {
            self.lemma_send_upto_pending((k - 1) as nat, payloads);
            self.lemma_send_upto_frame((k - 1) as nat, payloads);
            if k - 1 != self.m.me_idx {
                self.send_upto((k - 1) as nat, payloads).lemma_send_pending(k - 1, payloads(k - 1));
            }
        }
    }

    pub proof fn lemma_claimed_heeded(self, slot: u64, cs: Seq<Command>)
        ensures
            self.keeps(self.claimed(slot, cs)),
            self.tidy() ==> self.claimed(slot, cs).tidy(),
            self.heeded() ==> self.claimed(slot, cs).heeded(),
            !self.pool.has_unassigned() ==> !self.claimed(slot, cs).pool.has_unassigned(),
    {
        let t = self.claimed(slot, cs);
        assert(self.tidy() ==> t.tidy()) by {
            reveal(State::tidy);
            assert forall|id: CommandId| #[trigger] t.pool.entries.contains_key(id) implies
                self.pool.entries.contains_key(id) by {}
        }
        assert forall|id: CommandId| #[trigger] self.pool.entries.contains_key(id) implies t.holds(
            id,
            self.pool.entries[id].data,
        ) by {
            assert(t.pool.entries.contains_key(id));
        }
        if t.pool.has_unassigned() {
            let id = choose|id: CommandId| #[trigger]
                t.pool.entries.contains_key(id) && t.pool.entries[id].proposed_in is None;
            assert(self.pool.entries.contains_key(id));
        }
    }

    pub proof fn lemma_delivered_one_follows(self)
        requires
            self.wf(),
            self.can_deliver(),
        ensures
            self.follows(
                self.delivered_one(),
                seq![self.retained[(self.decided + 1) as u64]],
            ),
    {
        let v = self.retained[(self.decided + 1) as u64];
        let t = self.delivered_one();
        assert(seq![v].drop_last() =~= Seq::empty());
        assert(seq![v].last() == v);
        assert(dedup_through(self.dedup, seq![v].drop_last()) == self.dedup);
        lemma_pending_push(self.actions, t.actions.last());
        assert(deliveries_from(self.decided as int, self.dedup, seq![v].drop_last())
            =~= Seq::empty());
        assert(pending(t.actions) =~= pending(self.actions) + deliveries_from(
            self.decided as int,
            self.dedup,
            seq![v],
        ));
        let cs = batch_of(v);
        crate::invariants::lemma_pool_without(self.pool, accepted(self.dedup, cs));
        lemma_accepted(self.dedup, cs);
        assert forall|id: CommandId| #[trigger] self.dedup.is_delivered(id) implies
            t.dedup.is_delivered(id) by {
            lemma_delivered_stays_delivered(self.dedup, cs, id);
        }
        assert forall|id: CommandId| #[trigger] self.pool.entries.contains_key(id) implies t.holds(
            id,
            self.pool.entries[id].data,
        ) by {
            if has_id(accepted(self.dedup, cs), id) {
                lemma_accepted_delivered(self.dedup, cs, id);
            }
        }
        assert(self.remembers(t)) by {
            reveal(State::remembers);
        }
        assert(self.backed(t, seq![v])) by {
            reveal(State::backed);
        }
        assert(self.tidy() ==> t.tidy()) by {
            reveal(State::tidy);
            assert forall|id: CommandId| #[trigger]
                t.pool.entries.contains_key(id) && id.seq != 0 && self.tidy() implies
                !t.dedup.is_delivered(id) by {
                assert(self.pool.entries.contains_key(id));
                if t.dedup.is_delivered(id) {
                    lemma_delivered_accepted(self.dedup, cs, id);
                }
            }
        }
        if t.pool.has_unassigned() {
            let id = choose|id: CommandId| #[trigger]
                t.pool.entries.contains_key(id) && t.pool.entries[id].proposed_in is None;
            assert(self.pool.entries.contains_key(id));
            assert(self.pool.has_unassigned());
        }
    }

    pub proof fn lemma_delivered_follows(self) -> (more: Seq<Seq<u8>>)
        requires
            self.wf(),
        ensures
            self.follows(self.delivered(), more),
        decreases u64::MAX - self.decided,
    {
        if self.can_deliver() {
            self.lemma_delivered_one_follows();
            self.lemma_delivered_one_wf();
            let t = self.delivered_one();
            let rest = t.lemma_delivered_follows();
            let one = seq![self.retained[(self.decided + 1) as u64]];
            self.lemma_follows_trans(t, t.delivered(), one, rest);
            one + rest
        } else {
            self.lemma_still(self);
            Seq::empty()
        }
    }

    pub proof fn lemma_evicted_slots(self, k: u64)
        requires
            k > self.decided,
            self.gc_floor <= self.decided,
        ensures
            self.evicted().slots.contains_key(k) == self.slots.contains_key(k),
            self.slots.contains_key(k) ==> self.evicted().slots[k] == self.slots[k],
        decreases self.decided - self.gc_floor,
    {
        if self.kept() > self.config.max_retained_bytes && self.gc_floor < self.decided {
            self.freed((self.gc_floor + 1) as u64).lemma_evicted_slots(k);
        }
    }

    /// Eviction takes away a prefix of the retained values.
    pub proof fn lemma_evicted_retained(self, k: u64)
        requires
            k > self.gc_floor,
        ensures
            self.evicted().retained.contains_key(k) <==> self.retained.contains_key(k) && k
                > self.evicted().gc_floor,
            self.evicted().retained.contains_key(k) ==> self.evicted().retained[k]
                == self.retained[k],
        decreases self.decided - self.gc_floor,
    {
        if self.kept() > self.config.max_retained_bytes && self.gc_floor < self.decided {
            let s = self.freed((self.gc_floor + 1) as u64);
            s.lemma_evicted_frame();
            if k > s.gc_floor {
                s.lemma_evicted_retained(k);
            } else {
                s.lemma_evicted_gone(k);
            }
        }
    }

    proof fn lemma_evicted_gone(self, k: u64)
        requires
            !self.retained.contains_key(k),
        ensures
            !self.evicted().retained.contains_key(k),
        decreases self.decided - self.gc_floor,
    {
        if self.kept() > self.config.max_retained_bytes && self.gc_floor < self.decided {
            self.freed((self.gc_floor + 1) as u64).lemma_evicted_gone(k);
        }
    }

    /// Garbage collection takes away a prefix of the retained values.
    pub proof fn lemma_gced_retained(self, k: u64)
        requires
            self.wf(),
        ensures
            self.gced().retained.contains_key(k) <==> self.retained.contains_key(k) && k
                > self.gced().gc_floor,
            self.gced().retained.contains_key(k) ==> self.gced().retained[k] == self.retained[k],
    {
        let s = self.acknowledged();
        let u = s.freed(least(s.peer_acked));
        u.lemma_evicted_frame();
        if self.retained.contains_key(k) {
            assert(self.slots.contains_key(k));
        }
        if k > u.gc_floor {
            u.lemma_evicted_retained(k);
        } else {
            u.lemma_evicted_gone(k);
        }
    }

    pub proof fn lemma_gced_follows(self, now: u64)
        requires
            self.wf(),
        ensures
            self.follows(self.gced(), Seq::empty()),
            self.slots_follow(self.gced(), now),
            self.coherent() ==> self.gced().coherent(),
    {
        let t = self.gced();
        self.lemma_gced_wf();
        assert(self.remembers(t)) by {
            reveal(State::remembers);
            assert forall|k: u64| #[trigger] self.retained.contains_key(k) implies k <= t.gc_floor
                || (t.retained.contains_key(k) && t.retained[k] == self.retained[k]) by {
                self.lemma_gced_retained(k);
            }
        }
        self.lemma_still(t);
        let s = self.acknowledged();
        crate::invariants::lemma_least(s.peer_acked);
        assert(s.peer_acked[s.m.me_idx as int] == s.decided);
        let u = s.freed(least(s.peer_acked));
        assert forall|k: u64| k > t.decided implies {
            &&& self.slots.contains_key(k) ==> #[trigger] t.slots.contains_key(k)
            &&& t.slots.contains_key(k) ==> self.slot_follows(t, k, now)
        } by {
            u.lemma_evicted_slots(k);
            assert(u.slots.contains_key(k) == self.slots.contains_key(k));
            if t.slots.contains_key(k) {
                assert(t.slots[k] == self.slots[k]);
            }
        }
    }

    pub proof fn lemma_settled_follows(
        self,
        now: u64,
        slot: u64,
        value: Seq<u8>,
        is_decider: bool,
    ) -> (more: Seq<Seq<u8>>)
        requires
            self.wf(),
        ensures
            self.follows(self.settled(now, slot, value, is_decider), more),
            self.slots_follow(self.settled(now, slot, value, is_decider), now),
            self.coherent() ==> self.settled(now, slot, value, is_decider).coherent(),
    {
        let t = self.settled(now, slot, value, is_decider);
        if self.drops(slot, value, is_decider) {
            self.lemma_still(t);
            Seq::empty()
        } else {
            self.lemma_observed_wf(now, slot);
            let s0 = self.observed(now, slot);
            if s0.slots[slot].is_decided() {
                self.lemma_still(t);
                Seq::empty()
            } else {
                let s1 = s0.installed(slot, value);
                s0.lemma_installed_wf(slot, value);
                let f = |idx: int| PayloadView::Decide { slot: Slot(slot), value };
                s1.lemma_send_all_wf(f);
                s1.lemma_send_upto_frame(s1.m.n as nat, f);
                s1.lemma_send_upto_pending(s1.m.n as nat, f);
                let s2 = if is_decider {
                    s1.send_all(f)
                } else {
                    s1
                };
                s2.lemma_released_wf(slot, batch_of(value));
                let s3 = s2.released(slot, batch_of(value)).refreshed(now);
                assert(self.keeps(s3)) by {
                    assert forall|id: CommandId| #[trigger]
                        self.pool.entries.contains_key(id) implies s3.holds(
                        id,
                        self.pool.entries[id].data,
                    ) by {
                        assert(s3.pool.entries.contains_key(id));
                    }
                }
                assert(self.remembers(s3)) by {
                    reveal(State::remembers);
                    assert(!self.retained.contains_key(slot)) by {
                        if self.retained.contains_key(slot) {
                            assert(self.slots.contains_key(slot));
                        }
                    }
                }
                assert(self.tidy() ==> s3.tidy()) by {
                    reveal(State::tidy);
                    assert forall|id: CommandId| #[trigger]
                        s3.pool.entries.contains_key(id) implies self.pool.entries.contains_key(
                        id,
                    ) by {}
                }
                self.lemma_still(s3);
                assert(self.slots_follow(s3, now));
                let more = s3.lemma_delivered_follows();
                s3.lemma_delivered_wf();
                s3.lemma_delivered_frame();
                let s4 = s3.delivered();
                self.lemma_follows_trans(s3, s4, Seq::empty(), more);
                assert(Seq::<Seq<u8>>::empty() + more =~= more);
                assert(s3.slots_follow(s4, now));
                self.lemma_slots_follow_trans(s3, s4, now);
                let s5 = s4.acknowledged().refreshed(now);
                assert(s5.wf());
                s4.lemma_still(s5);
                self.lemma_follows_trans(s4, s5, more, Seq::empty());
                assert(more + Seq::<Seq<u8>>::empty() =~= more);
                assert(s4.slots_follow(s5, now));
                self.lemma_slots_follow_trans(s4, s5, now);
                s5.lemma_gced_follows(now);
                s5.lemma_gced_wf();
                self.lemma_follows_trans(s5, t, more, Seq::empty());
                self.lemma_slots_follow_trans(s5, t, now);
                more
            }
        }
    }

    pub proof fn lemma_decide_follows(
        self,
        now: u64,
        slot: u64,
        value: Seq<u8>,
        is_decider: bool,
    ) -> (more: Seq<Seq<u8>>)
        requires
            self.wf(),
        ensures
            self.follows(self.decide(now, slot, value, is_decider), more),
            self.slots_follow(self.decide(now, slot, value, is_decider), now),
            self.coherent() ==> self.decide(now, slot, value, is_decider).coherent(),
        decreases u64::MAX - self.max_open, 3int,
    {
        let a = self.lemma_settled_follows(now, slot, value, is_decider);
        self.lemma_settled_wf(now, slot, value, is_decider);
        self.lemma_settled_frame(now, slot, value, is_decider);
        if self.settles(slot, value, is_decider) {
            let t = self.settled(now, slot, value, is_decider);
            let b = t.lemma_opened_follows(now);
            self.lemma_follows_trans(t, t.opened(now), a, b);
            self.lemma_slots_follow_trans(t, t.opened(now), now);
            a + b
        } else {
            a
        }
    }

    pub proof fn lemma_open_more_follows(self, now: u64) -> (more: Seq<Seq<u8>>)
        requires
            self.wf(),
        ensures
            self.follows(self.open_more(now), more),
            self.slots_follow(self.open_more(now), now),
        decreases u64::MAX - self.max_open, 1int,
    {
        if self.can_open() {
            let k = (self.highest() + 1) as u64;
            let value = batch_bytes(self.next_batch());
            let s = self.opening();
            self.lemma_claimed_wf(k, self.next_batch());
            self.lemma_claimed_heeded(k, self.next_batch());
            assert(s.wf());
            assert(self.follows(s, Seq::empty())) by {
                reveal(State::remembers);
                reveal(State::backed);
                assert(self.claimed(k, self.next_batch()).tidy() ==> s.tidy()) by {
                    reveal(State::tidy);
                }
                assert(pending(s.actions) =~= pending(self.actions) + deliveries_from(
                    self.decided as int,
                    self.dedup,
                    Seq::empty(),
                ));
            }
            assert(self.slots_follow(s, now));
            let a = s.lemma_activated_follows(now, k, value);
            s.lemma_activated_wf(now, k, value);
            let t = s.activated(now, k, value);
            self.lemma_follows_trans(s, t, Seq::empty(), a);
            self.lemma_slots_follow_trans(s, t, now);
            let b = t.lemma_open_more_follows(now);
            let u = t.open_more(now);
            self.lemma_follows_trans(t, u, Seq::empty() + a, b);
            self.lemma_slots_follow_trans(t, u, now);
            Seq::empty() + a + b
        } else {
            self.lemma_still(self);
            Seq::empty()
        }
    }

    pub proof fn lemma_opened_follows(self, now: u64) -> (more: Seq<Seq<u8>>)
        requires
            self.wf(),
        ensures
            self.follows(self.opened(now), more),
            self.slots_follow(self.opened(now), now),
            self.coherent() ==> self.opened(now).coherent(),
        decreases u64::MAX - self.max_open, 2int,
    {
        if self.m.leads() {
            let more = self.lemma_open_more_follows(now);
            let t = self.open_more(now);
            let u = t.refreshed(now);
            t.lemma_still(u);
            self.lemma_follows_trans(t, u, more, Seq::empty());
            assert(more + Seq::<Seq<u8>>::empty() =~= more);
            assert(t.slots_follow(u, now));
            self.lemma_slots_follow_trans(t, u, now);
            more
        } else {
            self.lemma_still(self);
            Seq::empty()
        }
    }

    pub proof fn lemma_activated_follows(self, now: u64, slot: u64, value: Seq<u8>) -> (more: Seq<
        Seq<u8>,
    >)
        requires
            self.wf(),
            slot > self.gc_floor,
        ensures
            self.follows(self.activated(now, slot, value), more),
            self.slots_follow(self.activated(now, slot, value), now),
            self.coherent() ==> self.activated(now, slot, value).coherent(),
        decreases u64::MAX - self.max_open, 5int,
    {
        self.lemma_observed_wf(now, slot);
        let s = self.observed(now, slot);
        if s.slots[slot].proposer is Idle && !s.slots[slot].is_decided() {
            let t = s.started(now, slot, value);
            s.lemma_started_wf(now, slot, value);
            self.lemma_still(t);
            assert(self.slots_follow(t, now));
            let more = t.lemma_drive_follows(now, slot);
            let u = t.drive(now, slot);
            self.lemma_follows_trans(t, u, Seq::empty(), more);
            self.lemma_slots_follow_trans(t, u, now);
            Seq::empty() + more
        } else {
            self.lemma_still(s);
            Seq::empty()
        }
    }

    pub proof fn lemma_drive_follows(self, now: u64, slot: u64) -> (more: Seq<Seq<u8>>)
        requires
            self.wf(),
        ensures
            self.follows(self.drive(now, slot), more),
            self.slots_follow(self.drive(now, slot), now),
            self.coherent() ==> self.drive(now, slot).coherent(),
        decreases u64::MAX - self.max_open, 4int,
    {
        if self.slots.contains_key(slot) {
            let s = self.drive_local(now, slot);
            self.lemma_drive_local_wf(now, slot);
            self.lemma_still(s);
            let old_slot = self.slots[slot];
            old_slot.lemma_driven_wf(self.m, now, self.rng);
            if old_slot.is_running() {
                old_slot.lemma_driven_sent(self.m, now, self.rng);
            }
            assert(self.slots_follow(s, now));
            match old_slot.driven(self.m, now, self.rng).next {
                ProgressView::Wait => Seq::empty(),
                ProgressView::Send => {
                    let run = s.slots[slot].proposer->Running_0;
                    let f = |idx: int|
                        PayloadView::Record {
                            slot: Slot(slot),
                            step: run.step,
                            proposal: run.proposal_for(idx),
                        };
                    s.lemma_send_upto_frame(s.m.n as nat, f);
                    s.lemma_send_upto_pending(s.m.n as nat, f);
                    let t = s.send_records(slot);
                    s.lemma_still(t);
                    self.lemma_follows_trans(s, t, Seq::empty(), Seq::empty());
                    assert(s.slots_follow(t, now));
                    self.lemma_slots_follow_trans(s, t, now);
                    Seq::empty() + Seq::empty()
                },
                ProgressView::Decided(value) => {
                    let more = s.lemma_decide_follows(now, slot, value, true);
                    let t = s.decide(now, slot, value, true);
                    self.lemma_follows_trans(s, t, Seq::empty(), more);
                    self.lemma_slots_follow_trans(s, t, now);
                    Seq::empty() + more
                },
            }
        } else {
            self.lemma_still(self);
            Seq::empty()
        }
    }

    // ---- messages and submissions ----

    pub proof fn lemma_learned_follows(self, now: u64, first: u64, values: Seq<Seq<u8>>) -> (more: Seq<
        Seq<u8>,
    >)
        requires
            self.wf(),
        ensures
            self.follows(self.learned(now, first, values), more),
            self.coherent() ==> self.learned(now, first, values).coherent(),
        decreases values.len(),
    {
        if values.len() == 0 {
            self.lemma_still(self);
            Seq::empty()
        } else {
            let init = values.drop_last();
            let a = self.lemma_learned_follows(now, first, init);
            self.lemma_learned_wf(now, first, init);
            let before = self.learned(now, first, init);
            let slot = first + values.len() - 1;
            if slot > u64::MAX {
                a
            } else {
                let b = before.lemma_decide_follows(now, slot as u64, values.last(), false);
                let t = before.decide(now, slot as u64, values.last(), false);
                self.lemma_follows_trans(before, t, a, b);
                a + b
            }
        }
    }

    /// Taking commands drops none.
    pub proof fn lemma_pooled_keeps(self, now: u64, cs: Seq<Command>)
        requires
            self.wf(),
        ensures
            self.keeps(self.pooled(now, cs)),
            self.tidy() ==> self.pooled(now, cs).tidy(),
        decreases cs.len(),
    {
        reveal(State::tidy);
        self.lemma_pooled_wf(now, cs);
        if cs.len() > 0 {
            let before = self.pooled(now, cs.drop_last());
            let t = self.pooled(now, cs);
            self.lemma_pooled_keeps(now, cs.drop_last());
            self.lemma_pooled_wf(now, cs.drop_last());
            assert forall|id: CommandId| #[trigger]
                self.pool.entries.contains_key(id) implies t.holds(
                id,
                self.pool.entries[id].data,
            ) by {
                assert(before.holds(id, self.pool.entries[id].data));
            }
            assert forall|id: CommandId| #[trigger]
                t.pool.entries.contains_key(id) && id.seq != 0 && self.tidy() implies
                !t.dedup.is_delivered(id) by {
                if before.takes(cs.last()) && id == cs.last().0 {
                } else {
                    assert(before.pool.entries.contains_key(id));
                }
            }
        }
    }

    pub proof fn lemma_handled_follows(self, now: u64, idx: int, payload: PayloadView) -> (more: Seq<
        Seq<u8>,
    >)
        requires
            self.wf(),
            0 <= idx < self.m.n,
            idx != self.m.me_idx,
        ensures
            self.follows(self.handled(now, idx, payload), more),
            self.coherent() ==> self.handled(now, idx, payload).coherent(),
    {
        let t = self.handled(now, idx, payload);
        match payload {
            PayloadView::Record { slot, step, proposal } => {
                let s = self.observed(now, slot.0);
                if !(slot.0 <= self.gc_floor || step < 4 || slot.0 > self.decided
                    + self.ahead_window()) {
                    let u = State {
                        slots: s.slots.insert(
                            slot.0,
                            s.slots[slot.0].recorded(now, step, proposal),
                        ),
                        ..s
                    };
                    u.lemma_send_pending(idx, s.slots[slot.0].record_reply(slot, step, proposal));
                }
                self.lemma_still(t);
                Seq::empty()
            },
            PayloadView::RecordReply { slot, req_step, step, first, prior_agg } => {
                let k = slot.0;
                if self.slots.contains_key(k) {
                    let s = self.answered(now, idx, k, req_step, step, first, prior_agg);
                    self.lemma_answered_state_wf(now, idx, k, req_step, step, first, prior_agg);
                    self.lemma_still(s);
                    match self.slots[k].answer_progress(
                        self.m,
                        idx,
                        req_step,
                        step,
                        first,
                        prior_agg,
                    ) {
                        ProgressView::Wait => Seq::empty(),
                        ProgressView::Send => {
                            let more = s.lemma_drive_follows(now, k);
                            self.lemma_follows_trans(s, t, Seq::empty(), more);
                            Seq::empty() + more
                        },
                        ProgressView::Decided(value) => {
                            let more = s.lemma_decide_follows(now, k, value, true);
                            self.lemma_follows_trans(s, t, Seq::empty(), more);
                            Seq::empty() + more
                        },
                    }
                } else {
                    self.lemma_still(t);
                    Seq::empty()
                }
            },
            PayloadView::Decide { slot, value } => self.lemma_decide_follows(
                now,
                slot.0,
                value,
                false,
            ),
            PayloadView::Forward { commands } => {
                let s = self.pooled(now, commands).refreshed(now);
                self.lemma_pooled_wf(now, commands);
                self.lemma_pooled_keeps(now, commands);
                assert(self.keeps(s));
                assert(self.tidy() ==> s.tidy()) by {
                    reveal(State::tidy);
                }
                self.lemma_still(s);
                let more = s.lemma_opened_follows(now);
                self.lemma_follows_trans(s, t, Seq::empty(), more);
                Seq::empty() + more
            },
            PayloadView::Learn { from_slot } => {
                let k = from_slot.0;
                if !(k <= self.gc_floor || k > self.decided || k == 0) {
                    self.lemma_send_pending(
                        idx,
                        PayloadView::LearnReply {
                            first_slot: Slot(k),
                            values: crate::state::chunk_of(self.retained, k, self.decided, 0),
                        },
                    );
                }
                self.lemma_still(t);
                Seq::empty()
            },
            PayloadView::LearnReply { first_slot, values } => {
                let s = State { learn_in_flight: None, ..self };
                self.lemma_still(s);
                let more = s.lemma_learned_follows(now, first_slot.0, values);
                self.lemma_follows_trans(s, t, Seq::empty(), more);
                Seq::empty() + more
            },
            PayloadView::Ping => {
                self.lemma_still(t);
                Seq::empty()
            },
        }
    }

    pub proof fn lemma_request_learn_follows(self, now: u64, idx: int, their_decided: u64)
        requires
            self.m.n != 1,
        ensures
            self.follows(self.request_learn(now, idx, their_decided), Seq::empty()),
            self.coherent() ==> self.request_learn(now, idx, their_decided).coherent(),
    {
        let t = self.request_learn(now, idx, their_decided);
        if their_decided > self.decided && !self.learn_waits(now) {
            let s = State { learn_in_flight: Some((idx as usize, now)), ..self };
            s.lemma_send_pending(
                idx,
                PayloadView::Learn { from_slot: Slot((self.decided + 1) as u64) },
            );
        }
        self.lemma_still(t);
    }

    pub proof fn lemma_received_follows(self, now: u64, message: MessageView) -> (more: Seq<Seq<u8>>)
        requires
            self.wf(),
        ensures
            self.follows(self.received(now, message), more),
            self.coherent() ==> self.received(now, message).coherent(),
    {
        if self.heeds(message.from) {
            self.lemma_index(message.from);
            let idx = self.index(message.from);
            let s = self.noted(idx, message.decided.0);
            assert(s.wf());
            self.lemma_still(s);
            let more = s.lemma_handled_follows(now, idx, message.payload);
            s.lemma_handled_wf(now, idx, message.payload);
            let t = s.handled(now, idx, message.payload);
            self.lemma_follows_trans(s, t, Seq::empty(), more);
            t.lemma_request_learn_follows(now, idx, message.decided.0);
            t.lemma_request_learn_wf(now, idx, message.decided.0);
            let u = t.request_learn(now, idx, message.decided.0);
            self.lemma_follows_trans(t, u, Seq::empty() + more, Seq::empty());
            u.lemma_gced_follows(now);
            self.lemma_follows_trans(
                u,
                u.gced(),
                Seq::empty() + more + Seq::empty(),
                Seq::empty(),
            );
            Seq::empty() + more + Seq::empty() + Seq::empty()
        } else {
            self.lemma_still(self);
            Seq::empty()
        }
    }

    pub proof fn lemma_submitted_follows(self, now: u64, data: Seq<u8>) -> (more: Seq<Seq<u8>>)
        requires
            self.wf(),
            self.submit_error(data.len()) is None,
            self.next_seq < u64::MAX,
        ensures
            self.follows(self.submitted(now, data), more),
            self.submitted(now, data).holds(self.next_id(), data),
            self.tidy() && !self.dedup.is_delivered(self.next_id()) ==> self.submitted(
                now,
                data,
            ).tidy(),
            self.submitted(now, data).next_seq == self.next_seq + 1,
            self.submitted(now, data).coherent(),
    {
        let id = self.next_id();
        let s = self.enqueued(now, data);
        self.lemma_enqueued_wf(now, data);
        let t = self.submitted(now, data);
        assert(self.keeps(s)) by {
            assert forall|x: CommandId| #[trigger]
                self.pool.entries.contains_key(x) && !self.may_issue(x) implies s.holds(
                x,
                self.pool.entries[x].data,
            ) by {
                assert(x != id);
                assert(s.pool.entries.contains_key(x));
            }
        }
        assert(s.pool.entries.contains_key(id));
        assert(self.remembers(s)) by {
            reveal(State::remembers);
        }
        assert(self.tidy() && !self.dedup.is_delivered(id) ==> s.tidy()) by {
            reveal(State::tidy);
            assert forall|x: CommandId| #[trigger] s.pool.entries.contains_key(x)
                && x != id implies self.pool.entries.contains_key(x) by {}
        }
        if self.m.leads() {
            let more = s.lemma_opened_follows(now);
            s.lemma_opened_wf(now);
            self.lemma_keeps_trans(s, s.opened(now));
            self.lemma_remembers_trans(s, s.opened(now));
            assert(self.remembers(t)) by {
                reveal(State::remembers);
            }
            assert(s.backed(s.opened(now), more));
            assert(self.backed(t, more)) by {
                reveal(State::backed);
                assert forall|k: u64|
                    self.decided < k <= self.decided
                        + more.len() implies #[trigger] self.backed_at(t, more, k) by {
                    assert(s.backed_at(s.opened(now), more, k));
                }
            }
            assert(s.opened(now).tidy() ==> t.tidy()) by {
                reveal(State::tidy);
            }
            more
        } else {
            let u = s.forwarded(now, id, 1);
            assert(s.keeps(u));
            self.lemma_keeps_trans(s, u);
            assert(self.remembers(t)) by {
                reveal(State::remembers);
            }
            assert(self.backed(t, Seq::empty())) by {
                reveal(State::backed);
            }
            assert(s.tidy() ==> t.tidy()) by {
                reveal(State::tidy);
                assert forall|x: CommandId| #[trigger] t.pool.entries.contains_key(x) implies
                    s.pool.entries.contains_key(x) by {}
            }
            u.lemma_send_pending(
                self.forward_target(0),
                PayloadView::Forward { commands: seq![(id, data)] },
            );
            assert(pending(t.actions) =~= pending(self.actions) + deliveries_from(
                self.decided as int,
                self.dedup,
                Seq::empty(),
            ));
            Seq::empty()
        }
    }

    // ---- time ----

    pub proof fn lemma_hedge_follows(self, now: u64, slot: u64) -> (more: Seq<Seq<u8>>)
        requires
            self.wf(),
        ensures
            self.follows(self.hedge(now, slot), more),
            self.slots_follow(self.hedge(now, slot), now),
            slot > self.hedge(now, slot).decided ==> self.hedge(now, slot).slots.contains_key(slot)
                ==> !(self.hedge(now, slot).slots[slot].proposer is Idle),
    {
        let t = self.hedge(now, slot);
        if slot > self.decided {
            let value = batch_bytes(self.next_batch());
            let s = self.claimed(slot, self.next_batch());
            self.lemma_claimed_wf(slot, self.next_batch());
            self.lemma_claimed_heeded(slot, self.next_batch());
            self.lemma_still(s);
            assert(self.slots_follow(s, now));
            let more = s.lemma_activated_follows(now, slot, value);
            self.lemma_follows_trans(s, t, Seq::empty(), more);
            self.lemma_slots_follow_trans(s, t, now);
            s.lemma_activated_busy(now, slot, value);
            Seq::empty() + more
        } else {
            self.lemma_still(t);
            Seq::empty()
        }
    }

    /// An activated slot has a proposer.
    pub proof fn lemma_activated_busy(self, now: u64, slot: u64, value: Seq<u8>)
        requires
            self.wf(),
            slot > self.gc_floor,
        ensures
            ({
                let t = self.activated(now, slot, value);
                slot > t.decided && t.slots.contains_key(slot) ==> !(t.slots[slot].proposer is Idle)
            }),
    {
        self.lemma_observed_wf(now, slot);
        let s = self.observed(now, slot);
        if s.slots[slot].proposer is Idle && !s.slots[slot].is_decided() {
            let t = s.started(now, slot, value);
            s.lemma_started_wf(now, slot, value);
            let _ = t.lemma_drive_follows(now, slot);
            let u = t.drive(now, slot);
            if slot > u.decided && u.slots.contains_key(slot) {
                assert(t.slot_follows(u, slot, now));
            }
        } else {
            assert(s.slots.contains_key(slot));
        }
    }

    pub proof fn lemma_hedge_each_follows(self, now: u64, due: Seq<u64>) -> (more: Seq<Seq<u8>>)
        requires
            self.wf(),
        ensures
            self.follows(self.hedge_each(now, due), more),
            self.slots_follow(self.hedge_each(now, due), now),
            forall|k: u64| #[trigger]
                due.contains(k) && k > self.hedge_each(now, due).decided && self.hedge_each(
                    now,
                    due,
                ).slots.contains_key(k) ==> !(self.hedge_each(now, due).slots[k].proposer is Idle),
        decreases due.len(),
    {
        let t = self.hedge_each(now, due);
        if due.len() == 0 {
            self.lemma_still(self);
            Seq::empty()
        } else {
            let init = due.drop_last();
            let a = self.lemma_hedge_each_follows(now, init);
            self.lemma_hedge_each_wf(now, init);
            let s = self.hedge_each(now, init);
            let b = s.lemma_hedge_follows(now, due.last());
            self.lemma_follows_trans(s, t, a, b);
            self.lemma_slots_follow_trans(s, t, now);
            assert forall|k: u64| #[trigger]
                due.contains(k) && k > t.decided && t.slots.contains_key(k) implies !(
            t.slots[k].proposer is Idle) by {
                if k != due.last() {
                    let x = choose|x: int| 0 <= x < due.len() && due[x] == k;
                    assert(init[x] == k);
                    assert(init.contains(k));
                    assert(s.slot_follows(t, k, now));
                }
            }
            a + b
        }
    }

    pub proof fn lemma_renewed_follows(self, now: u64, slot: u64)
        ensures
            self.follows(self.renewed(slot), Seq::empty()),
            self.slots_follow(self.renewed(slot), now),
            self.coherent() ==> self.renewed(slot).coherent(),
    {
        self.lemma_still(self.renewed(slot));
    }

    /// A proposer whose step is sent again was last heard of at `now`.
    pub proof fn lemma_resent(self, now: u64, slot: u64)
        requires
            self.wf(),
        ensures
            ({
                let t = self.renewed(slot).drive(now, slot);
                slot > t.decided && t.slots.contains_key(slot) ==> (t.slots[slot].proposer
                    matches ProposerView::Running(run) ==> run.sent_at == now)
            }),
    {
        self.lemma_renewed_wf(slot);
        let s = self.renewed(slot);
        let t = s.drive(now, slot);
        if s.slots.contains_key(slot) {
            let u = s.drive_local(now, slot);
            s.lemma_drive_local_wf(now, slot);
            let before = s.slots[slot];
            before.lemma_driven_wf(s.m, now, s.rng);
            if before.is_running() {
                before.lemma_driven_sent(s.m, now, s.rng);
            }
            match before.driven(s.m, now, s.rng).next {
                ProgressView::Wait => {},
                ProgressView::Send => {
                    let run = u.slots[slot].proposer->Running_0;
                    let f = |idx: int|
                        PayloadView::Record {
                            slot: Slot(slot),
                            step: run.step,
                            proposal: run.proposal_for(idx),
                        };
                    u.lemma_send_upto_frame(u.m.n as nat, f);
                },
                ProgressView::Decided(value) => {
                    let _ = u.lemma_decide_follows(now, slot, value, true);
                    if slot > t.decided && t.slots.contains_key(slot) {
                        assert(u.slot_follows(t, slot, now));
                    }
                },
            }
        }
    }

    pub proof fn lemma_resend_each_follows(self, now: u64, stale: Seq<u64>) -> (more: Seq<Seq<u8>>)
        requires
            self.wf(),
        ensures
            self.follows(self.resend_each(now, stale), more),
            self.slots_follow(self.resend_each(now, stale), now),
            self.coherent() ==> self.resend_each(now, stale).coherent(),
            forall|k: u64| #[trigger]
                stale.contains(k) && k > self.resend_each(now, stale).decided && self.resend_each(
                    now,
                    stale,
                ).slots.contains_key(k) ==> (self.resend_each(now, stale).slots[k].proposer
                    matches ProposerView::Running(run) ==> run.sent_at == now),
        decreases stale.len(),
    {
        let t = self.resend_each(now, stale);
        if stale.len() == 0 {
            self.lemma_still(self);
            Seq::empty()
        } else {
            let init = stale.drop_last();
            let last = stale.last();
            let a = self.lemma_resend_each_follows(now, init);
            self.lemma_resend_each_wf(now, init);
            let s = self.resend_each(now, init);
            s.lemma_renewed_follows(now, last);
            s.lemma_renewed_wf(last);
            let u = s.renewed(last);
            let b = u.lemma_drive_follows(now, last);
            s.lemma_resent(now, last);
            self.lemma_follows_trans(s, u, a, Seq::empty());
            self.lemma_follows_trans(u, t, a + Seq::empty(), b);
            s.lemma_slots_follow_trans(u, t, now);
            self.lemma_slots_follow_trans(s, t, now);
            assert forall|k: u64| #[trigger]
                stale.contains(k) && k > t.decided && t.slots.contains_key(k) implies (
            t.slots[k].proposer matches ProposerView::Running(run) ==> run.sent_at == now) by {
                if k != last {
                    let x = choose|x: int| 0 <= x < stale.len() && stale[x] == k;
                    assert(init[x] == k);
                    assert(init.contains(k));
                    assert(s.slot_follows(t, k, now));
                }
            }
            a + Seq::empty() + b
        }
    }

    pub proof fn lemma_send_forwards_pending(self, chunks: Seq<(int, Seq<Command>)>)
        ensures
            pending(self.send_forwards(chunks).actions) == pending(self.actions),
        decreases chunks.len(),
    {
        if chunks.len() > 0 {
            self.lemma_send_forwards_pending(chunks.drop_last());
            self.send_forwards(chunks.drop_last()).lemma_send_pending(
                chunks.last().0,
                PayloadView::Forward { commands: chunks.last().1 },
            );
        }
    }

    pub proof fn lemma_reforwarded_follows(self, now: u64)
        requires
            self.wf(),
        ensures
            self.reforwarded(now).wf(),
            self.follows(self.reforwarded(now), Seq::empty()),
            self.reforwarded(now) == (State {
                pool: self.reforwarded(now).pool,
                actions: self.reforwarded(now).actions,
                ..self
            }),
            self.coherent() ==> self.reforwarded(now).coherent(),
    {
        let t = self.reforwarded(now);
        if !self.m.leads() {
            let ids = self.forward_due(now);
            let s = self.refreshed_forwards(now, ids);
            let chunks = self.chunked(ids).flushed(self.m.n as nat);
            self.lemma_refreshed_forwards_wf(now, ids);
            s.lemma_send_forwards_frame(chunks);
            s.lemma_send_forwards_pending(chunks);
            assert(self.keeps(t)) by {
                assert forall|id: CommandId| #[trigger]
                    self.pool.entries.contains_key(id) implies t.holds(
                    id,
                    self.pool.entries[id].data,
                ) by {
                    assert(t.pool.entries.contains_key(id));
                }
            }
            assert(self.tidy() ==> t.tidy()) by {
                reveal(State::tidy);
                assert forall|id: CommandId| #[trigger] t.pool.entries.contains_key(id) implies
                    self.pool.entries.contains_key(id) by {}
            }
            if t.pool.has_unassigned() {
                let id = choose|id: CommandId| #[trigger]
                    t.pool.entries.contains_key(id) && t.pool.entries[id].proposed_in is None;
                assert(self.pool.entries.contains_key(id));
                assert(self.pool.has_unassigned());
            }
            if self.pool.has_unassigned() {
                let id = choose|id: CommandId| #[trigger]
                    self.pool.entries.contains_key(id) && self.pool.entries[id].proposed_in is None;
                assert(t.pool.entries.contains_key(id));
                assert(t.pool.has_unassigned());
            }
        }
        self.lemma_still(t);
    }

    pub proof fn lemma_learn_ticked_follows(self, now: u64)
        requires
            self.wf(),
        ensures
            self.follows(self.learn_ticked(now), Seq::empty()),
            self.learn_ticked(now) == (State {
                learn_in_flight: self.learn_ticked(now).learn_in_flight,
                learn_attempts: self.learn_ticked(now).learn_attempts,
                actions: self.learn_ticked(now).actions,
                ..self
            }),
    {
        let s = self.learn_expired(now);
        self.lemma_still(s);
        if s.learn_in_flight is None && s.ahead().len() > 0 {
            let x = s.learn_attempts as int % s.ahead().len() as int;
            assert(0 <= x < s.ahead().len()) by (nonlinear_arith)
                requires
                    x == s.learn_attempts as int % s.ahead().len() as int,
                    s.ahead().len() > 0,
            ;
            let idx = s.ahead()[x];
            let all = Seq::new(s.m.n as nat, |i: int| i);
            let pred = |i: int| i != s.m.me_idx && s.peer_acked[i] > s.decided;
            assert(all.filter(pred).contains(idx));
            crate::consensus::lemma_filter_members(all, pred, idx);
            let y = choose|y: int| 0 <= y < all.len() && all[y] == idx;
            assert(all[y] == y);
            s.lemma_request_learn_follows(now, idx, s.peer_acked[idx]);
            self.lemma_follows_trans(
                s,
                self.learn_ticked(now),
                Seq::empty(),
                Seq::empty(),
            );
            assert(Seq::<Seq<u8>>::empty() + Seq::<Seq<u8>>::empty() =~= Seq::<Seq<u8>>::empty());
        }
    }

    pub proof fn lemma_pinged_follows(self, now: u64)
        requires
            self.m.wf(),
        ensures
            self.follows(self.pinged(now), Seq::empty()),
            self.pinged(now) == (State {
                last_ping: self.pinged(now).last_ping,
                actions: self.pinged(now).actions,
                ..self
            }),
    {
        let t = self.pinged(now);
        let s = State { last_ping: now, ..self };
        let f = |idx: int| PayloadView::Ping;
        s.lemma_send_upto_frame(s.m.n as nat, f);
        s.lemma_send_upto_pending(s.m.n as nat, f);
        self.lemma_still(t);
    }

    /// The parts of a tick that may deliver.
    pub open spec fn tick_middle(self, now: u64) -> State {
        self.frontier_observed(now).hedged(now).opened(now).retransmitted(now)
    }

    pub proof fn lemma_frontier_follows(self, now: u64)
        requires
            self.wf(),
        ensures
            self.frontier_observed(now).wf(),
            self.follows(self.frontier_observed(now), Seq::empty()),
            self.coherent() ==> self.frontier_observed(now).coherent(),
    {
        if self.decided < u64::MAX {
            self.lemma_observed_wf(now, (self.decided + 1) as u64);
        }
        self.lemma_still(self.frontier_observed(now));
    }

    pub proof fn lemma_hedged_follows(self, now: u64) -> (more: Seq<Seq<u8>>)
        requires
            self.wf(),
        ensures
            self.hedged(now).wf(),
            self.follows(self.hedged(now), more),
            self.slots_follow(self.hedged(now), now),
            self.heeded() ==> self.hedged(now).coherent(),
            self.hedged(now).slots == self.hedge_each(now, self.hedge_due(now)).slots,
            self.hedged(now).decided == self.hedge_each(now, self.hedge_due(now)).decided,
    {
        let due = self.hedge_due(now);
        let more = self.lemma_hedge_each_follows(now, due);
        self.lemma_hedge_each_wf(now, due);
        let s = self.hedge_each(now, due);
        let t = self.hedged(now);
        s.lemma_still(t);
        self.lemma_follows_trans(s, t, more, Seq::empty());
        assert(more + Seq::<Seq<u8>>::empty() =~= more);
        assert(s.slots_follow(t, now));
        self.lemma_slots_follow_trans(s, t, now);
        more
    }

    pub proof fn lemma_tick_middle_follows(self, now: u64) -> (more: Seq<Seq<u8>>)
        requires
            self.wf(),
        ensures
            self.tick_middle(now).wf(),
            self.follows(self.tick_middle(now), more),
            self.heeded() ==> self.tick_middle(now).coherent(),
    {
        let s1 = self.frontier_observed(now);
        self.lemma_frontier_follows(now);
        let a = s1.lemma_hedged_follows(now);
        let s2 = s1.hedged(now);
        self.lemma_follows_trans(s1, s2, Seq::empty(), a);
        let b = s2.lemma_opened_follows(now);
        s2.lemma_opened_wf(now);
        let s3 = s2.opened(now);
        self.lemma_follows_trans(s2, s3, Seq::empty() + a, b);
        let stale = s3.stale(now);
        let c = s3.lemma_resend_each_follows(now, stale);
        s3.lemma_resend_each_wf(now, stale);
        let s4 = s3.retransmitted(now);
        self.lemma_follows_trans(s3, s4, Seq::empty() + a + b, c);
        Seq::empty() + a + b + c
    }

    pub proof fn lemma_ticked_follows(self, now: u64) -> (more: Seq<Seq<u8>>)
        requires
            self.wf(),
        ensures
            self.follows(self.ticked(now), more),
            self.heeded() ==> self.ticked(now).coherent(),
    {
        let more = self.lemma_tick_middle_follows(now);
        let s4 = self.tick_middle(now);
        s4.lemma_reforwarded_follows(now);
        let s5 = s4.reforwarded(now);
        self.lemma_follows_trans(s4, s5, more, Seq::empty());
        s5.lemma_learn_ticked_follows(now);
        s5.lemma_learn_ticked_wf(now);
        let s6 = s5.learn_ticked(now);
        self.lemma_follows_trans(s5, s6, more + Seq::empty(), Seq::empty());
        s6.lemma_pinged_follows(now);
        let s7 = s6.pinged(now);
        self.lemma_follows_trans(s6, s7, more + Seq::empty() + Seq::empty(), Seq::empty());
        more + Seq::empty() + Seq::empty() + Seq::empty()
    }
}

} // verus!
