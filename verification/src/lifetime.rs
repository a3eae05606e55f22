//! One replica over its lifetime: what holds whatever it is given.

use vstd::prelude::*;

use crate::config::ConfigView;
use crate::delivery::{
    deliveries, dedup_of, lemma_delivered_by, lemma_deliveries, lemma_deliveries_join,
    lemma_deliveries_once, lemma_pending_first, pending, Delivery,
};
use crate::pool::{
    entry_costs, has_id, lemma_total_part, lemma_total_remove, total, DedupView, EntryView,
};
use crate::proposer::Member;
use crate::sorted::Key;
use crate::state::{batch_of, chunk_of, lengths, ActionView, State, LEARN_CHUNK_BYTES};
use crate::types::{CommandId, Slot, COMMAND_WIRE_OVERHEAD};
use crate::wire::MessageView;

verus! {

/// What a replica can be given.
pub enum Input {
    Submit { now: u64, data: Seq<u8> },
    Receive { now: u64, message: MessageView },
    Tick { now: u64 },
    Poll,
}

/// A replica, and what its application has been handed so far.
#[verifier::ext_equal]
pub struct Lifetime {
    pub state: State,
    pub log: Seq<Delivery>,
}

/// Whether `m` is the place of the replica that `config` configures.
pub open spec fn belongs(config: ConfigView, m: Member) -> bool {
    &&& config.wf()
    &&& m.wf()
    &&& m.n == config.replicas.len()
    &&& m.me == config.me
    &&& config.replicas[m.me_idx as int] == m.me
}

impl Lifetime {
    pub open spec fn begun(config: ConfigView, m: Member) -> Lifetime {
        Lifetime { state: State::initial(config, m), log: Seq::empty() }
    }

    /// After one more input.
    pub open spec fn after(self, input: Input) -> Lifetime {
        let s = self.state;
        match input {
            Input::Submit { now, data } => if s.submit_error(data.len()) is None && s.next_seq
                < u64::MAX {
                Lifetime { state: s.submitted(now, data), ..self }
            } else {
                self
            },
            Input::Receive { now, message } => Lifetime {
                state: s.received(now, message),
                ..self
            },
            Input::Tick { now } => Lifetime { state: s.ticked(now), ..self },
            Input::Poll => if s.actions.len() > 0 {
                Lifetime {
                    state: State { actions: s.actions.drop_first(), ..s },
                    log: match s.actions[0] {
                        ActionView::Deliver { slot, commands } => self.log.push((slot, commands)),
                        ActionView::Send { .. } => self.log,
                    },
                }
            } else {
                self
            },
        }
    }

    /// After a sequence of inputs.
    pub open spec fn run(self, inputs: Seq<Input>) -> Lifetime
        decreases inputs.len(),
    {
        if inputs.len() == 0 {
            self
        } else {
            self.run(inputs.drop_last()).after(inputs.last())
        }
    }

    /// Whether the values `vals`, one per delivered slot, account for the
    /// replica's log.
    pub open spec fn accounts(self, vals: Seq<Seq<u8>>) -> bool {
        &&& self.state.wf()
        &&& self.state.bounded()
        &&& self.state.coherent()
        &&& self.state.m.n == 1 ==> self.state.silent()
        &&& self.state.decided == vals.len()
        &&& self.state.dedup == dedup_of(vals)
        &&& self.log + pending(self.state.actions) == deliveries(vals)
        &&& forall|k: u64|
            self.state.gc_floor < k <= self.state.decided ==> #[trigger] self.state.retained[k]
                == vals[k - 1]
    }

    proof fn lemma_step(self, vals: Seq<Seq<u8>>, t: State, more: Seq<Seq<u8>>)
        requires
            self.accounts(vals),
            self.state.follows(t, more),
            t.wf(),
            t.coherent(),
        ensures
            (Lifetime { state: t, ..self }).accounts(vals + more),
    {
        lemma_deliveries_join(0, DedupView::empty(), vals, more);
        assert forall|k: u64| t.gc_floor < k <= t.decided implies #[trigger] t.retained[k] == (vals
            + more)[k - 1] by {
            reveal(State::remembers);
            reveal(State::backed);
            if k <= self.state.decided {
                assert(self.state.retained.contains_key(k));
                assert(self.state.retained[k] == vals[k - 1]);
            } else {
                assert(self.state.backed_at(t, more, k));
            }
        }
        assert(self.log + pending(t.actions) =~= deliveries(vals + more));
    }

    proof fn lemma_after(self, vals: Seq<Seq<u8>>, input: Input) -> (all: Seq<Seq<u8>>)
        requires
            self.accounts(vals),
        ensures
            self.after(input).accounts(all),
    {
        let s = self.state;
        match input {
            Input::Submit { now, data } => if s.submit_error(data.len()) is None && s.next_seq
                < u64::MAX {
                s.lemma_submitted_wf(now, data);
                let more = s.lemma_submitted_follows(now, data);
                self.lemma_step(vals, s.submitted(now, data), more);
                vals + more
            } else {
                vals
            },
            Input::Receive { now, message } => {
                s.lemma_received_wf(now, message);
                let more = s.lemma_received_follows(now, message);
                self.lemma_step(vals, s.received(now, message), more);
                vals + more
            },
            Input::Tick { now } => {
                s.lemma_ticked_wf(now);
                let more = s.lemma_ticked_follows(now);
                self.lemma_step(vals, s.ticked(now), more);
                vals + more
            },
            Input::Poll => {
                if s.actions.len() > 0 {
                    lemma_pending_first(s.actions);
                    let t = self.after(input);
                    assert(t.log + pending(t.state.actions) =~= self.log + pending(s.actions));
                }
                vals
            },
        }
    }

    pub proof fn lemma_run(config: ConfigView, m: Member, inputs: Seq<Input>) -> (vals: Seq<Seq<u8>>)
        requires
            belongs(config, m),
        ensures
            Lifetime::begun(config, m).run(inputs).accounts(vals),
        decreases inputs.len(),
    {
        if inputs.len() == 0 {
            let l = Lifetime::begun(config, m);
            assert(entry_costs(l.state.pool.entries) =~= Map::empty());
            assert(lengths(l.state.retained) =~= Map::empty());
            assert(l.state.wf());
            assert(l.log + pending(l.state.actions) =~= deliveries(Seq::empty()));
            Seq::empty()
        } else {
            let vals = Lifetime::lemma_run(config, m, inputs.drop_last());
            Lifetime::begun(config, m).run(inputs.drop_last()).lemma_after(vals, inputs.last())
        }
    }

    /// Whatever it is given, a replica hands out slot 1, then slot 2, and so
    /// on without gaps.
    pub proof fn deliveries_are_in_slot_order(
        config: ConfigView,
        m: Member,
        inputs: Seq<Input>,
        k: int,
    )
        requires
            belongs(config, m),
            0 <= k < Lifetime::begun(config, m).run(inputs).log.len(),
        ensures
            Lifetime::begun(config, m).run(inputs).log[k].0 == Slot((k + 1) as u64),
    {
        let vals = Lifetime::lemma_run(config, m, inputs);
        let l = Lifetime::begun(config, m).run(inputs);
        lemma_deliveries(vals);
        assert((l.log + pending(l.state.actions))[k] == l.log[k]);
    }

    /// Whatever it is given, a replica never hands out a command twice.
    pub proof fn deliveries_never_repeat_a_command(
        config: ConfigView,
        m: Member,
        inputs: Seq<Input>,
        k: int,
        a: int,
        l: int,
        b: int,
    )
        requires
            belongs(config, m),
            ({
                let log = Lifetime::begun(config, m).run(inputs).log;
                &&& 0 <= k < log.len()
                &&& 0 <= a < log[k].1.len()
                &&& 0 <= l < log.len()
                &&& 0 <= b < log[l].1.len()
                &&& (k != l || a != b)
            }),
        ensures
            ({
                let log = Lifetime::begun(config, m).run(inputs).log;
                log[k].1[a].0 != log[l].1[b].0
            }),
    {
        let vals = Lifetime::lemma_run(config, m, inputs);
        let t = Lifetime::begun(config, m).run(inputs);
        let all = deliveries(vals);
        lemma_deliveries(vals);
        lemma_deliveries_once(vals);
        assert(all[k] == t.log[k]);
        assert(all[l] == t.log[l]);
        assert(all[k].1[a].0 != all[l].1[b].0);
    }

    /// A group of one is a purely local log: nothing is ever to be sent.
    pub proof fn lone_replicas_never_send(config: ConfigView, m: Member, inputs: Seq<Input>, x: int)
        requires
            belongs(config, m),
            config.replicas.len() == 1,
            0 <= x < Lifetime::begun(config, m).run(inputs).state.actions.len(),
        ensures
            Lifetime::begun(config, m).run(inputs).state.actions[x] is Deliver,
    {
        let _ = Lifetime::lemma_run(config, m, inputs);
        Lifetime::lemma_same_place(config, m, inputs);
    }

    /// One more input leaves the replica's place as it is, never takes the
    /// watermark back, and drops no command.
    pub proof fn lemma_last(config: ConfigView, m: Member, inputs: Seq<Input>)
        requires
            belongs(config, m),
            inputs.len() > 0,
        ensures
            ({
                let l = Lifetime::begun(config, m);
                let s = l.run(inputs.drop_last()).state;
                let t = l.run(inputs).state;
                &&& t.m == s.m
                &&& t.config == s.config
                &&& t.boot == s.boot
                &&& t.decided >= s.decided
                &&& t.next_seq >= s.next_seq
                &&& t.gc_floor >= s.gc_floor
                &&& s.keeps(t)
                &&& s.remembers(t)
            }),
    {
        let _ = Lifetime::lemma_run(config, m, inputs.drop_last());
        let s = Lifetime::begun(config, m).run(inputs.drop_last()).state;
        reveal(State::remembers);
        match inputs.last() {
            Input::Submit { now, data } => {
                if s.submit_error(data.len()) is None && s.next_seq < u64::MAX {
                    let _ = s.lemma_submitted_follows(now, data);
                }
            },
            Input::Receive { now, message } => {
                let _ = s.lemma_received_follows(now, message);
            },
            Input::Tick { now } => {
                let _ = s.lemma_ticked_follows(now);
            },
            Input::Poll => {},
        }
    }

    pub proof fn lemma_same_place(config: ConfigView, m: Member, inputs: Seq<Input>)
        requires
            belongs(config, m),
        ensures
            Lifetime::begun(config, m).run(inputs).state.m == m,
        decreases inputs.len(),
    {
        if inputs.len() > 0 {
            Lifetime::lemma_same_place(config, m, inputs.drop_last());
            Lifetime::lemma_last(config, m, inputs);
        }
    }

    /// After a submission, whatever follows, the command is held.
    proof fn lemma_held(
        config: ConfigView,
        m: Member,
        before: Seq<Input>,
        now: u64,
        data: Seq<u8>,
        after: Seq<Input>,
    )
        requires
            belongs(config, m),
            Lifetime::begun(config, m).run(before).state.submit_error(data.len()) is None,
            Lifetime::begun(config, m).run(before).state.next_seq < u64::MAX,
        ensures
            ({
                let l = Lifetime::begun(config, m);
                let s = l.run(before).state;
                let t = l.run(before.push(Input::Submit { now, data }) + after).state;
                t.holds(s.next_id(), data) && !t.may_issue(s.next_id())
            }),
        decreases after.len(),
    {
        let l = Lifetime::begun(config, m);
        let s = l.run(before).state;
        let id = s.next_id();
        let upto = before.push(Input::Submit { now, data });
        let all = upto + after;
        if after.len() == 0 {
            assert(all =~= upto);
            assert(upto.drop_last() =~= before);
            let _ = Lifetime::lemma_run(config, m, before);
            let _ = s.lemma_submitted_follows(now, data);
        } else {
            let init = after.drop_last();
            Lifetime::lemma_held(config, m, before, now, data, init);
            assert(all.drop_last() =~= upto + init);
            Lifetime::lemma_last(config, m, all);
            let t = l.run(upto + init).state;
            if t.dedup.is_delivered(id) {
            } else {
                assert(t.pool.entries.contains_key(id));
            }
        }
    }

    /// A submitted command is not lost: whatever follows, it waits in the pool
    /// of the replica it was submitted at until that replica delivers it.
    pub proof fn submissions_are_kept_until_delivered(
        config: ConfigView,
        m: Member,
        before: Seq<Input>,
        now: u64,
        data: Seq<u8>,
        after: Seq<Input>,
    )
        requires
            belongs(config, m),
            Lifetime::begun(config, m).run(before).state.submit_error(data.len()) is None,
            Lifetime::begun(config, m).run(before).state.next_seq < u64::MAX,
        ensures
            ({
                let l = Lifetime::begun(config, m);
                let id = l.run(before).state.next_id();
                let t = l.run(before.push(Input::Submit { now, data }) + after);
                let all = t.log + pending(t.state.actions);
                ||| t.state.pool.entries.contains_key(id) && t.state.pool.entries[id].data == data
                ||| exists|k: int| 0 <= k < all.len() && has_id(#[trigger] all[k].1, id)
            }),
    {
        Lifetime::lemma_held(config, m, before, now, data, after);
        let l = Lifetime::begun(config, m);
        let id = l.run(before).state.next_id();
        let inputs = before.push(Input::Submit { now, data }) + after;
        let t = l.run(inputs);
        let all = t.log + pending(t.state.actions);
        if t.state.dedup.is_delivered(id) {
            let vals = Lifetime::lemma_run(config, m, inputs);
            let k = lemma_delivered_by(vals, id);
            lemma_deliveries(vals);
            assert(has_id(all[k].1, id));
        }
    }

    /// What a replica does, sends and delivers depends on its configuration
    /// and its inputs alone: two replicas with the same configuration that are
    /// given the same inputs are the same.
    pub proof fn replicas_are_deterministic(
        config: ConfigView,
        a: Member,
        b: Member,
        inputs: Seq<Input>,
    )
        requires
            belongs(config, a),
            belongs(config, b),
        ensures
            Lifetime::begun(config, a).run(inputs) == Lifetime::begun(config, b).run(inputs),
    {
        let q = config.replicas;
        let i = a.me_idx as int;
        let j = b.me_idx as int;
        if i < j {
            assert(q[i].rank() < q[j].rank());
        } else if j < i {
            assert(q[j].rank() < q[i].rank());
        }
        assert(a == b);
    }

    /// Whatever it is given, a replica stays well-formed; as leader it opens
    /// slots only within the pipeline depth of its watermark; and the time
    /// since when commands wait is set exactly while some do.
    pub proof fn replicas_stay_sound(config: ConfigView, m: Member, inputs: Seq<Input>)
        requires
            belongs(config, m),
        ensures
            Lifetime::begun(config, m).run(inputs).state.wf(),
            Lifetime::begun(config, m).run(inputs).state.bounded(),
            Lifetime::begun(config, m).run(inputs).state.coherent(),
    {
        let _ = Lifetime::lemma_run(config, m, inputs);
    }
}

/// Each entry costs at least its overhead.
proof fn lemma_entries_cost(entries: Map<CommandId, EntryView>)
    requires
        entries.dom().finite(),
    ensures
        COMMAND_WIRE_OVERHEAD * entries.dom().len() <= total(entry_costs(entries)),
    decreases entries.dom().len(),
{
    let costs = entry_costs(entries);
    assert(costs.dom() =~= entries.dom());
    if entries.dom().len() > 0 {
        let id = entries.dom().choose();
        assert(entries.contains_key(id));
        lemma_total_remove(costs, id);
        assert(costs.remove(id) =~= entry_costs(entries.remove(id)));
        lemma_entries_cost(entries.remove(id));
    }
}

impl State {
    /// The pool's byte limit bounds the number of commands in it, even if all
    /// are empty.
    pub proof fn pool_limit_bounds_the_entry_count(self)
        requires
            self.wf(),
        ensures
            self.pool.bytes <= self.config.max_pool_bytes,
            COMMAND_WIRE_OVERHEAD * self.pool.entries.dom().len() <= self.config.max_pool_bytes,
    {
        lemma_entries_cost(self.pool.entries);
    }

    /// Garbage collection frees a prefix of the slots, up to the watermark at
    /// most, and does nothing else. It frees what every replica has
    /// acknowledged; beyond that, oldest first, as long as the values retained
    /// exceed the budget, and so only slots that do not fit it together with
    /// those after them. What it leaves is contiguous up to the watermark, and
    /// within the budget unless no delivered slot is left.
    pub proof fn retention_is_bounded(self)
        requires
            self.wf(),
        ensures
            self.gced().kept() <= self.config.max_retained_bytes || self.gced().gc_floor
                == self.gced().decided,
            forall|k: u64| (forall|j: int|
                0 <= j < self.m.n && j != self.m.me_idx ==> k <= #[trigger] self.peer_acked[j]) && k
                <= self.decided ==> !#[trigger] self.gced().retained.contains_key(k),
            self.gced().gc_floor <= self.decided,
            self.gced().retained == self.retained.restrict(
                Set::new(|k: u64| k > self.gced().gc_floor),
            ),
            forall|k: u64|
                self.gced().gc_floor < k <= self.decided
                    ==> #[trigger] self.gced().retained.contains_key(k),
            forall|k: u64, j: int|
                self.retained.contains_key(k) && !#[trigger] self.gced().retained.contains_key(k)
                    && 0 <= j < self.m.n && j != self.m.me_idx && k > #[trigger] self.peer_acked[j]
                    ==> total(lengths(self.retained_from(k))) > self.config.max_retained_bytes,
            self.gced() == (State {
                peer_acked: self.peer_acked.update(self.m.me_idx as int, self.decided),
                gc_floor: self.gced().gc_floor,
                slots: self.gced().slots,
                retained: self.gced().retained,
                ..self
            }),
    {
        let s = self.acknowledged();
        self.lemma_gced_wf();
        crate::invariants::lemma_least(s.peer_acked);
        assert(s.peer_acked[s.m.me_idx as int] == s.decided);
        let l = crate::state::least(s.peer_acked);
        let u = s.freed(l);
        s.lemma_freed_wf(l);
        u.lemma_evicted_frame();
        let t = self.gced();
        assert forall|k: u64| (forall|j: int|
            0 <= j < self.m.n && j != self.m.me_idx ==> k <= #[trigger] self.peer_acked[j]) && k
            <= self.decided implies !#[trigger] t.retained.contains_key(k) by {
            let j = choose|j: int| 0 <= j < s.peer_acked.len() && s.peer_acked[j] == l;
            if j != self.m.me_idx {
                assert(k <= self.peer_acked[j]);
            }
            assert(k <= l);
            assert(t.gc_floor >= u.gc_floor);
            if t.retained.contains_key(k) {
                assert(t.slots.contains_key(k));
                assert(k > t.gc_floor);
            }
        }
        assert(t.retained =~= self.retained.restrict(Set::new(|k: u64| k > t.gc_floor))) by {
            assert forall|k: u64| #![trigger t.retained.contains_key(k)]
                t.retained.contains_key(k) == (self.retained.contains_key(k) && k > t.gc_floor) && (
                t.retained.contains_key(k) ==> t.retained[k] == self.retained[k]) by {
                self.lemma_gced_retained(k);
            }
        }
        assert forall|k: u64, j: int|
            self.retained.contains_key(k) && !#[trigger] t.retained.contains_key(k) && 0 <= j
                < self.m.n && j != self.m.me_idx && k > #[trigger] self.peer_acked[j] implies total(
            lengths(self.retained_from(k)),
        ) > self.config.max_retained_bytes by {
            assert(s.peer_acked[j] == self.peer_acked[j]);
            assert(k > l);
            assert(u.retained.contains_key(k));
            u.lemma_evicted_over_budget(k);
            assert(u.retained_from(k) =~= self.retained_from(k));
        }
    }

    /// The values retained from slot `k` on.
    pub open spec fn retained_from(self, k: u64) -> Map<u64, Seq<u8>> {
        self.retained.restrict(Set::new(|x: u64| x >= k))
    }

    /// What is evicted did not fit the budget together with what came after.
    proof fn lemma_evicted_over_budget(self, k: u64)
        requires
            self.wf(),
            self.retained.contains_key(k),
            !self.evicted().retained.contains_key(k),
        ensures
            total(lengths(self.retained_from(k))) > self.config.max_retained_bytes,
        decreases self.decided - self.gc_floor,
    {
        let next = (self.gc_floor + 1) as u64;
        let s = self.freed(next);
        self.lemma_freed_wf(next);
        assert(self.slots.contains_key(k));
        if k == next {
            assert(self.retained_from(k) =~= self.retained) by {
                assert forall|x: u64| #[trigger] self.retained.contains_key(x) implies x >= k by {
                    assert(self.slots.contains_key(x));
                }
            }
        } else {
            assert(s.retained.contains_key(k));
            s.lemma_evicted_over_budget(k);
            assert(s.retained_from(k) =~= self.retained_from(k));
        }
    }

    /// Remote decisions never push a replica over its retention budget: those
    /// ahead of the frontier that would are dropped.
    pub proof fn remote_decisions_respect_the_budget(self, now: u64, slot: u64, value: Seq<u8>)
        requires
            self.wf(),
            self.kept() <= self.config.max_retained_bytes,
        ensures
            self.settled(now, slot, value, false).kept() <= self.config.max_retained_bytes,
    {
        let t = self.settled(now, slot, value, false);
        if !self.drops(slot, value, false) {
            self.lemma_observed_wf(now, slot);
            let s0 = self.observed(now, slot);
            if !s0.slots[slot].is_decided() {
                let s1 = s0.installed(slot, value);
                s0.lemma_installed_wf(slot, value);
                s1.lemma_released_wf(slot, batch_of(value));
                let s3 = s1.released(slot, batch_of(value)).refreshed(now);
                s3.lemma_delivered_wf();
                s3.lemma_delivered_frame();
                let s5 = s3.delivered().acknowledged().refreshed(now);
                assert(s5.wf());
                assert(s5.retained == s1.retained);
                s5.retention_is_bounded();
                s5.lemma_gced_kept();
                assert(t == s5.gced());
                if slot > self.decided + 1 {
                    assert(s1.kept() <= self.config.max_retained_bytes);
                } else {
                    if slot <= self.decided {
                        assert(self.retained.contains_key(slot));
                    }
                    assert(slot == self.decided + 1);
                    assert(s3.can_deliver()) by {
                        assert(s3.retained.contains_key(slot));
                    }
                    s3.delivered_one().lemma_delivered_frame();
                    assert(s5.decided >= slot);
                    if t.kept() > self.config.max_retained_bytes {
                        s5.lemma_gced_wf();
                        assert(lengths(self.retained).dom() =~= self.retained.dom());
                        assert(lengths(t.retained).submap_of(lengths(self.retained))) by {
                            assert forall|k: u64| #[trigger]
                                lengths(t.retained).contains_key(k) implies lengths(
                                self.retained,
                            ).contains_key(k) && lengths(self.retained)[k] == lengths(
                                t.retained,
                            )[k] by {
                                assert(t.retained.contains_key(k));
                                assert(t.slots.contains_key(k));
                                assert(k > t.gc_floor);
                                assert(s1.retained.contains_key(k));
                                assert(k != slot);
                            }
                        }
                        lemma_total_part(lengths(t.retained), lengths(self.retained));
                    }
                }
            }
        }
    }

    /// Garbage collection only takes away.
    pub proof fn lemma_gced_kept(self)
        requires
            self.wf(),
        ensures
            self.gced().kept() <= self.kept(),
            self.gced().retained.submap_of(self.retained),
    {
        let s = self.acknowledged();
        assert(s.wf());
        crate::invariants::lemma_least(s.peer_acked);
        assert(s.peer_acked[s.m.me_idx as int] == s.decided);
        let l = crate::state::least(s.peer_acked);
        s.lemma_freed_wf(l);
        s.lemma_freed_kept(l);
        let u = s.freed(l);
        u.lemma_evicted_kept();
        let t = self.gced();
        assert forall|k: u64| #[trigger] t.retained.dom().contains(k) implies
            self.retained.dom().contains(k) && t.retained[k] == self.retained[k] by {
            assert(u.retained.dom().contains(k));
            assert(t.retained[k] == u.retained[k]);
        }
    }

    proof fn lemma_evicted_kept(self)
        requires
            self.wf(),
        ensures
            self.evicted().kept() <= self.kept(),
            self.evicted().retained.submap_of(self.retained),
        decreases self.decided - self.gc_floor,
    {
        if self.kept() > self.config.max_retained_bytes && self.gc_floor < self.decided {
            let next = (self.gc_floor + 1) as u64;
            self.lemma_freed_wf(next);
            self.lemma_freed_kept(next);
            let s = self.freed(next);
            s.lemma_evicted_kept();
            let t = self.evicted();
            assert forall|k: u64| #[trigger] t.retained.dom().contains(k) implies
                self.retained.dom().contains(k) && t.retained[k] == self.retained[k] by {
                assert(s.retained.dom().contains(k));
                assert(t.retained[k] == s.retained[k]);
            }
        }
    }

    /// A catch-up reply carries the decided values of consecutive slots,
    /// starting with the one that was asked for.
    pub proof fn catch_up_replies_are_consecutive(self, slot: u64, bytes: nat)
        requires
            slot <= self.decided,
        ensures
            ({
                let values = chunk_of(self.retained, slot, self.decided, bytes);
                &&& 0 < values.len() <= self.decided - slot + 1
                &&& forall|x: int|
                    0 <= x < values.len() ==> #[trigger] values[x] == self.retained[(slot
                        + x) as u64]
            }),
        decreases self.decided - slot,
    {
        let value = self.retained[slot];
        if slot < self.decided && bytes + value.len() < LEARN_CHUNK_BYTES {
            let next = (slot + 1) as u64;
            self.catch_up_replies_are_consecutive(next, bytes + value.len());
            let rest = chunk_of(self.retained, next, self.decided, bytes + value.len());
            let all = chunk_of(self.retained, slot, self.decided, bytes);
            assert forall|x: int| 0 <= x < all.len() implies #[trigger] all[x] == self.retained[(
            slot + x) as u64] by {
                if x > 0 {
                    assert(all[x] == rest[x - 1]);
                    assert((next + (x - 1)) as u64 == (slot + x) as u64);
                }
            }
        }
    }
}

} // verus!
