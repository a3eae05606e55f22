//! Catching up: whom a replica that is behind asks, and what it is answered.

use vstd::prelude::*;

use crate::config::ConfigView;
use crate::lifetime::{belongs, Input, Lifetime};
use crate::proposer::Member;
use crate::sending::{sent_of, Kind};
use crate::slot::ProgressView;
use crate::sorted::Key;
use crate::state::{batch_of, chunk_of, ActionView, State};
use crate::types::{ReplicaId, Slot};
use crate::wire::{MessageView, PayloadView};

verus! {

/// Filtering by tests that agree on a sequence gives the same.
proof fn lemma_filter_same(q: Seq<int>, f: spec_fn(int) -> bool, g: spec_fn(int) -> bool)
    requires
        forall|x: int| 0 <= x < q.len() ==> f(#[trigger] q[x]) == g(q[x]),
    ensures
        q.filter(f) == q.filter(g),
    decreases q.len(),
{
    reveal(Seq::filter);
    if q.len() > 0 {
        let init = q.drop_last();
        assert forall|x: int| 0 <= x < init.len() implies f(#[trigger] init[x]) == g(init[x]) by {
            assert(init[x] == q[x]);
        }
        lemma_filter_same(init, f, g);
        assert(f(q[q.len() - 1]) == g(q[q.len() - 1]));
    }
}

/// Filtering numbers in ascending order keeps them so, and keeps all that pass.
proof fn lemma_filter_numbers(n: nat, f: spec_fn(int) -> bool)
    ensures
        ({
            let r = Seq::new(n, |i: int| i).filter(f);
            &&& forall|x: int| 0 <= x < r.len() ==> 0 <= #[trigger] r[x] < n && f(r[x])
            &&& forall|x: int, y: int| 0 <= x < y < r.len() ==> #[trigger] r[x] < #[trigger] r[y]
            &&& forall|i: int| 0 <= i < n && f(i) ==> #[trigger] r.contains(i)
        }),
    decreases n,
{
    let q = Seq::new(n, |i: int| i);
    reveal(Seq::filter);
    if n > 0 {
        let p = Seq::new((n - 1) as nat, |i: int| i);
        assert(q.drop_last() =~= p);
        lemma_filter_numbers((n - 1) as nat, f);
        let r = q.filter(f);
        let before = p.filter(f);
        assert forall|i: int| 0 <= i < n && f(i) implies #[trigger] r.contains(i) by {
            if i < n - 1 {
                assert(before.contains(i));
                let x = choose|x: int| 0 <= x < before.len() && before[x] == i;
                assert(r[x] == i);
            } else {
                assert(r[r.len() - 1] == i);
            }
        }
    }
}

impl State {
    /// Whether the replica at `j` is another one that is known to have decided
    /// more than this one.
    pub open spec fn is_ahead(self, j: int) -> bool {
        0 <= j < self.m.n && j != self.m.me_idx && self.peer_acked[j] > self.decided
    }

    proof fn lemma_ahead_members(self)
        ensures
            forall|x: int|
                0 <= x < self.ahead().len() ==> self.is_ahead(#[trigger] self.ahead()[x]),
            forall|x: int, y: int|
                0 <= x < y < self.ahead().len() ==> #[trigger] self.ahead()[x]
                    < #[trigger] self.ahead()[y],
            forall|j: int| #[trigger] self.is_ahead(j) ==> self.ahead().contains(j),
    {
        let f = |i: int| i != self.m.me_idx && self.peer_acked[i] > self.decided;
        lemma_filter_numbers(self.m.n as nat, f);
        assert(self.ahead() == Seq::new(self.m.n as nat, |i: int| i).filter(f));
        assert forall|j: int| #[trigger] self.is_ahead(j) implies self.ahead().contains(j) by {
            assert(f(j));
        }
    }

    /// Whether the same replicas are ahead of this one in `t`.
    pub open spec fn trails_like(self, t: State) -> bool {
        forall|j: int| #[trigger] self.is_ahead(j) == t.is_ahead(j)
    }

    proof fn lemma_same_ahead(self, t: State)
        requires
            self.m == t.m,
            self.trails_like(t),
        ensures
            self.ahead() == t.ahead(),
    {
        let q = Seq::new(self.m.n as nat, |i: int| i);
        let f = |i: int| i != self.m.me_idx && self.peer_acked[i] > self.decided;
        let g = |i: int| i != t.m.me_idx && t.peer_acked[i] > t.decided;
        assert forall|x: int| 0 <= x < q.len() implies f(#[trigger] q[x]) == g(q[x]) by {
            assert(self.is_ahead(x) == t.is_ahead(x));
        }
        lemma_filter_same(q, f, g);
    }

    /// Whether a catch-up request is outstanding that has waited for the
    /// retransmission delay at `now`.
    pub open spec fn overdue(self, now: u64) -> bool {
        match self.learn_in_flight {
            Some((_, sent_at)) => now.saturating_sub(sent_at) >= self.config.retransmit_delay,
            None => false,
        }
    }

    /// Whether `a` asks the replica at `j` for what comes after the watermark
    /// of this one.
    pub open spec fn asks(self, j: int, a: ActionView) -> bool {
        a == (ActionView::Send {
            to: self.config.replicas[j],
            message: MessageView {
                from: self.config.me,
                decided: Slot(self.decided),
                payload: PayloadView::Learn { from_slot: Slot((self.decided + 1) as u64) },
            },
        })
    }

    /// Whom the attempt asks that comes `i` after the next one, if the same
    /// replicas stay ahead.
    #[verifier::opaque]
    spec fn turn(self, i: int) -> ReplicaId {
        self.config.replicas[self.ahead()[(self.learn_attempts + 1 + i)
            % self.ahead().len() as int]]
    }

    /// Whether `q` holds requests to the replicas whose turn it was, one after
    /// the other, and the number of attempts is `attempts` after them.
    #[verifier::opaque]
    spec fn in_turn(self, attempts: u64, q: Seq<ActionView>) -> bool {
        &&& attempts == self.learn_attempts + q.len()
        &&& forall|i: int| 0 <= i < q.len() ==> (#[trigger] q[i])->to == self.turn(i)
    }

    /// A tick that finds a request overdue asks the replica whose turn it is.
    proof fn lemma_retry(self, s: State, now: u64, earlier: Seq<ActionView>) -> (asked: Seq<
        ActionView,
    >)
        requires
            self.wf(),
            self.m.n >= 2,
            self.rested(),
            self.overdue(now),
            self.config == s.config,
            self.m == s.m,
            s.in_turn(self.learn_attempts, earlier),
            self.learn_attempts < u64::MAX,
            s.trails_like(self),
            s.ahead().len() > 0,
        ensures
            self.newly_sent(self.ticked(now), Kind::Learn) == asked,
            s.in_turn((self.learn_attempts + 1) as u64, earlier + asked),
    {
        reveal(State::turn);
        reveal(State::in_turn);
        let asked = self.lemma_tick_learns(now);
        self.lemma_newly_sent(self.ticked(now), Kind::Learn, asked);
        s.lemma_same_ahead(self);
        assert(asked[0]->to == s.turn(earlier.len() as int));
        asked
    }

    /// What a tick does about catching up.
    proof fn lemma_tick_learns(self, now: u64) -> (asked: Seq<ActionView>)
        requires
            self.wf(),
            self.m.n >= 2,
            self.rested(),
        ensures
            ({
                let t = self.ticked(now);
                let due = self.learn_in_flight is None || self.overdue(now);
                let attempts = if self.overdue(now) {
                    self.learn_attempts.wrapping_add(1)
                } else {
                    self.learn_attempts
                };
                let m = self.ahead().len();
                &&& t.config == self.config
                &&& t.m == self.m
                &&& t.decided == self.decided
                &&& t.peer_acked == self.peer_acked
                &&& t.learn_attempts == attempts
                &&& sent_of(t.actions, Kind::Learn) == sent_of(self.actions, Kind::Learn) + asked
                &&& due && m > 0 ==> {
                    &&& asked.len() == 1
                    &&& self.asks(self.ahead()[attempts as int % m as int], asked[0])
                    &&& t.learn_in_flight == Some(
                        (self.ahead()[attempts as int % m as int] as usize, now),
                    )
                }
                &&& due && m == 0 ==> asked.len() == 0 && t.learn_in_flight is None
                &&& !due ==> asked.len() == 0 && t.learn_in_flight == self.learn_in_flight
            }),
    {
        self.lemma_tick_middle_proposes(now);
        let s4 = self.tick_middle(now);
        let s5 = s4.reforwarded(now);
        s4.lemma_reforwarded_follows(now);
        s4.lemma_reforwarded_kind(now, Kind::Learn);
        let e = s5.learn_expired(now);
        let s6 = s5.learn_ticked(now);
        s5.lemma_learn_ticked_follows(now);
        s6.lemma_pinged_follows(now);
        let s7 = State { last_ping: now, ..s6 };
        s7.lemma_send_upto_kind(s7.m.n as nat, |idx: int| PayloadView::Ping, Kind::Learn);
        let t = self.ticked(now);
        assert(t == s6.pinged(now));
        assert(sent_of(s5.actions, Kind::Learn) == sent_of(self.actions, Kind::Learn));
        assert forall|j: int| #[trigger] self.is_ahead(j) == e.is_ahead(j) by {}
        self.lemma_same_ahead(e);
        self.lemma_ahead_members();
        let m = self.ahead().len();
        if e.learn_in_flight is None && m > 0 {
            let x = e.learn_attempts as int % m as int;
            assert(0 <= x < m) by (nonlinear_arith)
                requires
                    x == e.learn_attempts as int % m as int,
                    m > 0,
            ;
            let idx = e.ahead()[x];
            assert(e.is_ahead(idx));
            let f = State { learn_in_flight: Some((idx as usize, now)), ..e };
            let p = PayloadView::Learn { from_slot: Slot((e.decided + 1) as u64) };
            f.lemma_send_kind(idx, p, Kind::Learn);
            let asked = seq![f.send(idx, p).actions.last()];
            assert(s6 == f.send(idx, p));
            assert(sent_of(t.actions, Kind::Learn) =~= sent_of(self.actions, Kind::Learn) + asked);
            asked
        } else {
            assert(s6 == e);
            assert(sent_of(t.actions, Kind::Learn) =~= sent_of(self.actions, Kind::Learn)
                + Seq::empty());
            Seq::empty()
        }
    }

    /// A tick asks for what a replica lacks exactly if it knows of another
    /// that has decided more, and has asked nobody or waited for the answer as
    /// long as the retransmission delay. It asks one such replica, for the
    /// slots after its watermark.
    pub proof fn ticks_ask_when_behind(self, now: u64) -> (j: int)
        requires
            self.wf(),
            self.m.n >= 2,
            self.rested(),
        ensures
            ({
                let t = self.ticked(now);
                let asked = self.newly_sent(t, Kind::Learn);
                let waits = self.learn_in_flight is Some && !self.overdue(now);
                let behind = exists|i: int| #[trigger] self.is_ahead(i);
                &&& behind && !waits ==> asked.len() == 1 && self.is_ahead(j) && self.asks(
                    j,
                    asked[0],
                ) && t.learn_in_flight == Some((j as usize, now))
                &&& !behind || waits ==> asked.len() == 0
            }),
    {
        let asked = self.lemma_tick_learns(now);
        let t = self.ticked(now);
        self.lemma_newly_sent(t, Kind::Learn, asked);
        self.lemma_ahead_members();
        if exists|i: int| #[trigger] self.is_ahead(i) {
            let i = choose|i: int| #[trigger] self.is_ahead(i);
            assert(self.ahead().contains(i));
            let m = self.ahead().len();
            let x = t.learn_attempts as int % m as int;
            assert(0 <= x < m) by (nonlinear_arith)
                requires
                    x == t.learn_attempts as int % m as int,
                    m > 0,
            ;
            self.ahead()[x]
        } else {
            if self.ahead().len() > 0 {
                assert(self.is_ahead(self.ahead()[0]));
            }
            0
        }
    }

    proof fn lemma_decide_learns(self, now: u64, slot: u64, value: Seq<u8>, is_decider: bool)
        requires
            self.wf(),
            self.m.n >= 2,
            self.rested(),
        ensures
            ({
                let t = self.decide(now, slot, value, is_decider);
                &&& sent_of(t.actions, Kind::Learn) == sent_of(self.actions, Kind::Learn)
                &&& t.learn_in_flight == self.learn_in_flight
            }),
    {
        let t = self.settled(now, slot, value, is_decider);
        self.lemma_settled_frame(now, slot, value, is_decider);
        if self.settles(slot, value, is_decider) {
            let s = self.observed(now, slot);
            self.lemma_observed_wf(now, slot);
            let s1 = s.installed(slot, value);
            s.lemma_installed_wf(slot, value);
            let f = |idx: int| PayloadView::Decide { slot: Slot(slot), value };
            s1.lemma_send_all_wf(f);
            s1.lemma_send_upto_kind(s1.m.n as nat, f, Kind::Learn);
            let s2 = if is_decider {
                s1.send_all(f)
            } else {
                s1
            };
            s2.lemma_released_wf(slot, batch_of(value));
            let s3 = s2.released(slot, batch_of(value)).refreshed(now);
            s3.lemma_delivered_wf();
            s3.lemma_delivered_sends(Kind::Learn);
            let s5 = s3.delivered().acknowledged().refreshed(now);
            assert(s5.wf());
            s5.lemma_gced_wf();
            assert(t == s5.gced());
            self.lemma_settled_wf(now, slot, value, is_decider);
            self.lemma_settled_emits(now, slot, value, is_decider, 0);
            t.lemma_opened_proposes(now);
        }
    }

    proof fn lemma_learned_learns(self, now: u64, first: u64, values: Seq<Seq<u8>>)
        requires
            self.wf(),
            self.m.n >= 2,
            self.rested(),
        ensures
            ({
                let t = self.learned(now, first, values);
                &&& sent_of(t.actions, Kind::Learn) == sent_of(self.actions, Kind::Learn)
                &&& t.learn_in_flight == self.learn_in_flight
            }),
        decreases values.len(),
    {
        if values.len() > 0 {
            let init = values.drop_last();
            self.lemma_learned_learns(now, first, init);
            self.lemma_learned_wf(now, first, init);
            let _ = self.lemma_learned_emits(now, first, init, 0);
            let slot = first + values.len() - 1;
            if slot <= u64::MAX {
                self.learned(now, first, init).lemma_decide_learns(
                    now,
                    slot as u64,
                    values.last(),
                    false,
                );
            }
        }
    }

    /// Acting on a payload asks for nothing; a reply to a request settles it.
    proof fn lemma_handled_learns(self, now: u64, idx: int, payload: PayloadView)
        requires
            self.wf(),
            self.m.n >= 2,
            self.rested(),
            0 <= idx < self.m.n,
        ensures
            ({
                let t = self.handled(now, idx, payload);
                &&& sent_of(t.actions, Kind::Learn) == sent_of(self.actions, Kind::Learn)
                &&& t.learn_in_flight == (if payload is LearnReply {
                    None
                } else {
                    self.learn_in_flight
                })
            }),
    {
        match payload {
            PayloadView::Record { slot, step, proposal } => {
                let o = self.observed(now, slot.0);
                let r = State {
                    slots: o.slots.insert(slot.0, o.slots[slot.0].recorded(now, step, proposal)),
                    ..o
                };
                r.lemma_send_kind(
                    idx,
                    o.slots[slot.0].record_reply(slot, step, proposal),
                    Kind::Learn,
                );
            },
            PayloadView::RecordReply { slot, req_step, step, first, prior_agg } => {
                let k = slot.0;
                if self.slots.contains_key(k) {
                    let s = self.answered(now, idx, k, req_step, step, first, prior_agg);
                    self.lemma_answered_state_wf(now, idx, k, req_step, step, first, prior_agg);
                    self.lemma_answered_poised(now, idx, k, req_step, step, first, prior_agg);
                    match self.slots[k].answer_progress(
                        self.m,
                        idx,
                        req_step,
                        step,
                        first,
                        prior_agg,
                    ) {
                        ProgressView::Wait => {},
                        ProgressView::Send => {
                            s.lemma_drive_proposes(now, k);
                        },
                        ProgressView::Decided(value) => {
                            s.lemma_decide_learns(now, k, value, true);
                        },
                    }
                }
            },
            PayloadView::Decide { slot, value } => {
                self.lemma_decide_learns(now, slot.0, value, false);
            },
            PayloadView::Forward { commands } => {
                let s = self.pooled(now, commands).refreshed(now);
                self.lemma_pooled_wf(now, commands);
                s.lemma_opened_proposes(now);
            },
            PayloadView::Learn { from_slot } => {
                self.lemma_send_kind(
                    idx,
                    PayloadView::LearnReply {
                        first_slot: from_slot,
                        values: chunk_of(self.retained, from_slot.0, self.decided, 0),
                    },
                    Kind::Learn,
                );
            },
            PayloadView::LearnReply { first_slot, values } => {
                let s = State { learn_in_flight: None, ..self };
                assert(s.wf());
                assert(s.rested());
                s.lemma_learned_learns(now, first_slot.0, values);
            },
            PayloadView::Ping => {},
        }
    }

    /// A replica that hears of a watermark beyond its own, when it is done with
    /// the message, asks the sender for the slots after its own, unless a
    /// request of its is outstanding that is neither overdue nor answered by
    /// the message. It asks for nothing otherwise.
    pub proof fn messages_make_replicas_ask(self, now: u64, message: MessageView)
        requires
            self.wf(),
            self.m.n >= 2,
            self.rested(),
            self.has_peer(message.from),
        ensures
            ({
                let t = self.received(now, message);
                let asked = self.newly_sent(t, Kind::Learn);
                let behind = message.decided.0 > t.decided;
                let waits = self.learn_in_flight is Some && !self.overdue(now) && !(
                message.payload is LearnReply);
                &&& behind ==> t.learn_in_flight is Some
                &&& behind && !waits ==> asked.len() == 1 && asked[0] == (ActionView::Send {
                    to: message.from,
                    message: MessageView {
                        from: self.config.me,
                        decided: Slot(t.decided),
                        payload: PayloadView::Learn { from_slot: Slot((t.decided + 1) as u64) },
                    },
                })
                &&& !behind || waits ==> asked.len() == 0
            }),
    {
        self.lemma_noted(message);
        let idx = self.index(message.from);
        let s = self.noted(idx, message.decided.0);
        assert(s.rested());
        s.lemma_handled_wf(now, idx, message.payload);
        s.lemma_handled_learns(now, idx, message.payload);
        let u = s.handled(now, idx, message.payload);
        u.lemma_request_learn_wf(now, idx, message.decided.0);
        let v = u.request_learn(now, idx, message.decided.0);
        v.lemma_gced_wf();
        let t = self.received(now, message);
        assert(t == v.gced());
        let q = sent_of(self.actions, Kind::Learn);
        assert(sent_of(u.actions, Kind::Learn) == q);
        if message.decided.0 > u.decided && !u.learn_waits(now) {
            let f = State { learn_in_flight: Some((idx as usize, now)), ..u };
            let p = PayloadView::Learn { from_slot: Slot((u.decided + 1) as u64) };
            f.lemma_send_kind(idx, p, Kind::Learn);
            assert(v == f.send(idx, p));
            let asked = seq![v.actions.last()];
            assert(sent_of(t.actions, Kind::Learn) =~= q + asked);
            self.lemma_newly_sent(t, Kind::Learn, asked);
        } else {
            assert(v == u);
            assert(sent_of(t.actions, Kind::Learn) =~= q + Seq::empty());
            self.lemma_newly_sent(t, Kind::Learn, Seq::empty());
        }
    }

    /// Watermarks are taken note of: after a message, a replica counts as
    /// having decided what it says in the message or what was known before,
    /// whichever is more, and so does every other.
    pub proof fn watermarks_are_noted(self, now: u64, message: MessageView, j: int)
        requires
            self.wf(),
            self.has_peer(message.from),
            0 <= j < self.m.n,
            j != self.m.me_idx,
            self.m.n >= 2,
            self.rested(),
        ensures
            ({
                let t = self.received(now, message);
                let told = self.config.replicas[j] == message.from && message.decided.0
                    > self.peer_acked[j];
                t.peer_acked[j] == if told {
                    message.decided.0
                } else {
                    self.peer_acked[j]
                }
            }),
    {
        self.lemma_index(message.from);
        let idx = self.index(message.from);
        let s = self.noted(idx, message.decided.0);
        assert(s.wf());
        assert(s.rested());
        s.lemma_handled_wf(now, idx, message.payload);
        s.lemma_handled_acks(now, idx, message.payload, j);
        let t = s.handled(now, idx, message.payload);
        t.lemma_request_learn_wf(now, idx, message.decided.0);
        t.request_learn(now, idx, message.decided.0).lemma_gced_wf();
        let q = self.config.replicas;
        if j < idx {
            assert(Key::rank(q[j]) < Key::rank(q[idx]));
        } else if idx < j {
            assert(Key::rank(q[idx]) < Key::rank(q[j]));
        }
    }

    proof fn lemma_settled_acks(
        self,
        now: u64,
        slot: u64,
        value: Seq<u8>,
        is_decider: bool,
        j: int,
    )
        requires
            self.wf(),
            j != self.m.me_idx,
            0 <= j < self.m.n,
        ensures
            self.settled(now, slot, value, is_decider).peer_acked[j] == self.peer_acked[j],
    {
        if !self.drops(slot, value, is_decider) {
            self.lemma_observed_wf(now, slot);
            let s = self.observed(now, slot);
            if !s.slots[slot].is_decided() {
                let s1 = s.installed(slot, value);
                s.lemma_installed_wf(slot, value);
                let f = |idx: int| PayloadView::Decide { slot: Slot(slot), value };
                s1.lemma_send_all_wf(f);
                s1.lemma_send_upto_frame(s1.m.n as nat, f);
                let s2 = if is_decider {
                    s1.send_all(f)
                } else {
                    s1
                };
                s2.lemma_released_wf(slot, crate::state::batch_of(value));
                let s3 = s2.released(slot, crate::state::batch_of(value)).refreshed(now);
                s3.lemma_delivered_wf();
                s3.lemma_delivered_frame();
                let s5 = s3.delivered().acknowledged().refreshed(now);
                assert(s5.wf());
                s5.lemma_gced_wf();
            }
        }
    }

    proof fn lemma_decide_acks(
        self,
        now: u64,
        slot: u64,
        value: Seq<u8>,
        is_decider: bool,
        j: int,
    )
        requires
            self.wf(),
            self.m.n >= 2,
            self.rested(),
            j != self.m.me_idx,
            0 <= j < self.m.n,
        ensures
            self.decide(now, slot, value, is_decider).peer_acked[j] == self.peer_acked[j],
    {
        self.lemma_settled_acks(now, slot, value, is_decider, j);
        self.lemma_settled_wf(now, slot, value, is_decider);
        self.lemma_settled_emits(now, slot, value, is_decider, 0);
        if self.settles(slot, value, is_decider) {
            self.settled(now, slot, value, is_decider).lemma_opened_proposes(now);
        }
    }

    proof fn lemma_learned_acks(self, now: u64, first: u64, values: Seq<Seq<u8>>, j: int)
        requires
            self.wf(),
            self.m.n >= 2,
            self.rested(),
            j != self.m.me_idx,
            0 <= j < self.m.n,
        ensures
            self.learned(now, first, values).peer_acked[j] == self.peer_acked[j],
        decreases values.len(),
    {
        if values.len() > 0 {
            let init = values.drop_last();
            self.lemma_learned_acks(now, first, init, j);
            self.lemma_learned_wf(now, first, init);
            let _ = self.lemma_learned_emits(now, first, init, 0);
            let slot = first + values.len() - 1;
            if slot <= u64::MAX {
                self.learned(now, first, init).lemma_decide_acks(
                    now,
                    slot as u64,
                    values.last(),
                    false,
                    j,
                );
            }
        }
    }

    proof fn lemma_handled_acks(self, now: u64, idx: int, payload: PayloadView, j: int)
        requires
            self.wf(),
            self.m.n >= 2,
            self.rested(),
            0 <= idx < self.m.n,
            j != self.m.me_idx,
            0 <= j < self.m.n,
        ensures
            self.handled(now, idx, payload).peer_acked[j] == self.peer_acked[j],
    {
        match payload {
            PayloadView::RecordReply { slot, req_step, step, first, prior_agg } => {
                let k = slot.0;
                if self.slots.contains_key(k) {
                    let s = self.answered(now, idx, k, req_step, step, first, prior_agg);
                    self.lemma_answered_state_wf(now, idx, k, req_step, step, first, prior_agg);
                    self.lemma_answered_poised(now, idx, k, req_step, step, first, prior_agg);
                    match self.slots[k].answer_progress(
                        self.m,
                        idx,
                        req_step,
                        step,
                        first,
                        prior_agg,
                    ) {
                        ProgressView::Wait => {},
                        ProgressView::Send => {
                            s.lemma_drive_frame(now, k);
                        },
                        ProgressView::Decided(value) => {
                            s.lemma_decide_acks(now, k, value, true, j);
                        },
                    }
                }
            },
            PayloadView::Decide { slot, value } => {
                self.lemma_decide_acks(now, slot.0, value, false, j);
            },
            PayloadView::Forward { commands } => {
                let s = self.pooled(now, commands).refreshed(now);
                self.lemma_pooled_wf(now, commands);
                s.lemma_opened_proposes(now);
            },
            PayloadView::LearnReply { first_slot, values } => {
                let s = State { learn_in_flight: None, ..self };
                s.lemma_learned_acks(now, first_slot.0, values, j);
            },
            _ => {},
        }
    }
}

impl Lifetime {
    /// Whether the last of `inputs` is a tick that finds a catch-up request
    /// overdue.
    #[verifier::opaque]
    pub open spec fn expires(self, inputs: Seq<Input>) -> bool {
        inputs.last() matches Input::Tick { now } && self.run(inputs.drop_last()).state.overdue(now)
    }

    /// The requests that the ticks among `inputs`, given after `before`, send
    /// because an earlier one is overdue.
    #[verifier::opaque]
    pub open spec fn retries(self, before: Seq<Input>, inputs: Seq<Input>) -> Seq<ActionView>
        decreases inputs.len(),
    {
        if inputs.len() == 0 {
            Seq::empty()
        } else {
            let all = before + inputs;
            let earlier = self.retries(before, inputs.drop_last());
            if self.expires(all) {
                earlier + self.run(all.drop_last()).state.newly_sent(
                    self.run(all).state,
                    Kind::Learn,
                )
            } else {
                earlier
            }
        }
    }

    /// Whether the same replicas are ahead of this one after `before` and all
    /// along `inputs`.
    pub open spec fn stays_behind(self, before: Seq<Input>, inputs: Seq<Input>) -> bool {
        forall|x: int|
            0 <= x <= inputs.len() ==> self.run(before).state.trails_like(
                (#[trigger] self.run(before + inputs.take(x))).state,
            )
    }

    /// The state after `inputs`.
    #[verifier::opaque]
    spec fn at(self, inputs: Seq<Input>) -> State {
        self.run(inputs).state
    }

    /// The number of attempts counts the overdue requests.
    proof fn lemma_attempts(config: ConfigView, m: Member, inputs: Seq<Input>)
        requires
            belongs(config, m),
            m.n >= 2,
            inputs.len() > 0,
        ensures
            ({
                let l = Lifetime::begun(config, m);
                let s = l.at(inputs.drop_last());
                let t = l.at(inputs);
                t.learn_attempts == if l.expires(inputs) {
                    s.learn_attempts.wrapping_add(1)
                } else {
                    s.learn_attempts
                }
            }),
    {
        reveal(Lifetime::at);
        reveal(Lifetime::expires);
        let init = inputs.drop_last();
        let s = Lifetime::begun(config, m).run(init).state;
        Lifetime::replicas_stay_sound(config, m, init);
        Lifetime::lemma_rested(config, m, init);
        Lifetime::lemma_same_place(config, m, init);
        match inputs.last() {
            Input::Submit { now, data } => {
                if s.submit_error(data.len()) is None && s.next_seq < u64::MAX {
                    s.lemma_enqueued_wf(now, data);
                    s.enqueued(now, data).lemma_opened_wf(now);
                }
            },
            Input::Receive { now, message } => {
                s.lemma_received_wf(now, message);
            },
            Input::Tick { now } => {
                let _ = s.lemma_tick_learns(now);
            },
            Input::Poll => {},
        }
    }

    /// One more input adds to the retries what it sends if it finds a request
    /// overdue.
    proof fn lemma_retried(self, before: Seq<Input>, inputs: Seq<Input>)
        requires
            inputs.len() > 0,
        ensures
            self.retries(before, inputs) == (if self.expires(before + inputs) {
                self.retries(before, inputs.drop_last()) + self.at(
                    before + inputs.drop_last(),
                ).newly_sent(self.at(before + inputs), Kind::Learn)
            } else {
                self.retries(before, inputs.drop_last())
            }),
    {
        reveal(Lifetime::retries);
        reveal(Lifetime::at);
        assert((before + inputs).drop_last() =~= before + inputs.drop_last());
    }

    proof fn lemma_retry_at(
        config: ConfigView,
        m: Member,
        before: Seq<Input>,
        later: Seq<Input>,
        earlier: Seq<ActionView>,
    )
        requires
            belongs(config, m),
            m.n >= 2,
            later.len() > 0,
            ({
                let l = Lifetime::begun(config, m);
                let s = l.at(before);
                let u = l.at(later.drop_last());
                &&& s.ahead().len() > 0
                &&& s.trails_like(u)
                &&& l.expires(later)
                &&& s.in_turn(u.learn_attempts, earlier)
                &&& u.learn_attempts < u64::MAX
            }),
        ensures
            ({
                let l = Lifetime::begun(config, m);
                let u = l.at(later.drop_last());
                let asked = u.newly_sent(l.at(later), Kind::Learn);
                l.at(before).in_turn((u.learn_attempts + 1) as u64, earlier + asked)
            }),
    {
        reveal(Lifetime::at);
        reveal(Lifetime::expires);
        let init = later.drop_last();
        let s = Lifetime::begun(config, m).run(before).state;
        let u = Lifetime::begun(config, m).run(init).state;
        Lifetime::replicas_stay_sound(config, m, init);
        Lifetime::lemma_rested(config, m, init);
        Lifetime::lemma_same_place(config, m, init);
        Lifetime::lemma_same_place(config, m, before);
        Lifetime::lemma_same_config(config, m, init);
        Lifetime::lemma_same_config(config, m, before);
        if let Input::Tick { now } = later.last() {
            let _ = u.lemma_retry(s, now, earlier);
        }
    }

    proof fn lemma_retries(config: ConfigView, m: Member, before: Seq<Input>, inputs: Seq<Input>)
        requires
            belongs(config, m),
            m.n >= 2,
            forall|x: int|
                0 <= x <= inputs.len() ==> Lifetime::begun(config, m).at(before).trails_like(
                    #[trigger] Lifetime::begun(config, m).at(before + inputs.take(x)),
                ),
            Lifetime::begun(config, m).at(before).learn_attempts + inputs.len() <= u64::MAX,
            Lifetime::begun(config, m).at(before).ahead().len() > 0,
        ensures
            ({
                let l = Lifetime::begun(config, m);
                let q = l.retries(before, inputs);
                &&& q.len() <= inputs.len()
                &&& l.at(before).in_turn(l.at(before + inputs).learn_attempts, q)
            }),
        decreases inputs.len(),
    {
        let l = Lifetime::begun(config, m);
        let s = l.at(before);
        if inputs.len() == 0 {
            reveal(State::in_turn);
            reveal(Lifetime::retries);
            assert(before + inputs =~= before);
        } else {
            let init = inputs.drop_last();
            let x = inputs.len() - 1;
            assert forall|y: int| 0 <= y <= init.len() implies s.trails_like(
                #[trigger] l.at(before + init.take(y)),
            ) by {
                assert(init.take(y) =~= inputs.take(y));
            }
            Lifetime::lemma_retries(config, m, before, init);
            assert(inputs.take(x) =~= init);
            assert(s.trails_like(l.at(before + inputs.take(x))));
            assert((before + inputs).drop_last() =~= before + init);
            let earlier = l.retries(before, init);
            let u = l.at(before + init);
            assert(u.learn_attempts == s.learn_attempts + earlier.len()) by {
                reveal(State::in_turn);
            }
            Lifetime::lemma_attempts(config, m, before + inputs);
            l.lemma_retried(before, inputs);
            if l.expires(before + inputs) {
                Lifetime::lemma_retry_at(config, m, before, before + inputs, earlier);
            }
            assert(l.retries(before, inputs).len() <= inputs.len()) by {
                reveal(State::in_turn);
            }
        }
    }

    /// Retries of catch-up rotate, so that a dead replica cannot pin it. While
    /// the same `n` replicas are ahead of this one, the requests that its ticks
    /// send because an earlier one is overdue go to them in turn: of any `n` in
    /// a row, no two go to the same, and each of the `n` is asked. (The number
    /// of attempts does not run out.)
    pub proof fn catch_up_retries_rotate(
        config: ConfigView,
        m: Member,
        before: Seq<Input>,
        inputs: Seq<Input>,
        first: int,
    )
        requires
            belongs(config, m),
            m.n >= 2,
            Lifetime::begun(config, m).stays_behind(before, inputs),
            Lifetime::begun(config, m).run(before).state.learn_attempts + inputs.len() <= u64::MAX,
        ensures
            ({
                let l = Lifetime::begun(config, m);
                let s = l.run(before).state;
                let q = l.retries(before, inputs);
                let peers = Set::new(|j: int| s.is_ahead(j));
                let n = peers.len();
                &&& forall|i: int, j: int|
                    0 <= i < j < q.len() && j - i < n ==> (#[trigger] q[i])->to != (
                    #[trigger] q[j])->to
                &&& 0 <= first && first + n <= q.len() ==> forall|p: int| #[trigger]
                    s.is_ahead(p) ==> exists|i: int|
                        first <= i < first + n && (#[trigger] q[i])->to == config.replicas[p]
            }),
    {
        let l = Lifetime::begun(config, m);
        let s = l.run(before).state;
        let q = l.retries(before, inputs);
        let peers = Set::new(|j: int| s.is_ahead(j));
        let ahead = s.ahead();
        s.lemma_ahead_members();
        assert(ahead.to_set() =~= peers) by {
            assert forall|j: int| ahead.to_set().contains(j) <==> peers.contains(j) by {
                if ahead.contains(j) {
                    let x = choose|x: int| 0 <= x < ahead.len() && ahead[x] == j;
                    assert(s.is_ahead(ahead[x]));
                }
                if peers.contains(j) {
                    assert(s.is_ahead(j));
                }
            }
        }
        assert(ahead.no_duplicates());
        ahead.unique_seq_to_set();
        let n = ahead.len() as int;
        assert(peers.len() == n);
        if n > 0 {
            reveal(Lifetime::at);
            assert forall|x: int| 0 <= x <= inputs.len() implies l.at(before).trails_like(
                #[trigger] l.at(before + inputs.take(x)),
            ) by {
                assert(s.trails_like(l.run(before + inputs.take(x)).state));
            }
            Lifetime::lemma_retries(config, m, before, inputs);
            reveal(State::in_turn);
            Lifetime::replicas_stay_sound(config, m, before);
            Lifetime::lemma_same_config(config, m, before);
            assert forall|i: int, j: int| 0 <= i < j < q.len() && j - i < n implies (
            #[trigger] q[i])->to != (#[trigger] q[j])->to by {
                s.lemma_turns_differ(i, j);
            }
            if 0 <= first && first + n <= q.len() {
                assert forall|p: int| #[trigger] s.is_ahead(p) implies exists|i: int|
                    first <= i < first + n && (#[trigger] q[i])->to == config.replicas[p] by {
                    let i = s.lemma_has_turn(first, p);
                    assert(q[i]->to == s.turn(i));
                }
            }
        } else {
            assert forall|i: int, j: int| 0 <= i < j < q.len() && j - i < peers.len() implies (
            #[trigger] q[i])->to != (#[trigger] q[j])->to by {}
        }
    }
}

impl State {
    proof fn lemma_turns_differ(self, i: int, j: int)
        requires
            self.wf(),
            i < j,
            j - i < self.ahead().len(),
        ensures
            self.turn(i) != self.turn(j),
    {
        reveal(State::turn);
        self.lemma_ahead_members();
        let n = self.ahead().len() as int;
        let a = self.learn_attempts + 1;
        let x = (a + i) % n;
        let y = (a + j) % n;
        lemma_turns(a + i, a + j, n);
        let ids = self.config.replicas;
        let px = self.ahead()[x];
        let py = self.ahead()[y];
        assert(self.is_ahead(px) && self.is_ahead(py));
        if x < y {
            assert(px < py);
            assert(Key::rank(ids[px]) < Key::rank(ids[py]));
        } else {
            assert(py < px);
            assert(Key::rank(ids[py]) < Key::rank(ids[px]));
        }
    }

    proof fn lemma_has_turn(self, first: int, p: int) -> (i: int)
        requires
            self.is_ahead(p),
        ensures
            first <= i < first + self.ahead().len(),
            self.turn(i) == self.config.replicas[p],
    {
        reveal(State::turn);
        self.lemma_ahead_members();
        let ahead = self.ahead();
        assert(ahead.contains(p));
        let x = choose|x: int| 0 <= x < ahead.len() && ahead[x] == p;
        first + lemma_turn_of(self.learn_attempts + 1 + first, x, ahead.len() as int)
    }
}

/// Numbers less than `n` apart leave different remainders.
proof fn lemma_turns(x: int, y: int, n: int)
    requires
        n > 0,
        x < y,
        y - x < n,
    ensures
        0 <= x % n < n,
        0 <= y % n < n,
        x % n != y % n,
{
    vstd::arithmetic::div_mod::lemma_fundamental_div_mod(x, n);
    vstd::arithmetic::div_mod::lemma_fundamental_div_mod(y, n);
    vstd::arithmetic::div_mod::lemma_mod_bound(x, n);
    vstd::arithmetic::div_mod::lemma_mod_bound(y, n);
    if x % n == y % n {
        let d = y / n - x / n;
        assert(n * (y / n) - n * (x / n) == n * d) by (nonlinear_arith)
            requires
                d == y / n - x / n,
        ;
        assert(d <= 0 || n * d >= n) by (nonlinear_arith)
            requires
                n > 0,
        ;
        assert(d > 0 || n * d <= 0) by (nonlinear_arith)
            requires
                n > 0,
        ;
    }
}

/// Some number among `n` in a row leaves the remainder `x`.
proof fn lemma_turn_of(a: int, x: int, n: int) -> (i: int)
    requires
        n > 0,
        0 <= x < n,
    ensures
        0 <= i < n,
        (a + i) % n == x,
{
    vstd::arithmetic::div_mod::lemma_mod_bound(a, n);
    vstd::arithmetic::div_mod::lemma_fundamental_div_mod(a, n);
    let r = a % n;
    let i = if x >= r {
        x - r
    } else {
        x - r + n
    };
    if x >= r {
        assert(a + i == (a / n) * n + x) by (nonlinear_arith)
            requires
                a == n * (a / n) + r,
                i == x - r,
        ;
        vstd::arithmetic::div_mod::lemma_fundamental_div_mod_converse(a + i, n, a / n, x);
    } else {
        assert(a + i == (a / n + 1) * n + x) by (nonlinear_arith)
            requires
                a == n * (a / n) + r,
                i == x - r + n,
        ;
        vstd::arithmetic::div_mod::lemma_fundamental_div_mod_converse(a + i, n, a / n + 1, x);
    }
    i
}

} // verus!
