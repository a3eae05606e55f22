//! Wakeups: every deadline that a replica advertises lies ahead of the last
//! tick.

use vstd::prelude::*;

use crate::config::ConfigView;
use crate::lifetime::{belongs, Input, Lifetime};
use crate::proposer::{Member, ProposerView};
use crate::sorted::{ascending, lemma_ascending, lemma_filter_ascends};
use crate::state::{Chunks, State, PING_INTERVAL};
use crate::types::{Command, CommandId};
use crate::wire::PayloadView;

verus! {

impl State {
    /// A deadline that is not overdue lies ahead.
    proof fn lemma_ahead(now: u64, since: u64, delay: u64)
        requires
            now < u64::MAX,
            delay >= 1,
            since == now || now.saturating_sub(since) < delay,
        ensures
            since.saturating_add(delay) > now,
    {
    }

    /// With nothing pending and no slot known beyond the watermark, a tick
    /// leaves slots and pool alone.
    proof fn lemma_idle_tick(self, now: u64)
        requires
            self.wf(),
            self.coherent(),
            self.pending_since is None,
            self.decided < u64::MAX,
            !self.known_from((self.decided + 1) as u64),
        ensures
            self.tick_middle(now).slots == self.slots,
            self.tick_middle(now).pending_since is None,
    {
        let s1 = self.frontier_observed(now);
        assert(s1 == self);
        let dom = self.slots.dom();
        lemma_ascending(dom);
        let keys = ascending(dom);
        assert forall|k: u64| keys.contains(k) implies k <= self.decided by {
            assert(keys.to_set().contains(k));
            assert(self.slots.contains_key(k));
        }
        let due = |k: u64| s1.hedges(k) && now >= s1.hedge_deadline(s1.slots[k]);
        lemma_filter_ascends(keys, due);
        assert(s1.hedge_due(now) =~= Seq::empty()) by {
            if s1.hedge_due(now).len() > 0 {
                assert(keys.filter(due).contains(keys.filter(due)[0]));
            }
        }
        let s2 = s1.hedged(now);
        assert(s2 == s1);
        s2.lemma_eligible();
        assert(s2.next_batch().len() == 0) by {
            crate::invariants::lemma_fitting(
                s2.eligible(),
                s2.config.max_batch_bytes as nat,
            );
            if s2.eligible().len() > 0 {
                let c = s2.eligible()[0];
                assert(s2.pool.entries.contains_key(c.0));
                assert(s2.pool.has_unassigned());
            }
        }
        let s3 = s2.opened(now);
        assert(s3.slots == self.slots && s3.decided == self.decided);
        let stale = |k: u64|
            k > s3.decided && (s3.slots[k].proposer matches ProposerView::Running(run)
                && now.saturating_sub(run.sent_at) >= s3.config.retransmit_delay);
        lemma_filter_ascends(keys, stale);
        assert(s3.stale(now) =~= Seq::empty()) by {
            if s3.stale(now).len() > 0 {
                assert(keys.filter(stale).contains(keys.filter(stale)[0]));
            }
        }
    }

    /// After the parts of a tick that may deliver, every slot's deadline lies
    /// ahead, if the watermark has not moved.
    proof fn lemma_slot_deadlines(self, now: u64, k: u64, at: u64)
        requires
            self.wf(),
            now < u64::MAX,
            self.tick_middle(now).decided == self.decided,
            self.tick_middle(now).slots.contains_key(k),
            self.tick_middle(now).slot_deadline(k, at),
        ensures
            at > now,
    {
        let s1 = self.frontier_observed(now);
        self.lemma_frontier_follows(now);
        let _ = s1.lemma_hedged_follows(now);
        let s2 = s1.hedged(now);
        let _ = s2.lemma_opened_follows(now);
        s2.lemma_opened_wf(now);
        let s3 = s2.opened(now);
        let stale = s3.stale(now);
        let _ = s3.lemma_resend_each_follows(now, stale);
        s3.lemma_resend_each_wf(now, stale);
        let s4 = self.tick_middle(now);
        assert(s3.slot_follows(s4, k, now));
        match s4.slots[k].proposer {
            ProposerView::Running(run) => {
                if run.sent_at != now {
                    assert(s3.slots.contains_key(k));
                    let pred = |x: u64|
                        x > s3.decided && (s3.slots[x].proposer matches ProposerView::Running(r)
                            && now.saturating_sub(r.sent_at) >= s3.config.retransmit_delay);
                    lemma_ascending(s3.slots.dom());
                    let keys = ascending(s3.slots.dom());
                    lemma_filter_ascends(keys, pred);
                    assert(stale == keys.filter(pred));
                    assert(keys.to_set().contains(k));
                    assert(!stale.contains(k));
                    assert(!pred(k));
                }
                State::lemma_ahead(now, run.sent_at, self.config.retransmit_delay);
            },
            ProposerView::Idle => {
                assert(s2.slot_follows(s3, k, now));
                assert(s1.slot_follows(s2, k, now));
                let due = s1.hedge_due(now);
                let _ = s1.lemma_hedge_each_follows(now, due);
                assert(!due.contains(k));
                let pred = |x: u64| s1.hedges(x) && now >= s1.hedge_deadline(s1.slots[x]);
                lemma_ascending(s1.slots.dom());
                let keys = ascending(s1.slots.dom());
                lemma_filter_ascends(keys, pred);
                assert(due == keys.filter(pred));
                assert(keys.to_set().contains(k));
                assert(!pred(k));
                assert(!s1.slots[k].is_decided());
                assert(s1.hedge_deadline(s1.slots[k]) == s4.hedge_deadline(s4.slots[k]));
            },
            ProposerView::Done => {},
        }
    }

    /// A frontier that has to be materialized, a tick materializes.
    proof fn lemma_frontier_deadlines(self, now: u64, at: u64)
        requires
            self.wf(),
            self.coherent(),
            self.tick_middle(now).decided == self.decided,
        ensures
            !self.tick_middle(now).frontier_deadline(at),
    {
        let s4 = self.tick_middle(now);
        if self.decided < u64::MAX {
            let frontier = (self.decided + 1) as u64;
            let s1 = self.frontier_observed(now);
            self.lemma_frontier_follows(now);
            let _ = s1.lemma_hedged_follows(now);
            let s2 = s1.hedged(now);
            let _ = s2.lemma_opened_follows(now);
            s2.lemma_opened_wf(now);
            let s3 = s2.opened(now);
            let _ = s3.lemma_resend_each_follows(now, s3.stale(now));
            if s1.slots.contains_key(frontier) {
                assert(s2.slots.contains_key(frontier));
                assert(s3.slots.contains_key(frontier));
                assert(s4.slots.contains_key(frontier));
            } else {
                self.lemma_idle_tick(now);
                assert(!s4.known_from(frontier)) by {
                    if s4.known_from(frontier) {
                        let k = choose|k: u64| #[trigger] s4.slots.contains_key(k) && k >= frontier;
                        assert(self.slots.contains_key(k));
                    }
                }
            }
        }
    }

    /// A command that is due is forwarded by a tick.
    proof fn lemma_forward_deadlines(self, now: u64, id: CommandId, at: u64)
        requires
            self.wf(),
            now < u64::MAX,
            self.reforwarded(now).pool.entries.contains_key(id),
            self.reforwarded(now).forward_deadline(id, at),
        ensures
            at > now,
    {
        let t = self.reforwarded(now);
        self.lemma_reforwarded_follows(now);
        let ids = self.forward_due(now);
        let s = self.refreshed_forwards(now, ids);
        s.lemma_send_forwards_frame(self.chunked(ids).flushed(self.m.n as nat));
        assert(t.pool == s.pool);
        assert(self.pool.entries.contains_key(id));
        let dom = self.pool.entries.dom();
        let pred = |x: CommandId|
            self.forwards(x) && now.saturating_sub(self.pool.entries[x].last_forward)
                >= self.forward_interval();
        lemma_ascending(dom);
        let keys = ascending(dom);
        lemma_filter_ascends(keys, pred);
        assert(ids == keys.filter(pred));
        assert(keys.to_set().contains(id));
        assert(ids.contains(id) <==> pred(id));
        State::lemma_ahead(
            now,
            t.pool.entries[id].last_forward,
            self.forward_interval(),
        );
    }

    /// A catch-up request that is due is sent by a tick.
    proof fn lemma_learn_deadlines(self, now: u64, at: u64)
        requires
            self.wf(),
            now < u64::MAX,
            self.learn_ticked(now).learn_deadline(at),
        ensures
            at > now,
    {
        let s = self.learn_expired(now);
        let t = self.learn_ticked(now);
        if s.learn_in_flight is None {
            if s.ahead().len() > 0 {
                let x = s.learn_attempts as int % s.ahead().len() as int;
                assert(0 <= x < s.ahead().len()) by (nonlinear_arith)
                    requires
                        x == s.learn_attempts as int % s.ahead().len() as int,
                        s.ahead().len() > 0,
                ;
                let idx = s.ahead()[x];
                let all = Seq::new(s.m.n as nat, |i: int| i);
                let pred = |i: int| i != s.m.me_idx && s.peer_acked[i] > s.decided;
                assert(all.filter(pred).contains(idx));
                crate::consensus::lemma_filter_members(all, pred, idx);
                assert(t.learn_in_flight == Some((idx as usize, now)));
                State::lemma_ahead(now, now, self.config.retransmit_delay);
            } else {
                assert(t == s);
            }
        } else {
            assert(t == s);
            let (_, sent_at) = s.learn_in_flight->0;
            State::lemma_ahead(now, sent_at, self.config.retransmit_delay);
        }
    }

    /// What the parts of a tick after those that may deliver leave alone.
    pub proof fn lemma_tick_parts(self, now: u64)
        requires
            self.wf(),
        ensures
            ({
                let s4 = self.tick_middle(now);
                let s5 = s4.reforwarded(now);
                let s6 = s5.learn_ticked(now);
                let t = self.ticked(now);
                &&& s4.wf()
                &&& s5.wf()
                &&& t == s6.pinged(now)
                &&& t.m == s4.m && s5.m == s4.m
                &&& t.config == s4.config && s5.config == s4.config
                &&& t.boot == s5.boot
                &&& t.decided == s4.decided && t.decided == s6.decided
                &&& t.slots == s4.slots
                &&& t.pending_since == s4.pending_since
                &&& t.pool == s5.pool
                &&& t.learn_in_flight == s6.learn_in_flight
                &&& t.peer_acked == s6.peer_acked && t.m == s6.m && t.config == s6.config
                &&& t.last_ping == (if s6.m.n > 1 && now.saturating_sub(s6.last_ping)
                    >= PING_INTERVAL {
                    now
                } else {
                    s6.last_ping
                })
            }),
    {
        let _ = self.lemma_tick_middle_follows(now);
        let s4 = self.tick_middle(now);
        s4.lemma_reforwarded_follows(now);
        let s5 = s4.reforwarded(now);
        s5.lemma_learn_ticked_follows(now);
        let s6 = s5.learn_ticked(now);
        s6.lemma_pinged_follows(now);
        let s7 = State { last_ping: now, ..s6 };
        s7.lemma_send_upto_frame(s7.m.n as nat, |idx: int| PayloadView::Ping);
    }

    /// After a tick that does not move the watermark, all deadlines lie ahead.
    proof fn lemma_deadlines_ahead(self, now: u64, at: u64)
        requires
            self.wf(),
            self.coherent(),
            now < u64::MAX,
            self.ticked(now).decided == self.decided,
            self.ticked(now).is_deadline(at),
        ensures
            at > now,
    {
        let t = self.ticked(now);
        self.lemma_tick_parts(now);
        let s4 = self.tick_middle(now);
        let s5 = s4.reforwarded(now);
        let s6 = s5.learn_ticked(now);
        let _ = self.lemma_tick_middle_follows(now);
        if exists|k: u64| #[trigger] t.slots.contains_key(k) && t.slot_deadline(k, at) {
            let k = choose|k: u64| #[trigger]
                t.slots.contains_key(k) && t.slot_deadline(k, at);
            assert(s4.slot_deadline(k, at));
            self.lemma_slot_deadlines(now, k, at);
        } else if t.frontier_deadline(at) {
            assert(s4.frontier_deadline(at)) by {
                assert(t.known_from((t.decided + 1) as u64) == s4.known_from(
                    (t.decided + 1) as u64,
                ));
            }
            self.lemma_frontier_deadlines(now, at);
        } else if exists|id: CommandId| #[trigger]
            t.pool.entries.contains_key(id) && t.forward_deadline(id, at) {
            let id = choose|id: CommandId| #[trigger]
                t.pool.entries.contains_key(id) && t.forward_deadline(id, at);
            assert(s5.forward_deadline(id, at));
            s4.lemma_forward_deadlines(now, id, at);
        } else if t.learn_deadline(at) {
            assert(t.ahead() == s6.ahead());
            assert(s6.learn_deadline(at));
            s5.lemma_learn_deadlines(now, at);
        } else {
            assert(t.ping_deadline(at));
            State::lemma_ahead(now, t.last_ping, PING_INTERVAL);
        }
    }

    proof fn lemma_nothing_flushed(self, k: nat)
        requires
            k <= self.m.n,
        ensures
            Chunks::empty(self.m.n as nat).flushed(k) == Seq::<(int, Seq<Command>)>::empty(),
        decreases k,
    {
        if k > 0 {
            self.lemma_nothing_flushed((k - 1) as nat);
        }
    }

    /// With nothing to forward, forwarding does nothing.
    proof fn lemma_not_reforwarded(self, now: u64)
        requires
            self.wf(),
            !self.m.leads() ==> forall|id: CommandId| #[trigger]
                self.pool.entries.contains_key(id) && self.forwards(id) ==> now.saturating_sub(
                    self.pool.entries[id].last_forward,
                ) < self.forward_interval(),
        ensures
            self.reforwarded(now) == self,
    {
        if !self.m.leads() {
            let dom = self.pool.entries.dom();
            let pred = |x: CommandId|
                self.forwards(x) && now.saturating_sub(self.pool.entries[x].last_forward)
                    >= self.forward_interval();
            lemma_ascending(dom);
            let keys = ascending(dom);
            lemma_filter_ascends(keys, pred);
            let ids = self.forward_due(now);
            assert(ids == keys.filter(pred));
            assert(ids =~= Seq::empty()) by {
                if ids.len() > 0 {
                    assert(keys.filter(pred).contains(ids[0]));
                    assert(keys.to_set().contains(ids[0]));
                    assert(self.pool.entries.contains_key(ids[0]));
                }
            }
            self.lemma_nothing_flushed(self.m.n as nat);
            assert(self.pool.reforwarded(now, ids).entries =~= self.pool.entries);
        }
    }

    /// A tick before every deadline does nothing.
    proof fn lemma_early_tick(self, now: u64)
        requires
            self.wf(),
            self.coherent(),
            self.brimming(),
            self.pending_since matches Some(since) ==> since <= now,
            forall|at: u64| #[trigger] self.is_deadline(at) ==> now < at,
        ensures
            self.ticked(now) == self,
    {
        let dom = self.slots.dom();
        lemma_ascending(dom);
        let keys = ascending(dom);
        assert(self.frontier_observed(now) == self) by {
            let frontier = (self.decided + 1) as u64;
            if self.decided < u64::MAX && !self.slots.contains_key(frontier) {
                if let Some(since) = self.pending_since {
                    assert(self.frontier_deadline(since));
                    assert(self.is_deadline(since));
                } else if self.known_from(frontier) {
                    assert(self.frontier_deadline(0));
                    assert(self.is_deadline(0));
                }
            }
        }
        let due = |k: u64| self.hedges(k) && now >= self.hedge_deadline(self.slots[k]);
        lemma_filter_ascends(keys, due);
        assert(self.hedge_due(now) =~= Seq::empty()) by {
            if self.hedge_due(now).len() > 0 {
                let k = self.hedge_due(now)[0];
                assert(keys.filter(due).contains(k));
                assert(keys.to_set().contains(k));
                assert(self.slots.contains_key(k));
                assert(self.slot_deadline(k, self.hedge_deadline(self.slots[k])));
                assert(self.is_deadline(self.hedge_deadline(self.slots[k])));
            }
        }
        assert(self.hedged(now) == self);
        assert(self.opened(now) == self);
        let stale = |k: u64|
            k > self.decided && (self.slots[k].proposer matches ProposerView::Running(run)
                && now.saturating_sub(run.sent_at) >= self.config.retransmit_delay);
        lemma_filter_ascends(keys, stale);
        assert(self.stale(now) =~= Seq::empty()) by {
            if self.stale(now).len() > 0 {
                let k = self.stale(now)[0];
                assert(keys.filter(stale).contains(k));
                assert(keys.to_set().contains(k));
                assert(self.slots.contains_key(k));
                let at = self.slots[k].proposer->Running_0.sent_at.saturating_add(
                    self.config.retransmit_delay,
                );
                assert(self.slot_deadline(k, at));
                assert(self.is_deadline(at));
            }
        }
        assert(self.retransmitted(now) == self);
        if !self.m.leads() {
            assert forall|id: CommandId| #[trigger]
                self.pool.entries.contains_key(id) && self.forwards(id) implies now.saturating_sub(
                self.pool.entries[id].last_forward,
            ) < self.forward_interval() by {
                let at = self.pool.entries[id].last_forward.saturating_add(self.forward_interval());
                assert(self.forward_deadline(id, at));
                assert(self.is_deadline(at));
            }
        }
        self.lemma_not_reforwarded(now);
        if let Some((_, sent_at)) = self.learn_in_flight {
            let at = sent_at.saturating_add(self.config.retransmit_delay);
            assert(self.learn_deadline(at));
            assert(self.is_deadline(at));
        } else if self.ahead().len() > 0 {
            assert(self.learn_deadline(0));
            assert(self.is_deadline(0));
        }
        assert(self.learn_ticked(now) == self);
        if self.m.n > 1 {
            let at = self.last_ping.saturating_add(PING_INTERVAL);
            assert(self.ping_deadline(at));
            assert(self.is_deadline(at));
        }
        assert(self.pinged(now) == self);
    }
}

impl Lifetime {
    /// Every deadline that has come is retired or advanced by the tick that
    /// services it: after a tick at `now`, whatever the replica was given
    /// before, all deadlines lie after `now`. So a caller that sleeps exactly
    /// until each wakeup makes progress.
    pub proof fn ticks_retire_deadlines(
        config: ConfigView,
        m: Member,
        inputs: Seq<Input>,
        now: u64,
        at: u64,
    )
        requires
            belongs(config, m),
            now < u64::MAX,
            Lifetime::begun(config, m).run(inputs.push(Input::Tick { now })).state.is_deadline(at),
        ensures
            at > now,
    {
        let s = Lifetime::begun(config, m).run(inputs).state;
        let all = inputs.push(Input::Tick { now });
        assert(all.drop_last() =~= inputs);
        Lifetime::replicas_stay_sound(config, m, inputs);
        Lifetime::lemma_same_place(config, m, inputs);
        Lifetime::lemma_last(config, m, all);
        if m.n >= 2 {
            Lifetime::lemma_rested(config, m, inputs);
            let _ = s.lemma_ticked_emits(now, 0);
        } else if s.decided < u64::MAX {
            Lifetime::lemma_at_rest(config, m, inputs);
            s.lemma_solo_ticked(now);
        }
        s.lemma_deadlines_ahead(now, at);
    }

    /// No wakeup is late: whatever a replica was given, a tick before the
    /// earliest time that it advertises does nothing at all. It starts no
    /// proposer, sends nothing, and changes neither slots nor anything else.
    /// (The clock does not run back behind the time since when commands wait.)
    pub proof fn ticks_before_the_wakeup_do_nothing(
        config: ConfigView,
        m: Member,
        inputs: Seq<Input>,
        now: u64,
    )
        requires
            belongs(config, m),
            ({
                let s = Lifetime::begun(config, m).run(inputs).state;
                &&& forall|at: u64| #[trigger] s.is_deadline(at) ==> now < at
                &&& s.pending_since matches Some(since) ==> since <= now
            }),
        ensures
            Lifetime::begun(config, m).run(inputs.push(Input::Tick { now }))
                == Lifetime::begun(config, m).run(inputs),
    {
        let l = Lifetime::begun(config, m).run(inputs);
        let s = l.state;
        assert(inputs.push(Input::Tick { now }).drop_last() =~= inputs);
        Lifetime::replicas_stay_sound(config, m, inputs);
        Lifetime::lemma_same_place(config, m, inputs);
        if m.n >= 2 {
            Lifetime::lemma_brimming(config, m, inputs);
            s.lemma_early_tick(now);
        } else if s.decided < u64::MAX {
            Lifetime::lemma_at_rest(config, m, inputs);
            s.lemma_solo_ticked(now);
        } else {
            s.lemma_early_tick(now);
        }
        assert(l.after(Input::Tick { now }) =~= l);
    }
}

} // verus!
