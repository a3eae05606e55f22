//! What a replica does as time passes: heartbeats, and forwarding again what
//! waits.

use vstd::prelude::*;

use crate::pool::EntryView;
use crate::sending::{sent_of, Kind};
use crate::sorted::{ascending, lemma_ascending, lemma_filter_ascends};
use crate::state::{commands_cost, ActionView, Chunks, State};
use crate::types::{batch_bytes, Command, CommandId, Slot};
use crate::wire::{MessageView, PayloadView};

verus! {

impl State {
    /// Whether `a` is a heartbeat to the replica at `j`.
    pub open spec fn greets(self, j: int, a: ActionView) -> bool {
        a == (ActionView::Send {
            to: self.config.replicas[j],
            message: MessageView {
                from: self.config.me,
                decided: Slot(self.decided),
                payload: PayloadView::Ping,
            },
        })
    }

    /// Whether the replica at `j` gets a heartbeat among `sent`.
    pub open spec fn greeted(self, j: int, sent: Seq<ActionView>) -> bool {
        exists|x: int| 0 <= x < sent.len() && self.greets(j, #[trigger] sent[x])
    }

    proof fn lemma_pings(self, k: nat) -> (more: Seq<ActionView>)
        requires
            self.wf(),
            k <= self.m.n,
        ensures
            sent_of(self.send_upto(k, |idx: int| PayloadView::Ping).actions, Kind::Ping) == sent_of(
                self.actions,
                Kind::Ping,
            ) + more,
            more.len() == (if self.m.me_idx < k {
                k - 1
            } else {
                k as int
            }),
            forall|j: int|
                0 <= j < k && j != self.m.me_idx ==> #[trigger] self.greeted(j, more),
        decreases k,
    {
        let f = |idx: int| PayloadView::Ping;
        if k == 0 {
            assert(sent_of(self.actions, Kind::Ping) =~= sent_of(self.actions, Kind::Ping)
                + Seq::empty());
            Seq::empty()
        } else {
            let earlier = self.lemma_pings((k - 1) as nat);
            let before = self.send_upto((k - 1) as nat, f);
            self.lemma_send_upto_frame((k - 1) as nat, f);
            if k - 1 == self.m.me_idx {
                earlier
            } else {
                before.lemma_send_kind(k - 1, PayloadView::Ping, Kind::Ping);
                let last = before.send(k - 1, PayloadView::Ping).actions.last();
                let more = earlier.push(last);
                assert(sent_of(self.send_upto(k, f).actions, Kind::Ping) =~= sent_of(
                    self.actions,
                    Kind::Ping,
                ) + more);
                assert forall|j: int| 0 <= j < k && j != self.m.me_idx implies #[trigger]
                    self.greeted(j, more) by {
                    if j < k - 1 {
                        assert(self.greeted(j, earlier));
                        let x = choose|x: int|
                            0 <= x < earlier.len() && self.greets(j, #[trigger] earlier[x]);
                        assert(more[x] == earlier[x]);
                    } else {
                        assert(self.greets(j, more[earlier.len() as int]));
                    }
                }
                more
            }
        }
    }

    /// Every replica lets every other know of its watermark once a second: a
    /// tick sends one heartbeat to each of the others if the last one was a
    /// second ago or more, and none otherwise.
    pub proof fn heartbeats_reach_every_replica(self, now: u64)
        requires
            self.wf(),
            self.m.n >= 2,
            self.rested(),
        ensures
            ({
                let t = self.ticked(now);
                let sent = self.newly_sent(t, Kind::Ping);
                let due = now >= self.last_ping + 1_000_000_000;
                &&& !due ==> sent.len() == 0 && t.last_ping == self.last_ping
                &&& due ==> t.last_ping == now && sent.len() == self.m.n - 1 && forall|j: int|
                    0 <= j < self.m.n && self.config.replicas[j] != self.config.me ==> #[trigger]
                        self.greeted(j, sent)
            }),
    {
        self.lemma_tick_middle_proposes(now);
        let s4 = self.tick_middle(now);
        let s5 = s4.reforwarded(now);
        s4.lemma_reforwarded_follows(now);
        s4.lemma_reforwarded_kind(now, Kind::Ping);
        let e = s5.learn_expired(now);
        let s6 = s5.learn_ticked(now);
        s5.lemma_learn_ticked_follows(now);
        if e.learn_in_flight is None && e.ahead().len() > 0 {
            let idx = e.ahead()[e.learn_attempts as int % e.ahead().len() as int];
            let f = State { learn_in_flight: Some((idx as usize, now)), ..e };
            f.lemma_send_kind(
                idx,
                PayloadView::Learn { from_slot: Slot((e.decided + 1) as u64) },
                Kind::Ping,
            );
        }
        assert(sent_of(s6.actions, Kind::Ping) == sent_of(self.actions, Kind::Ping));
        let t = self.ticked(now);
        assert(t == s6.pinged(now));
        let s7 = State { last_ping: now, ..s6 };
        if now >= self.last_ping + 1_000_000_000 {
            assert(s7.wf());
            let sent = s7.lemma_pings(s7.m.n as nat);
            self.lemma_newly_sent(t, Kind::Ping, sent);
            s7.lemma_send_upto_frame(s7.m.n as nat, |idx: int| PayloadView::Ping);
            assert forall|j: int|
                0 <= j < self.m.n && self.config.replicas[j] != self.config.me implies #[trigger]
                self.greeted(j, sent) by {
                assert(s7.greeted(j, sent));
                let x = choose|x: int| 0 <= x < sent.len() && s7.greets(j, #[trigger] sent[x]);
                assert(self.greets(j, sent[x]));
            }
        } else {
            assert(sent_of(t.actions, Kind::Ping) =~= sent_of(self.actions, Kind::Ping)
                + Seq::empty());
            self.lemma_newly_sent(t, Kind::Ping, Seq::empty());
        }
    }
}

/// What the commands `cs` take on the wire, each with 28 bytes besides its
/// data.
pub open spec fn weight(cs: Seq<Command>) -> nat
    decreases cs.len(),
{
    if cs.len() == 0 {
        0
    } else {
        weight(cs.drop_last()) + cs.last().1.len() + 28
    }
}

pub proof fn lemma_weight(cs: Seq<Command>)
    ensures
        weight(cs) == commands_cost(cs),
    decreases cs.len(),
{
    if cs.len() > 0 {
        lemma_weight(cs.drop_last());
    }
}

/// Whether `cs` fits in one message: it is not empty, and a single command or
/// within the limit.
pub open spec fn fits(cs: Seq<Command>, limit: nat) -> bool {
    cs.len() > 0 && (cs.len() == 1 || weight(cs) <= limit)
}

impl State {
    /// Whether a command goes to the replica at `target`, by how often it was
    /// forwarded: to the first of the other replicas, then the second, and so
    /// on in turn.
    pub open spec fn turns_to(self, attempts: u64, target: int) -> bool {
        let r = attempts as int % (self.m.n - 1);
        target == (if r < self.m.me_idx {
            r
        } else {
            r + 1
        })
    }

    /// Whether `c` is one of `ids` as the pool holds it, and goes to `target`.
    spec fn routed(self, ids: Seq<CommandId>, target: int, c: Command) -> bool {
        &&& ids.contains(c.0)
        &&& c.1 == self.pool.entries[c.0].data
        &&& target == self.forward_target(self.pool.entries[c.0].forward_attempts)
    }

    /// What holds of one message of forwarded commands.
    spec fn carries(self, ids: Seq<CommandId>, target: int, cs: Seq<Command>) -> bool {
        &&& 0 <= target < self.m.n
        &&& fits(cs, self.config.max_batch_bytes as nat)
        &&& forall|y: int| 0 <= y < cs.len() ==> self.routed(ids, target, #[trigger] cs[y])
    }

    /// Whether some message in `q` has the command under `id`.
    spec fn ships(self, q: Seq<(int, Seq<Command>)>, id: CommandId) -> bool {
        exists|x: int|
            0 <= x < q.len() && (#[trigger] q[x]).1.contains((id, self.pool.entries[id].data))
    }

    spec fn packed(self, ids: Seq<CommandId>, c: Chunks) -> bool {
        &&& c.open.len() == self.m.n
        &&& forall|x: int|
            0 <= x < c.full.len() ==> self.carries(ids, (#[trigger] c.full[x]).0, c.full[x].1)
        &&& forall|j: int|
            0 <= j < self.m.n ==> (#[trigger] c.open[j]).len() == 0 || self.carries(
                ids,
                j,
                c.open[j],
            )
        &&& forall|id: CommandId| #[trigger]
            ids.contains(id) ==> self.ships(c.full, id) || exists|j: int|
                0 <= j < self.m.n && (#[trigger] c.open[j]).contains(
                    (id, self.pool.entries[id].data),
                )
    }

    proof fn lemma_target(self, attempts: u64)
        requires
            self.wf(),
            self.m.n >= 2,
        ensures
            0 <= self.forward_target(attempts) < self.m.n,
            self.forward_target(attempts) != self.m.me_idx,
    {
        let d = self.m.n - 1;
        assert(0 <= attempts as int % d < d) by (nonlinear_arith)
            requires
                d > 0,
        ;
    }

    /// More commands to choose from.
    proof fn lemma_carries_more(
        self,
        ids: Seq<CommandId>,
        id: CommandId,
        target: int,
        cs: Seq<Command>,
    )
        requires
            self.carries(ids, target, cs),
        ensures
            self.carries(ids.push(id), target, cs),
    {
        assert forall|y: int| 0 <= y < cs.len() implies self.routed(
            ids.push(id),
            target,
            #[trigger] cs[y],
        ) by {
            assert(self.routed(ids, target, cs[y]));
            let x = choose|x: int| 0 <= x < ids.len() && ids[x] == cs[y].0;
            assert(ids.push(id)[x] == cs[y].0);
        }
    }

    proof fn lemma_packed(self, ids: Seq<CommandId>)
        requires
            self.wf(),
            self.m.n >= 2,
        ensures
            self.packed(ids, self.chunked(ids)),
        decreases ids.len(),
    {
        if ids.len() > 0 {
            let init = ids.drop_last();
            self.lemma_packed(init);
            self.lemma_packed_step(init, ids.last());
            assert(init.push(ids.last()) =~= ids);
        }
    }

    proof fn lemma_packed_step(self, init: Seq<CommandId>, id: CommandId)
        requires
            self.wf(),
            self.m.n >= 2,
            self.packed(init, self.chunked(init)),
        ensures
            self.packed(
                init.push(id),
                self.chunked(init).with(
                    self.forward_target(self.pool.entries[id].forward_attempts),
                    (id, self.pool.entries[id].data),
                    self.config.max_batch_bytes as nat,
                ),
            ),
    {
        let ids = init.push(id);
        let e = self.pool.entries[id];
        let target = self.forward_target(e.forward_attempts);
        let before = self.chunked(init);
        let one: Command = (id, e.data);
        let limit = self.config.max_batch_bytes as nat;
        let after = before.with(target, one, limit);
        self.lemma_target(e.forward_attempts);
        let filling = before.open[target];
        let more = filling.push(one);
        assert(ids[ids.len() - 1] == id);
        assert(self.routed(ids, target, one));
        lemma_weight(filling);
        lemma_weight(more);
        assert(more.drop_last() =~= filling);
        if filling.len() > 0 {
            assert(self.carries(init, target, filling));
            self.lemma_carries_more(init, id, target, filling);
        }
        let splits = filling.len() > 0 && weight(filling) + e.data.len() + 28 > limit;
        assert forall|x: int| 0 <= x < after.full.len() implies self.carries(
            ids,
            (#[trigger] after.full[x]).0,
            after.full[x].1,
        ) by {
            if x < before.full.len() {
                assert(after.full[x] == before.full[x]);
                self.lemma_carries_more(init, id, before.full[x].0, before.full[x].1);
            }
        }
        assert forall|j: int| 0 <= j < self.m.n implies (#[trigger] after.open[j]).len() == 0
            || self.carries(ids, j, after.open[j]) by {
            if j != target {
                assert(after.open[j] == before.open[j]);
                if before.open[j].len() > 0 {
                    self.lemma_carries_more(init, id, j, before.open[j]);
                }
            } else if splits {
                assert(after.open[j] == seq![one]);
            } else {
                assert(after.open[j] == more);
                assert forall|y: int| 0 <= y < more.len() implies self.routed(
                    ids,
                    target,
                    #[trigger] more[y],
                ) by {
                    if y < filling.len() {
                        assert(more[y] == filling[y]);
                    }
                }
            }
        }
        assert forall|i: CommandId| #[trigger] ids.contains(i) implies self.ships(after.full, i)
            || exists|j: int|
            0 <= j < self.m.n && (#[trigger] after.open[j]).contains(
                (i, self.pool.entries[i].data),
            ) by {
            let want: Command = (i, self.pool.entries[i].data);
            if i == id {
                let y = after.open[target].len() - 1;
                assert(after.open[target][y] == want);
                assert(after.open[target].contains(want));
            } else {
                let y = choose|y: int| 0 <= y < ids.len() && ids[y] == i;
                assert(init[y] == i);
                assert(init.contains(i));
                if self.ships(before.full, i) {
                    let x = choose|x: int|
                        0 <= x < before.full.len() && (#[trigger] before.full[x]).1.contains(want);
                    assert(after.full[x] == before.full[x]);
                } else {
                    let j = choose|j: int|
                        0 <= j < self.m.n && (#[trigger] before.open[j]).contains(want);
                    if j != target {
                        assert(after.open[j] == before.open[j]);
                    } else if splits {
                        assert(after.full[before.full.len() as int].1 == filling);
                        assert(self.ships(after.full, i));
                    } else {
                        let y = choose|y: int| 0 <= y < filling.len() && filling[y] == want;
                        assert(more[y] == want);
                        assert(after.open[target].contains(want));
                    }
                }
            }
        }
    }

    proof fn lemma_flushed(self, ids: Seq<CommandId>, c: Chunks, k: nat)
        requires
            self.packed(ids, c),
            k <= self.m.n,
        ensures
            ({
                let q = c.flushed(k);
                &&& forall|x: int|
                    0 <= x < q.len() ==> self.carries(ids, (#[trigger] q[x]).0, q[x].1)
                &&& forall|id: CommandId| self.ships(c.full, id) ==> #[trigger] self.ships(q, id)
                &&& forall|id: CommandId, j: int|
                    #![trigger self.ships(q, id), c.open[j]]
                    0 <= j < k && c.open[j].contains((id, self.pool.entries[id].data))
                        ==> self.ships(q, id)
            }),
        decreases k,
    {
        if k > 0 {
            let before = c.flushed((k - 1) as nat);
            let q = c.flushed(k);
            self.lemma_flushed(ids, c, (k - 1) as nat);
            assert forall|id: CommandId| #[trigger] self.ships(before, id) implies self.ships(
                q,
                id,
            ) by {
                let x = choose|x: int|
                    0 <= x < before.len() && (#[trigger] before[x]).1.contains(
                        (id, self.pool.entries[id].data),
                    );
                assert(q[x] == before[x]);
            }
            assert forall|id: CommandId| self.ships(c.full, id) implies #[trigger] self.ships(
                q,
                id,
            ) by {
                assert(self.ships(before, id));
            }
            assert forall|id: CommandId, j: int|
                #![trigger self.ships(q, id), c.open[j]]
                0 <= j < k && c.open[j].contains((id, self.pool.entries[id].data)) implies
                self.ships(q, id) by {
                if j < k - 1 {
                    assert(self.ships(before, id));
                } else {
                    assert(q[before.len() as int].1 == c.open[j]);
                }
            }
            assert forall|x: int| 0 <= x < q.len() implies self.carries(
                ids,
                (#[trigger] q[x]).0,
                q[x].1,
            ) by {
                if x < before.len() {
                    assert(q[x] == before[x]);
                }
            }
        }
    }

    /// What the messages that forward `chunks` are.
    spec fn parcels(self, chunks: Seq<(int, Seq<Command>)>) -> Seq<ActionView> {
        Seq::new(
            chunks.len(),
            |x: int|
                ActionView::Send {
                    to: self.config.replicas[chunks[x].0],
                    message: MessageView {
                        from: self.m.me,
                        decided: Slot(self.decided),
                        payload: PayloadView::Forward { commands: chunks[x].1 },
                    },
                },
        )
    }

    proof fn lemma_send_forwards_sent(self, chunks: Seq<(int, Seq<Command>)>)
        ensures
            sent_of(self.send_forwards(chunks).actions, Kind::Forward) == sent_of(
                self.actions,
                Kind::Forward,
            ) + self.parcels(chunks),
            self.send_forwards(chunks) == (State {
                actions: self.send_forwards(chunks).actions,
                ..self
            }),
        decreases chunks.len(),
    {
        let q = sent_of(self.actions, Kind::Forward);
        if chunks.len() == 0 {
            assert(q + self.parcels(chunks) =~= q);
        } else {
            let init = chunks.drop_last();
            self.lemma_send_forwards_sent(init);
            let s = self.send_forwards(init);
            let p = PayloadView::Forward { commands: chunks.last().1 };
            s.lemma_send_kind(chunks.last().0, p, Kind::Forward);
            assert(sent_of(self.send_forwards(chunks).actions, Kind::Forward) =~= q + self.parcels(
                chunks,
            ));
        }
    }

    /// Whether `t` has the pool of this replica, but for the slots that
    /// commands ride in.
    pub open spec fn pools_like(self, t: State) -> bool {
        &&& t.pool.bytes == self.pool.bytes
        &&& forall|id: CommandId| #[trigger]
            t.pool.entries.contains_key(id) == self.pool.entries.contains_key(id)
        &&& forall|id: CommandId| #[trigger]
            t.pool.entries.contains_key(id) ==> {
                let e = self.pool.entries[id];
                let f = t.pool.entries[id];
                &&& f.data == e.data
                &&& f.last_forward == e.last_forward
                &&& f.forward_attempts == e.forward_attempts
                &&& f.proposed_in is None ==> e.proposed_in is None
            }
    }

    pub proof fn lemma_opened_pools(self, now: u64)
        requires
            self.wf(),
            self.m.n >= 2,
            self.rested(),
        ensures
            self.pools_like(self.open_more(now)),
            self.pools_like(self.opened(now)),
        decreases u64::MAX - self.max_open,
    {
        if self.can_open() {
            let j = (self.highest() + 1) as u64;
            let value = batch_bytes(self.next_batch());
            let s = self.opening();
            self.lemma_claimed_wf(j, self.next_batch());
            assert(s.wf());
            assert(s.rested());
            let _ = s.lemma_activated_emits(now, j, value, 0);
            s.lemma_activated_wf(now, j, value);
            s.lemma_activated_pool(now, j, value);
            let t = s.activated(now, j, value);
            t.lemma_opened_pools(now);
            assert(self.pools_like(t));
            self.lemma_pools_trans(t, t.open_more(now));
        }
    }

    pub proof fn lemma_pools_trans(self, t: State, u: State)
        requires
            self.pools_like(t),
            t.pools_like(u),
        ensures
            self.pools_like(u),
    {
        assert forall|id: CommandId| #[trigger]
            u.pool.entries.contains_key(id) == self.pool.entries.contains_key(id) by {
            assert(u.pool.entries.contains_key(id) == t.pool.entries.contains_key(id));
            assert(t.pool.entries.contains_key(id) == self.pool.entries.contains_key(id));
        }
        assert forall|id: CommandId| #[trigger] u.pool.entries.contains_key(id) implies ({
            let e = self.pool.entries[id];
            let f = u.pool.entries[id];
            &&& f.data == e.data
            &&& f.last_forward == e.last_forward
            &&& f.forward_attempts == e.forward_attempts
            &&& f.proposed_in is None ==> e.proposed_in is None
        }) by {
            assert(t.pool.entries.contains_key(id));
        }
    }

    pub proof fn lemma_hedge_each_pools(self, now: u64, due: Seq<u64>)
        requires
            self.wf(),
            self.m.n >= 2,
            self.rested(),
        ensures
            self.pools_like(self.hedge_each(now, due)),
        decreases due.len(),
    {
        if due.len() > 0 {
            let init = due.drop_last();
            let j = due.last();
            self.lemma_hedge_each_pools(now, init);
            let _ = self.lemma_hedge_each_emits(now, init, 0);
            self.lemma_hedge_each_wf(now, init);
            let s = self.hedge_each(now, init);
            if j > s.decided {
                let t = s.claimed(j, s.next_batch());
                s.lemma_claimed_wf(j, s.next_batch());
                assert(t.rested());
                t.lemma_activated_pool(now, j, batch_bytes(s.next_batch()));
                assert(s.pools_like(t.activated(now, j, batch_bytes(s.next_batch()))));
                self.lemma_pools_trans(s, self.hedge_each(now, due));
            }
        }
    }

    pub proof fn lemma_resend_each_pool(self, now: u64, stale: Seq<u64>)
        requires
            self.wf(),
            self.m.n >= 2,
            self.rested(),
        ensures
            self.resend_each(now, stale).pool == self.pool,
            self.resend_each(now, stale).pending_since == self.pending_since,
        decreases stale.len(),
    {
        if stale.len() > 0 {
            let init = stale.drop_last();
            let j = stale.last();
            self.lemma_resend_each_pool(now, init);
            self.lemma_resend_each_runs(now, init);
            self.lemma_resend_each_wf(now, init);
            let s = self.resend_each(now, init);
            let t = s.renewed(j);
            s.lemma_renewed_wf(j);
            assert(t.poised(j)) by {
                assert forall|x: u64| #[trigger] t.slots.contains_key(x) implies (x != j
                    ==> t.slots[x].rested(t.m.me_idx as int)) && t.slots[x].poised(
                    t.m.me_idx as int,
                ) by {
                    assert(s.slots.contains_key(x));
                }
            }
            t.lemma_drive_frame(now, j);
        }
    }

    /// The parts of a tick that concern proposers change of the pool only
    /// which slots commands ride in.
    pub proof fn lemma_tick_middle_pools(self, now: u64)
        requires
            self.wf(),
            self.m.n >= 2,
            self.rested(),
        ensures
            self.pools_like(self.tick_middle(now)),
    {
        let s1 = self.frontier_observed(now);
        self.lemma_frontier_follows(now);
        assert(self.settles_into(s1));
        assert(s1.rested()) by {
            assert forall|x: u64| #[trigger] s1.slots.contains_key(x) implies s1.slots[x].rested(
                s1.m.me_idx as int,
            ) by {
                if s1.runs(x) {
                    assert(self.runs(x));
                    assert(self.slots.contains_key(x));
                }
            }
        }
        let due = s1.hedge_due(now);
        s1.lemma_hedge_each_pools(now, due);
        let _ = s1.lemma_hedge_each_emits(now, due, 0);
        let _ = s1.lemma_hedged_follows(now);
        let s2 = s1.hedged(now);
        assert(s2.rested());
        assert(self.pools_like(s2));
        s2.lemma_opened_pools(now);
        let _ = s2.lemma_opened_emits(now, 0);
        s2.lemma_opened_wf(now);
        let s3 = s2.opened(now);
        self.lemma_pools_trans(s2, s3);
        s3.lemma_resend_each_pool(now, s3.stale(now));
        assert(self.tick_middle(now) == s3.retransmitted(now));
    }

    /// How long a forwarded command waits before it is forwarded again: two
    /// hedging delays, as far as time goes, or the retransmission delay if that
    /// is longer.
    pub open spec fn patience(self) -> int {
        if 2 * self.config.hedge_delay > u64::MAX {
            u64::MAX as int
        } else if 2 * self.config.hedge_delay > self.config.retransmit_delay {
            2 * self.config.hedge_delay
        } else {
            self.config.retransmit_delay as int
        }
    }

    /// Whether `a` forwards the command under `id` to the replica at `target`.
    pub open spec fn hands_over(self, id: CommandId, target: int, a: ActionView) -> bool {
        match a {
            ActionView::Send { to, message } => match message.payload {
                PayloadView::Forward { commands } => to == self.config.replicas[target]
                    && message.from == self.config.me && commands.contains(
                    (id, self.pool.entries[id].data),
                ),
                _ => false,
            },
            _ => false,
        }
    }

    /// Whether `a` is a message of forwarded commands that waited long enough
    /// in this pool, within the limit on its size.
    pub open spec fn hands_over_due(self, now: u64, a: ActionView) -> bool {
        match a {
            ActionView::Send { to, message } => match message.payload {
                PayloadView::Forward { commands } => fits(
                    commands,
                    self.config.max_batch_bytes as nat,
                ) && forall|y: int|
                    0 <= y < commands.len() ==> self.is_due(now, (#[trigger] commands[y]).0),
                _ => false,
            },
            _ => false,
        }
    }

    /// Whether the command under `id` was submitted here and has waited long
    /// enough since it was last forwarded.
    pub open spec fn is_due(self, now: u64, id: CommandId) -> bool {
        &&& self.pool.entries.contains_key(id)
        &&& id.origin == self.config.me
        &&& id.boot == self.boot
        &&& now.saturating_sub(self.pool.entries[id].last_forward) >= self.patience()
    }

    proof fn lemma_forward_due(self, now: u64, id: CommandId)
        requires
            self.wf(),
        ensures
            self.forward_due(now).contains(id) <==> self.is_due(now, id)
                && self.pool.entries[id].proposed_in is None,
    {
        let all = ascending(self.pool.entries.dom());
        let f = |id: CommandId|
            self.forwards(id) && now.saturating_sub(self.pool.entries[id].last_forward)
                >= self.forward_interval();
        lemma_ascending(self.pool.entries.dom());
        lemma_filter_ascends(all, f);
        assert(all.to_set().contains(id) == self.pool.entries.dom().contains(id));
        assert(self.forward_due(now) == all.filter(f));
    }

    pub proof fn lemma_reforwards(self, now: u64, id: CommandId)
        requires
            self.wf(),
            self.m.n >= 2,
            !self.m.leads(),
        ensures
            ({
                let t = self.reforwarded(now);
                let sent = self.newly_sent(t, Kind::Forward);
                let e = self.pool.entries[id];
                let due = self.is_due(now, id) && e.proposed_in is None;
                &&& sent_of(t.actions, Kind::Forward) == sent_of(self.actions, Kind::Forward)
                    + sent
                &&& forall|x: int|
                    0 <= x < sent.len() ==> self.hands_over_due(now, #[trigger] sent[x])
                &&& due ==> exists|x: int|
                    0 <= x < sent.len() && self.hands_over(
                        id,
                        self.forward_target(e.forward_attempts),
                        #[trigger] sent[x],
                    )
                &&& t.pool.entries.contains_key(id) == self.pool.entries.contains_key(id)
                &&& self.pool.entries.contains_key(id) ==> t.pool.entries[id] == (if due {
                    EntryView {
                        last_forward: now,
                        forward_attempts: e.forward_attempts.wrapping_add(1),
                        ..e
                    }
                } else {
                    e
                })
            }),
    {
        let ids = self.forward_due(now);
        let c = self.chunked(ids);
        let q = c.flushed(self.m.n as nat);
        let s = self.refreshed_forwards(now, ids);
        let t = self.reforwarded(now);
        self.lemma_packed(ids);
        self.lemma_flushed(ids, c, self.m.n as nat);
        s.lemma_send_forwards_sent(q);
        self.lemma_forward_due(now, id);
        let sent = s.parcels(q);
        self.lemma_newly_sent(t, Kind::Forward, sent);
        let e = self.pool.entries[id];
        assert forall|x: int| 0 <= x < sent.len() implies self.hands_over_due(
            now,
            #[trigger] sent[x],
        ) by {
            let cs = q[x].1;
            assert(self.carries(ids, q[x].0, cs));
            assert forall|y: int| 0 <= y < cs.len() implies self.is_due(
                now,
                (#[trigger] cs[y]).0,
            ) by {
                assert(self.routed(ids, q[x].0, cs[y]));
                self.lemma_forward_due(now, cs[y].0);
            }
        }
        if ids.contains(id) {
            assert(self.ships(c.full, id) || exists|j: int|
                0 <= j < self.m.n && (#[trigger] c.open[j]).contains(
                    (id, self.pool.entries[id].data),
                ));
            if !self.ships(c.full, id) {
                let j = choose|j: int|
                    0 <= j < self.m.n && (#[trigger] c.open[j]).contains(
                        (id, self.pool.entries[id].data),
                    );
                assert(c.open[j].contains((id, self.pool.entries[id].data)));
            }
            assert(self.ships(q, id));
            let x = choose|x: int|
                0 <= x < q.len() && (#[trigger] q[x]).1.contains((id, self.pool.entries[id].data));
            assert(self.carries(ids, q[x].0, q[x].1));
            let y = choose|y: int|
                0 <= y < q[x].1.len() && q[x].1[y] == (id, self.pool.entries[id].data);
            assert(self.routed(ids, q[x].0, q[x].1[y]));
            assert(self.hands_over(id, self.forward_target(e.forward_attempts), sent[x]));
        }
    }

    /// Commands that wait are forwarded again. A tick of a replica that does
    /// not lead hands over every command that was submitted to it, rides in no
    /// slot, and was last forwarded two hedging delays ago (or the
    /// retransmission delay, if that is longer): to the other replicas in turn,
    /// the leader first. It hands over nothing else, in messages within the
    /// limit on batches.
    pub proof fn waiting_commands_are_forwarded_in_turn(self, now: u64, id: CommandId, target: int)
        requires
            self.wf(),
            self.m.n >= 2,
            self.rested(),
            self.config.replicas[0] != self.config.me,
            self.pool.entries.contains_key(id),
            self.turns_to(self.pool.entries[id].forward_attempts, target),
        ensures
            ({
                let t = self.ticked(now);
                let sent = self.newly_sent(t, Kind::Forward);
                let e = self.pool.entries[id];
                let f = t.pool.entries[id];
                let due = self.is_due(now, id) && f.proposed_in is None;
                &&& t.pool.entries.contains_key(id)
                &&& due ==> exists|x: int|
                    0 <= x < sent.len() && self.hands_over(id, target, #[trigger] sent[x])
                &&& due ==> f.last_forward == now && f.forward_attempts
                    == e.forward_attempts.wrapping_add(1)
                &&& !due ==> f.last_forward == e.last_forward && f.forward_attempts
                    == e.forward_attempts
                &&& forall|x: int|
                    0 <= x < sent.len() ==> self.hands_over_due(now, #[trigger] sent[x])
            }),
    {
        let t = self.ticked(now);
        self.lemma_tick_middle_proposes(now);
        self.lemma_tick_middle_pools(now);
        let s4 = self.tick_middle(now);
        let s5 = s4.reforwarded(now);
        s4.lemma_reforwarded_follows(now);
        s4.lemma_reforwards(now, id);
        let sent = s4.newly_sent(s5, Kind::Forward);
        let e = s5.learn_expired(now);
        let s6 = s5.learn_ticked(now);
        s5.lemma_learn_ticked_follows(now);
        if e.learn_in_flight is None && e.ahead().len() > 0 {
            let idx = e.ahead()[e.learn_attempts as int % e.ahead().len() as int];
            let f = State { learn_in_flight: Some((idx as usize, now)), ..e };
            f.lemma_send_kind(
                idx,
                PayloadView::Learn { from_slot: Slot((e.decided + 1) as u64) },
                Kind::Forward,
            );
        }
        let s7 = State { last_ping: now, ..s6 };
        let g = |idx: int| PayloadView::Ping;
        s7.lemma_send_upto_kind(s7.m.n as nat, g, Kind::Forward);
        s7.lemma_send_upto_frame(s7.m.n as nat, g);
        assert(t == s6.pinged(now));
        assert(t.pool == s5.pool);
        self.lemma_newly_sent(t, Kind::Forward, sent);
        assert(s4.pool.entries.contains_key(id));
        assert forall|x: int| 0 <= x < sent.len() implies self.hands_over_due(
            now,
            #[trigger] sent[x],
        ) by {
            assert(s4.hands_over_due(now, sent[x]));
            let cs = sent[x]->message.payload->commands;
            assert forall|y: int| 0 <= y < cs.len() implies self.is_due(
                now,
                (#[trigger] cs[y]).0,
            ) by {
                assert(s4.is_due(now, cs[y].0));
                assert(s4.pool.entries.contains_key(cs[y].0));
            }
        }
        if s4.is_due(now, id) && s4.pool.entries[id].proposed_in is None {
            let x = choose|x: int|
                0 <= x < sent.len() && s4.hands_over(id, target, #[trigger] sent[x]);
            assert(self.hands_over(id, target, sent[x]));
        }
    }
}

} // verus!
