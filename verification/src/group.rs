//! A whole group of replicas over an unreliable network, and what it
//! guarantees.

use vstd::prelude::*;

use crate::config::ConfigView;
use crate::consensus::History;
use crate::delivery::{
    deliveries, dedup_of, lemma_accepted, lemma_delivered_by, lemma_deliveries,
    lemma_deliveries_once, lemma_deliveries_prefix, lemma_pending_first, lemma_values_sparse,
    pending, sparse, within_window_of_prefix, Delivery,
};
use crate::history::SlotHistory;
use crate::pool::marking_delivers_once;
use crate::proposer::{lemma_set_count_update, Member, ProposerView, RunView};
use crate::slot::SlotView;
use crate::sorted::{ascends, Key};
use crate::state::{accepted, batch_of, ActionView, State, DEDUP_WINDOW};
use crate::types::{Command, Origin, ProposalView, ReplicaId, Slot};
use crate::wire::{
    message_decoding_inverts_encoding, parse_message, MessageView, PayloadView, ReplyFirstView,
};

verus! {

/// A group of replicas, one per schedule index, and what surrounds it.
#[verifier::ext_equal]
pub struct Group {
    pub nodes: Seq<State>,
    /// Every message ever handed to the transport, and whom it is for. The
    /// network may lose, reorder and duplicate messages: any of these may
    /// arrive at its destination at any time, any number of times, or never.
    pub net: Set<(ReplicaId, MessageView)>,
    /// What each replica's application was handed, in order.
    pub logs: Seq<Seq<Delivery>>,
    /// The commands that were accepted for replication.
    pub submitted: Set<Command>,
}

/// Something that can happen to a group. A replica that has crashed is one to
/// which nothing happens any more.
pub enum Event {
    /// A command is submitted at a replica.
    Submit { node: int, now: u64, data: Seq<u8> },
    /// A message arrives at a replica.
    Receive { node: int, now: u64, message: MessageView },
    /// A replica's clock ticks.
    Tick { node: int, now: u64 },
    /// A replica's next effect is carried out.
    Poll { node: int },
}

/// Whether these are the configurations of one group: all name the same
/// replicas, and each is the one of another member, in schedule order.
pub open spec fn forms_group(configs: Seq<ConfigView>) -> bool {
    &&& 0 < configs.len() <= usize::MAX
    &&& forall|i: int| 0 <= i < configs.len() ==> (#[trigger] configs[i]).wf()
    &&& forall|i: int|
        0 <= i < configs.len() ==> (#[trigger] configs[i]).replicas == configs[0].replicas
    &&& configs[0].replicas.len() == configs.len()
    &&& forall|i: int|
        0 <= i < configs.len() ==> (#[trigger] configs[i]).me == configs[0].replicas[i]
}

/// The place of the `i`-th member.
pub open spec fn member_at(configs: Seq<ConfigView>, i: int) -> Member {
    Member {
        me: configs[i].me,
        me_idx: i as usize,
        n: configs.len() as usize,
        quorum: (configs.len() / 2 + 1) as usize,
    }
}

impl History {
    /// What a replica delivered was submitted.
    proof fn lemma_delivered_submitted(
        self,
        n: nat,
        i: int,
        s: State,
        applied: Seq<Delivery>,
        k: int,
        a: int,
    )
        requires
            self.sound(n),
            self.log_ok(i, s.decided, s.dedup, s.actions, applied),
            0 <= k < self.delivered[i].len(),
            0 <= a < deliveries(self.delivered[i])[k].1.len(),
        ensures
            self.submitted.contains(deliveries(self.delivered[i])[k].1[a]),
    {
        let vals = self.delivered[i];
        let all = deliveries(vals);
        lemma_deliveries(vals);
        let slot = (k + 1) as u64;
        assert(self.slot(slot).chosen(vals[k]));
        assert(self.slot(slot).sound());
        self.slot(slot).chosen_values_were_proposed(vals[k]);
        assert(self.proposable(slot, vals[k]));
        let d = dedup_of(vals.take(k));
        assert(all[k].1 == accepted(d, batch_of(vals[k])));
        lemma_accepted(d, batch_of(vals[k]));
        let x = choose|x: int|
            0 <= x < batch_of(vals[k]).len() && #[trigger] batch_of(vals[k])[x] == all[k].1[a];
        assert(self.submitted.contains(batch_of(vals[k])[x]));
    }
}

impl Group {
    /// A group that has seen nothing.
    pub open spec fn initial(configs: Seq<ConfigView>) -> Group {
        Group {
            nodes: Seq::new(
                configs.len(),
                |i: int| State::initial(configs[i], member_at(configs, i)),
            ),
            net: Set::empty(),
            logs: Seq::new(configs.len(), |i: int| Seq::empty()),
            submitted: Set::empty(),
        }
    }

    /// Whether there is a replica at `node`.
    pub open spec fn has_node(self, node: int) -> bool {
        0 <= node < self.nodes.len()
    }

    /// The group after an event. An event that cannot happen, such as the
    /// arrival of a message that was never sent, changes nothing.
    pub open spec fn after(self, e: Event) -> Group {
        match e {
            Event::Submit { node, now, data } => {
                let s = self.nodes[node];
                if self.has_node(node) && s.submit_error(data.len()) is None && s.next_seq
                    < u64::MAX {
                    Group {
                        nodes: self.nodes.update(node, s.submitted(now, data)),
                        submitted: self.submitted.insert((s.next_id(), data)),
                        ..self
                    }
                } else {
                    self
                }
            },
            Event::Receive { node, now, message } => {
                let s = self.nodes[node];
                if self.has_node(node) && self.net.contains((s.m.me, message)) {
                    Group { nodes: self.nodes.update(node, s.received(now, message)), ..self }
                } else {
                    self
                }
            },
            Event::Tick { node, now } => {
                if self.has_node(node) {
                    Group {
                        nodes: self.nodes.update(node, self.nodes[node].ticked(now)),
                        ..self
                    }
                } else {
                    self
                }
            },
            Event::Poll { node } => {
                let s = self.nodes[node];
                if self.has_node(node) && s.actions.len() > 0 {
                    let rest = Group {
                        nodes: self.nodes.update(
                            node,
                            State { actions: s.actions.drop_first(), ..s },
                        ),
                        ..self
                    };
                    match s.actions[0] {
                        ActionView::Send { to, message } => Group {
                            net: self.net.insert((to, message)),
                            ..rest
                        },
                        ActionView::Deliver { slot, commands } => Group {
                            logs: self.logs.update(node, self.logs[node].push((slot, commands))),
                            ..rest
                        },
                    }
                } else {
                    self
                }
            },
        }
    }

    /// The group after a sequence of events.
    pub open spec fn run(self, events: Seq<Event>) -> Group
        decreases events.len(),
    {
        if events.len() == 0 {
            self
        } else {
            self.run(events.drop_last()).after(events.last())
        }
    }

    /// Whether the history `h` explains everything that the replicas hold,
    /// have sent and have delivered.
    pub open spec fn explained(self, ids: Seq<ReplicaId>, h: History) -> bool {
        &&& h.sound(ids.len())
        &&& ascends(ids)
        &&& self.nodes.len() == ids.len()
        &&& self.logs.len() == ids.len()
        &&& h.submitted == self.submitted
        &&& forall|i: int|
            0 <= i < ids.len() ==> h.faithful(ids, i, #[trigger] self.nodes[i], self.logs[i])
        &&& forall|to: ReplicaId, msg: MessageView| #[trigger]
            self.net.contains((to, msg)) ==> h.message_ok(ids, to, msg)
    }

    proof fn lemma_initial(configs: Seq<ConfigView>)
        requires
            forms_group(configs),
        ensures
            Group::initial(configs).explained(
                configs[0].replicas,
                History::empty(configs.len()),
            ),
    {
        let g = Group::initial(configs);
        let ids = configs[0].replicas;
        let n = configs.len();
        let h = History::empty(n);
        assert forall|k: u64| #[trigger] h.slot(k).sound() && h.slot(k).n() == n by {
            let q = h.slot(k);
            assert(q == SlotHistory::empty(n));
            assert forall|m: int, s: u32, p: crate::types::ProposalView|
                0 <= m < q.n() && #[trigger] crate::history::has(
                    q.recorded[m],
                    s,
                    p,
                ) implies q.offered(m, s, p) by {
                assert(q.recorded[m].len() == 0);
            }
        }
        assert forall|k: u64, v: Seq<u8>| #[trigger] h.slot(k).has_value(v) implies h.proposable(
            k,
            v,
        ) by {
            assert(h.slot(k) == SlotHistory::empty(n));
        }
        assert(configs[0].wf());
        assert forall|i: int| 0 <= i < ids.len() implies h.faithful(
            ids,
            i,
            #[trigger] g.nodes[i],
            g.logs[i],
        ) by {
            let s = g.nodes[i];
            assert(configs[i].wf());
            assert(s == State::initial(configs[i], member_at(configs, i)));
            assert(crate::pool::entry_costs(s.pool.entries) =~= Map::empty());
            assert(s.wf());
            assert forall|k: u64| k > s.gc_floor && !#[trigger] s.slots.contains_key(k) implies h.slot(
                k,
            ).absent(i) by {
                assert(h.slot(k) == SlotHistory::empty(n));
            }
            assert(g.logs[i] + pending(s.actions) =~= deliveries(h.delivered[i]));
        }
    }

    /// The replicas have different ids.
    proof fn lemma_distinct(ids: Seq<ReplicaId>, i: int, j: int)
        requires
            ascends(ids),
            0 <= i < ids.len(),
            0 <= j < ids.len(),
            i != j,
        ensures
            ids[i] != ids[j],
    {
        if i < j {
            assert(ids[i].rank() < ids[j].rank());
        } else {
            assert(ids[j].rank() < ids[i].rank());
        }
    }

    /// A step of replica `i` that the history `b` explains.
    proof fn lemma_node_step(
        self,
        ids: Seq<ReplicaId>,
        h: History,
        b: History,
        i: int,
        t: State,
        g: Group,
    )
        requires
            self.explained(ids, h),
            0 <= i < ids.len(),
            b.sound(ids.len()),
            h.grew(b, i),
            b.faithful(ids, i, t, self.logs[i]),
            b.submitted == g.submitted,
            forall|c: Command| #[trigger]
                b.submitted.contains(c) ==> h.submitted.contains(c) || c.0.origin == ids[i],
            g.nodes == self.nodes.update(i, t),
            g.net == self.net,
            g.logs == self.logs,
        ensures
            g.explained(ids, b),
    {
        assert forall|j: int| 0 <= j < ids.len() implies b.faithful(
            ids,
            j,
            #[trigger] g.nodes[j],
            g.logs[j],
        ) by {
            if j != i {
                assert(g.nodes[j] == self.nodes[j]);
                let s = self.nodes[j];
                assert(h.faithful(ids, j, s, self.logs[j]));
                Group::lemma_distinct(ids, i, j);
                assert(b.ids_ok(s.m.me, s.boot, s.next_seq)) by {
                    assert forall|c: Command| #[trigger] b.submitted.contains(c)
                        && c.0.origin == s.m.me implies c.0.boot == s.boot && 1 <= c.0.seq
                        <= s.next_seq by {
                        assert(h.submitted.contains(c));
                    }
                }
                h.lemma_others_faithful(b, ids, i, j, s, self.logs[j]);
            }
        }
        assert forall|to: ReplicaId, msg: MessageView| #[trigger]
            g.net.contains((to, msg)) implies b.message_ok(ids, to, msg) by {
            assert(self.net.contains((to, msg)));
            h.lemma_message_persists(b, ids, i, to, msg);
        }
    }

    proof fn lemma_after(self, ids: Seq<ReplicaId>, h: History, e: Event) -> (b: History)
        requires
            self.explained(ids, h),
        ensures
            self.after(e).explained(ids, b),
    {
        let g = self.after(e);
        match e {
            Event::Submit { node, now, data } => {
                let s = self.nodes[node];
                if self.has_node(node) && s.submit_error(data.len()) is None && s.next_seq
                    < u64::MAX {
                    assert(h.faithful(ids, node, s, self.logs[node]));
                    let b = h.lemma_submitted(ids, node, s, self.logs[node], now, data);
                    self.lemma_node_step(ids, h, b, node, s.submitted(now, data), g);
                    b
                } else {
                    h
                }
            },
            Event::Receive { node, now, message } => {
                let s = self.nodes[node];
                if self.has_node(node) && self.net.contains((s.m.me, message)) {
                    assert(h.faithful(ids, node, s, self.logs[node]));
                    assert(h.message_ok(ids, s.m.me, message));
                    let b = h.lemma_received(ids, node, s, self.logs[node], now, message);
                    self.lemma_node_step(ids, h, b, node, s.received(now, message), g);
                    b
                } else {
                    h
                }
            },
            Event::Tick { node, now } => {
                if self.has_node(node) {
                    let s = self.nodes[node];
                    assert(h.faithful(ids, node, s, self.logs[node]));
                    let b = h.lemma_ticked(ids, node, s, self.logs[node], now);
                    self.lemma_node_step(ids, h, b, node, s.ticked(now), g);
                    b
                } else {
                    h
                }
            },
            Event::Poll { node } => {
                self.lemma_poll(ids, h, node);
                h
            },
        }
    }

    proof fn lemma_poll(self, ids: Seq<ReplicaId>, h: History, node: int)
        requires
            self.explained(ids, h),
        ensures
            self.after(Event::Poll { node }).explained(ids, h),
    {
        let g = self.after(Event::Poll { node });
        let s = self.nodes[node];
        if self.has_node(node) && s.actions.len() > 0 {
            assert(h.faithful(ids, node, s, self.logs[node]));
            let t = State { actions: s.actions.drop_first(), ..s };
            lemma_pending_first(s.actions);
            assert(g.nodes[node] == t);
            assert(h.log_ok(node, t.decided, t.dedup, t.actions, g.logs[node])) by {
                assert(g.logs[node] + pending(t.actions) =~= self.logs[node] + pending(s.actions));
            }
            assert(h.actions_ok(ids, node, t.actions)) by {
                assert forall|x: int| 0 <= x < t.actions.len() implies (#[trigger] t.actions[x]
                    matches ActionView::Send { to, message } ==> message.from == ids[node]
                    && h.message_ok(ids, to, message)) by {
                    assert(t.actions[x] == s.actions[x + 1]);
                }
            }
            assert forall|j: int| 0 <= j < ids.len() implies h.faithful(
                ids,
                j,
                #[trigger] g.nodes[j],
                g.logs[j],
            ) by {
                if j != node {
                    assert(g.nodes[j] == self.nodes[j]);
                    assert(g.logs[j] == self.logs[j]);
                }
            }
            assert forall|to: ReplicaId, msg: MessageView| #[trigger]
                g.net.contains((to, msg)) implies h.message_ok(ids, to, msg) by {
                if !self.net.contains((to, msg)) {
                    assert(s.actions[0] == (ActionView::Send { to, message: msg }));
                }
            }
        }
    }

    /// Every group that events lead to is explained by a history.
    proof fn lemma_run(configs: Seq<ConfigView>, events: Seq<Event>) -> (h: History)
        requires
            forms_group(configs),
        ensures
            Group::initial(configs).run(events).explained(configs[0].replicas, h),
        decreases events.len(),
    {
        let ids = configs[0].replicas;
        if events.len() == 0 {
            Group::lemma_initial(configs);
            History::empty(configs.len())
        } else {
            let h = Group::lemma_run(configs, events.drop_last());
            Group::initial(configs).run(events.drop_last()).lemma_after(ids, h, events.last())
        }
    }

    /// What a replica's application was handed is a prefix of what the chosen
    /// values bring.
    proof fn lemma_log(self, ids: Seq<ReplicaId>, h: History, i: int)
        requires
            self.explained(ids, h),
            0 <= i < ids.len(),
        ensures
            self.logs[i].len() <= h.delivered[i].len(),
            self.logs[i] == deliveries(h.delivered[i]).take(self.logs[i].len() as int),
            deliveries(h.delivered[i]).len() == h.delivered[i].len(),
            self.nodes[i].decided == self.logs[i].len() + pending(self.nodes[i].actions).len(),
    {
        assert(h.faithful(ids, i, self.nodes[i], self.logs[i]));
        lemma_deliveries(h.delivered[i]);
        let all = deliveries(h.delivered[i]);
        assert(all == self.logs[i] + pending(self.nodes[i].actions));
        assert(all.take(self.logs[i].len() as int) =~= self.logs[i]);
    }

    /// Every replica delivers the same commands in the same slots: of two
    /// replicas' logs, each is a prefix of the other or the other way round,
    /// whatever the network loses, reorders or duplicates, whoever crashes,
    /// and whatever the clocks show.
    pub proof fn replicas_deliver_the_same_log(
        configs: Seq<ConfigView>,
        events: Seq<Event>,
        i: int,
        j: int,
        k: int,
    )
        requires
            forms_group(configs),
            0 <= i < configs.len(),
            0 <= j < configs.len(),
            0 <= k < Group::initial(configs).run(events).logs[i].len(),
            k < Group::initial(configs).run(events).logs[j].len(),
        ensures
            Group::initial(configs).run(events).logs[i][k] == Group::initial(configs).run(
                events,
            ).logs[j][k],
    {
        let g = Group::initial(configs).run(events);
        let ids = configs[0].replicas;
        let h = Group::lemma_run(configs, events);
        g.lemma_log(ids, h, i);
        g.lemma_log(ids, h, j);
        let a = h.delivered[i];
        let b = h.delivered[j];
        assert(h.faithful(ids, i, g.nodes[i], g.logs[i]));
        assert(h.faithful(ids, j, g.nodes[j], g.logs[j]));
        let n = if a.len() < b.len() {
            a.len()
        } else {
            b.len()
        };
        assert(a.take(n as int) =~= b.take(n as int)) by {
            assert forall|x: int| 0 <= x < n implies a[x] == b[x] by {
                let slot = (x + 1) as u64;
                assert(h.slot(slot).chosen(a[x]));
                assert(h.slot(slot).chosen(b[x]));
                assert(h.slot(slot).sound());
                h.slot(slot).at_most_one_value_is_chosen(a[x], b[x]);
            }
        }
        lemma_deliveries_prefix(a, n as int);
        lemma_deliveries_prefix(b, n as int);
        assert(deliveries(a)[k] == deliveries(a).take(n as int)[k]);
        assert(deliveries(b)[k] == deliveries(b).take(n as int)[k]);
        assert(g.logs[i][k] == deliveries(a).take(g.logs[i].len() as int)[k]);
        assert(g.logs[j][k] == deliveries(b).take(g.logs[j].len() as int)[k]);
    }

    /// What counts as delivered is a function of the log prefix: two replicas
    /// that have delivered as many slots agree on it.
    pub proof fn replicas_agree_on_what_is_delivered(
        configs: Seq<ConfigView>,
        events: Seq<Event>,
        i: int,
        j: int,
    )
        requires
            forms_group(configs),
            0 <= i < configs.len(),
            0 <= j < configs.len(),
            Group::initial(configs).run(events).nodes[i].decided == Group::initial(configs).run(
                events,
            ).nodes[j].decided,
        ensures
            Group::initial(configs).run(events).nodes[i].dedup == Group::initial(configs).run(
                events,
            ).nodes[j].dedup,
    {
        let g = Group::initial(configs).run(events);
        let ids = configs[0].replicas;
        let h = Group::lemma_run(configs, events);
        let a = h.delivered[i];
        let b = h.delivered[j];
        assert(h.faithful(ids, i, g.nodes[i], g.logs[i]));
        assert(h.faithful(ids, j, g.nodes[j], g.logs[j]));
        assert forall|x: int| 0 <= x < a.len() implies a[x] == b[x] by {
            let slot = (x + 1) as u64;
            assert(h.slot(slot).chosen(a[x]));
            assert(h.slot(slot).chosen(b[x]));
            assert(h.slot(slot).sound());
            h.slot(slot).at_most_one_value_is_chosen(a[x], b[x]);
        }
        assert(a =~= b);
    }

    /// Every replica delivers slot 1, then slot 2, and so on without gaps, and
    /// its watermark counts the deliveries it has handed out or holds ready.
    pub proof fn delivery_is_in_order_without_gaps(
        configs: Seq<ConfigView>,
        events: Seq<Event>,
        i: int,
    )
        requires
            forms_group(configs),
            0 <= i < configs.len(),
        ensures
            ({
                let g = Group::initial(configs).run(events);
                &&& forall|k: int|
                    0 <= k < g.logs[i].len() ==> (#[trigger] g.logs[i][k]).0 == Slot((k + 1) as u64)
                &&& g.nodes[i].decided == g.logs[i].len() + pending(g.nodes[i].actions).len()
            }),
    {
        let g = Group::initial(configs).run(events);
        let h = Group::lemma_run(configs, events);
        g.lemma_log(configs[0].replicas, h, i);
        let all = deliveries(h.delivered[i]);
        lemma_deliveries(h.delivered[i]);
        assert forall|k: int| 0 <= k < g.logs[i].len() implies (#[trigger] g.logs[i][k]).0 == Slot(
            (k + 1) as u64,
        ) by {
            assert(g.logs[i][k] == all.take(g.logs[i].len() as int)[k]);
            assert(all[k].0 == Slot((k + 1) as u64));
        }
    }

    /// No replica delivers a command twice, in one slot or in two.
    pub proof fn commands_are_delivered_at_most_once(
        configs: Seq<ConfigView>,
        events: Seq<Event>,
        i: int,
        k: int,
        a: int,
        l: int,
        b: int,
    )
        requires
            forms_group(configs),
            0 <= i < configs.len(),
            ({
                let log = Group::initial(configs).run(events).logs[i];
                &&& 0 <= k < log.len()
                &&& 0 <= a < log[k].1.len()
                &&& 0 <= l < log.len()
                &&& 0 <= b < log[l].1.len()
                &&& (k != l || a != b)
            }),
        ensures
            ({
                let log = Group::initial(configs).run(events).logs[i];
                log[k].1[a].0 != log[l].1[b].0
            }),
    {
        let g = Group::initial(configs).run(events);
        let h = Group::lemma_run(configs, events);
        g.lemma_log(configs[0].replicas, h, i);
        let all = deliveries(h.delivered[i]);
        let log = g.logs[i];
        assert(log[k] == all.take(log.len() as int)[k]);
        assert(log[l] == all.take(log.len() as int)[l]);
        lemma_deliveries_once(h.delivered[i]);
        assert(all[k].1[a].0 != all[l].1[b].0);
    }

    /// Only submitted commands are delivered, and unchanged.
    pub proof fn only_submitted_commands_are_delivered(
        configs: Seq<ConfigView>,
        events: Seq<Event>,
        i: int,
        k: int,
        a: int,
    )
        requires
            forms_group(configs),
            0 <= i < configs.len(),
            0 <= k < Group::initial(configs).run(events).logs[i].len(),
            0 <= a < Group::initial(configs).run(events).logs[i][k].1.len(),
        ensures
            Group::initial(configs).run(events).submitted.contains(
                Group::initial(configs).run(events).logs[i][k].1[a],
            ),
    {
        let g = Group::initial(configs).run(events);
        let ids = configs[0].replicas;
        let h = Group::lemma_run(configs, events);
        g.lemma_log(ids, h, i);
        assert(h.faithful(ids, i, g.nodes[i], g.logs[i]));
        let vals = h.delivered[i];
        let all = deliveries(vals);
        lemma_deliveries(vals);
        assert(g.logs[i][k] == all.take(g.logs[i].len() as int)[k]);
        h.lemma_delivered_submitted(ids.len(), i, g.nodes[i], g.logs[i], k, a);
    }

    /// The sparse part of the deduplication table is bounded: whatever the
    /// order in which an origin's commands were decided, no delivered sequence
    /// number kept above the contiguous mark is past the sequencing window.
    pub proof fn sparse_sets_stay_within_the_window(
        configs: Seq<ConfigView>,
        events: Seq<Event>,
        i: int,
        o: Origin,
        seq: u64,
    )
        requires
            forms_group(configs),
            0 <= i < configs.len(),
            Group::initial(configs).run(events).nodes[i].dedup.of(o).above.contains(seq),
        ensures
            ({
                let mark = Group::initial(configs).run(events).nodes[i].dedup.high_water(o);
                mark < seq <= mark + DEDUP_WINDOW
            }),
    {
        let g = Group::initial(configs).run(events);
        let ids = configs[0].replicas;
        let h = Group::lemma_run(configs, events);
        assert(h.faithful(ids, i, g.nodes[i], g.logs[i]));
        let vals = h.delivered[i];
        assert forall|k: int| 0 <= k < vals.len() implies #[trigger] within_window_of_prefix(
            vals,
            k,
        ) by {
            let slot = (k + 1) as u64;
            assert(h.slot(slot).chosen(vals[k]));
            assert(h.slot(slot).sound());
            h.slot(slot).chosen_values_were_proposed(vals[k]);
            assert(h.proposable(slot, vals[k]));
            let w = choose|w: Seq<Seq<u8>>| #[trigger] h.timely(slot, vals[k], w);
            assert forall|x: int| 0 <= x < w.len() implies w[x] == vals[x] by {
                let y = (x + 1) as u64;
                assert(h.slot(y).chosen(w[x]));
                assert(h.slot(y).chosen(vals[x]));
                assert(h.slot(y).sound());
                h.slot(y).at_most_one_value_is_chosen(w[x], vals[x]);
            }
            assert(vals.take(w.len() as int) =~= w);
        }
        lemma_values_sparse(vals);
        assert(sparse(g.nodes[i].dedup));
    }

    /// Each decided slot has one value: two replicas that hold a decision for
    /// the same slot hold the same.
    pub proof fn decided_values_agree(
        configs: Seq<ConfigView>,
        events: Seq<Event>,
        i: int,
        j: int,
        slot: u64,
    )
        requires
            forms_group(configs),
            0 <= i < configs.len(),
            0 <= j < configs.len(),
            Group::initial(configs).run(events).nodes[i].retained.contains_key(slot),
            Group::initial(configs).run(events).nodes[j].retained.contains_key(slot),
        ensures
            Group::initial(configs).run(events).nodes[i].retained[slot] == Group::initial(
                configs,
            ).run(events).nodes[j].retained[slot],
    {
        let g = Group::initial(configs).run(events);
        let ids = configs[0].replicas;
        let h = Group::lemma_run(configs, events);
        let a = g.nodes[i];
        let b = g.nodes[j];
        assert(h.faithful(ids, i, a, g.logs[i]));
        assert(h.faithful(ids, j, b, g.logs[j]));
        assert(a.slots.contains_key(slot));
        assert(b.slots.contains_key(slot));
        assert(h.slot(slot).holds(i, a.slots[slot]));
        assert(h.slot(slot).holds(j, b.slots[slot]));
        assert(h.slot(slot).sound());
        h.slot(slot).at_most_one_value_is_chosen(a.retained[slot], b.retained[slot]);
    }

    /// Whether submitted commands have different ids, each is held where it was
    /// submitted, and nothing that was delivered waits in a pool.
    spec fn kept(self, ids: Seq<ReplicaId>) -> bool {
        &&& forall|c: Command, d: Command| #[trigger]
            self.submitted.contains(c) && #[trigger] self.submitted.contains(d) && c.0 == d.0
                ==> c == d
        &&& forall|i: int, c: Command|
            0 <= i < ids.len() && #[trigger] self.submitted.contains(c) && c.0.origin == ids[i]
                ==> (#[trigger] self.nodes[i]).holds(c.0, c.1)
        &&& forall|i: int| 0 <= i < ids.len() ==> (#[trigger] self.nodes[i]).tidy()
    }

    /// A step of replica `i` that drops no command.
    proof fn lemma_node_keeps(self, ids: Seq<ReplicaId>, h: History, i: int, t: State, g: Group)
        requires
            self.explained(ids, h),
            self.kept(ids),
            0 <= i < ids.len(),
            self.nodes[i].keeps(t),
            t.tidy(),
            g.nodes == self.nodes.update(i, t),
            g.submitted == self.submitted,
        ensures
            g.kept(ids),
    {
        assert forall|j: int, c: Command|
            0 <= j < ids.len() && #[trigger] g.submitted.contains(c) && c.0.origin
                == ids[j] implies (#[trigger] g.nodes[j]).holds(c.0, c.1) by {
            let s = self.nodes[j];
            assert(s.holds(c.0, c.1));
            assert(h.faithful(ids, j, s, self.logs[j]));
            assert(h.ids_ok(s.m.me, s.boot, s.next_seq));
            if j == i {
                if s.dedup.is_delivered(c.0) {
                    assert(t.dedup.is_delivered(c.0));
                } else {
                    assert(s.pool.entries.contains_key(c.0));
                }
            }
        }
    }

    proof fn lemma_after_kept(self, ids: Seq<ReplicaId>, h: History, e: Event)
        requires
            self.explained(ids, h),
            self.kept(ids),
        ensures
            self.after(e).kept(ids),
    {
        let g = self.after(e);
        match e {
            Event::Submit { node, now, data } => {
                let s = self.nodes[node];
                if self.has_node(node) && s.submit_error(data.len()) is None && s.next_seq
                    < u64::MAX {
                    assert(h.faithful(ids, node, s, self.logs[node]));
                    assert(h.ids_ok(s.m.me, s.boot, s.next_seq));
                    let t = s.submitted(now, data);
                    assert(!s.dedup.is_delivered(s.next_id())) by {
                        if s.dedup.is_delivered(s.next_id()) {
                            let vals = h.delivered[node];
                            let all = deliveries(vals);
                            let k = lemma_delivered_by(vals, s.next_id());
                            lemma_deliveries(vals);
                            let a = choose|a: int|
                                0 <= a < all[k].1.len() && (#[trigger] all[k].1[a]).0
                                    == s.next_id();
                            h.lemma_delivered_submitted(
                                ids.len(),
                                node,
                                s,
                                self.logs[node],
                                k,
                                a,
                            );
                            assert(h.submitted.contains(all[k].1[a]));
                        }
                    }
                    let _ = s.lemma_submitted_follows(now, data);
                    let mid = Group { nodes: g.nodes, ..self };
                    self.lemma_node_keeps(ids, h, node, t, mid);
                    let new = (s.next_id(), data);
                    assert forall|c: Command| #[trigger] self.submitted.contains(c) implies c.0
                        != new.0 by {}
                    assert forall|j: int, c: Command|
                        0 <= j < ids.len() && #[trigger] g.submitted.contains(c) && c.0.origin
                            == ids[j] implies (#[trigger] g.nodes[j]).holds(c.0, c.1) by {
                        if c == new {
                            if j != node {
                                Group::lemma_distinct(ids, j, node);
                            }
                        } else {
                            assert(mid.submitted.contains(c));
                            assert(mid.nodes[j].holds(c.0, c.1));
                        }
                    }
                }
            },
            Event::Receive { node, now, message } => {
                let s = self.nodes[node];
                if self.has_node(node) && self.net.contains((s.m.me, message)) {
                    assert(h.faithful(ids, node, s, self.logs[node]));
                    let _ = s.lemma_received_follows(now, message);
                    s.lemma_received_wf(now, message);
                    self.lemma_node_keeps(ids, h, node, s.received(now, message), g);
                }
            },
            Event::Tick { node, now } => {
                let s = self.nodes[node];
                if self.has_node(node) {
                    assert(h.faithful(ids, node, s, self.logs[node]));
                    let _ = s.lemma_ticked_follows(now);
                    s.lemma_ticked_wf(now);
                    self.lemma_node_keeps(ids, h, node, s.ticked(now), g);
                }
            },
            Event::Poll { node } => {
                let s = self.nodes[node];
                if self.has_node(node) && s.actions.len() > 0 {
                    let t = State { actions: s.actions.drop_first(), ..s };
                    assert(t.tidy()) by {
                        reveal(State::tidy);
                    }
                    self.lemma_node_keeps(ids, h, node, t, g);
                }
            },
        }
    }

    proof fn lemma_run_kept(configs: Seq<ConfigView>, events: Seq<Event>)
        requires
            forms_group(configs),
        ensures
            Group::initial(configs).run(events).kept(configs[0].replicas),
        decreases events.len(),
    {
        if events.len() == 0 {
            reveal(State::tidy);
        } else {
            let init = events.drop_last();
            let h = Group::lemma_run(configs, init);
            Group::lemma_run_kept(configs, init);
            Group::initial(configs).run(init).lemma_after_kept(
                configs[0].replicas,
                h,
                events.last(),
            );
        }
    }

    /// No submitted command is lost: each waits in the pool of the replica it
    /// was submitted at until that replica delivers it, unchanged.
    pub proof fn commands_are_kept_until_delivered(
        configs: Seq<ConfigView>,
        events: Seq<Event>,
        i: int,
        c: Command,
    )
        requires
            forms_group(configs),
            0 <= i < configs.len(),
            Group::initial(configs).run(events).submitted.contains(c),
            c.0.origin == configs[i].me,
        ensures
            ({
                let g = Group::initial(configs).run(events);
                let s = g.nodes[i];
                let all = g.logs[i] + pending(s.actions);
                ||| s.pool.entries.contains_key(c.0) && s.pool.entries[c.0].data == c.1
                ||| exists|k: int| 0 <= k < all.len() && #[trigger] all[k].1.contains(c)
            }),
    {
        let g = Group::initial(configs).run(events);
        let ids = configs[0].replicas;
        let h = Group::lemma_run(configs, events);
        Group::lemma_run_kept(configs, events);
        let s = g.nodes[i];
        assert(h.faithful(ids, i, s, g.logs[i]));
        assert(h.ids_ok(s.m.me, s.boot, s.next_seq));
        assert(configs[i].me == ids[i]);
        assert(s.holds(c.0, c.1));
        if s.dedup.is_delivered(c.0) {
            let vals = h.delivered[i];
            let all = deliveries(vals);
            let k = lemma_delivered_by(vals, c.0);
            lemma_deliveries(vals);
            let a = choose|a: int| 0 <= a < all[k].1.len() && (#[trigger] all[k].1[a]).0 == c.0;
            let d = all[k].1[a];
            h.lemma_delivered_submitted(ids.len(), i, s, g.logs[i], k, a);
            assert(g.submitted.contains(d));
            assert(d == c);
            assert(all[k].1.contains(c));
        }
    }

    /// Delivered commands leave the pool: none that a replica has handed out, or
    /// holds ready to, waits in its pool.
    pub proof fn delivered_commands_leave_the_pool(
        configs: Seq<ConfigView>,
        events: Seq<Event>,
        i: int,
        k: int,
        c: Command,
    )
        requires
            forms_group(configs),
            0 <= i < configs.len(),
            ({
                let g = Group::initial(configs).run(events);
                let all = g.logs[i] + pending(g.nodes[i].actions);
                0 <= k < all.len() && all[k].1.contains(c)
            }),
        ensures
            !Group::initial(configs).run(events).nodes[i].pool.entries.contains_key(c.0),
    {
        let g = Group::initial(configs).run(events);
        let ids = configs[0].replicas;
        let h = Group::lemma_run(configs, events);
        Group::lemma_run_kept(configs, events);
        let s = g.nodes[i];
        assert(h.faithful(ids, i, s, g.logs[i]));
        let vals = h.delivered[i];
        let all = deliveries(vals);
        lemma_deliveries(vals);
        lemma_deliveries_once(vals);
        let a = choose|a: int| 0 <= a < all[k].1.len() && all[k].1[a] == c;
        assert(!s.dedup.admits(all[k].1[a].0));
        h.lemma_delivered_submitted(ids.len(), i, s, g.logs[i], k, a);
        Group::lemma_sequenced(configs, events, c);
        marking_delivers_once(s.dedup, c.0, c.0);
        assert(s.tidy());
        reveal(State::tidy);
    }

    /// Submitted commands are numbered from 1 on.
    proof fn lemma_sequenced(configs: Seq<ConfigView>, events: Seq<Event>, c: Command)
        requires
            forms_group(configs),
            Group::initial(configs).run(events).submitted.contains(c),
        ensures
            c.0.seq != 0,
        decreases events.len(),
    {
        if events.len() > 0 {
            let g = Group::initial(configs).run(events.drop_last());
            if g.submitted.contains(c) {
                Group::lemma_sequenced(configs, events.drop_last(), c);
            }
        }
    }

    /// No two submitted commands share an id: a submission gets an id that no
    /// command submitted before has.
    pub proof fn submissions_get_fresh_ids(
        configs: Seq<ConfigView>,
        events: Seq<Event>,
        i: int,
        c: Command,
    )
        requires
            forms_group(configs),
            0 <= i < configs.len(),
            Group::initial(configs).run(events).submitted.contains(c),
            Group::initial(configs).run(events).nodes[i].next_seq < u64::MAX,
        ensures
            c.0 != Group::initial(configs).run(events).nodes[i].next_id(),
    {
        let g = Group::initial(configs).run(events);
        let ids = configs[0].replicas;
        let h = Group::lemma_run(configs, events);
        let s = g.nodes[i];
        assert(h.faithful(ids, i, s, g.logs[i]));
        assert(h.ids_ok(s.m.me, s.boot, s.next_seq));
        assert(h.submitted.contains(c));
    }
}

impl Group {
    /// Every message that is sent decodes to what it was encoded from: it
    /// fits the wire format. It goes from one member to another.
    pub proof fn messages_survive_the_wire(
        configs: Seq<ConfigView>,
        events: Seq<Event>,
        to: ReplicaId,
        message: MessageView,
    )
        requires
            forms_group(configs),
            Group::initial(configs).run(events).net.contains((to, message)),
        ensures
            parse_message(message.bytes()) == Some(message),
            configs[0].replicas.contains(message.from),
            configs[0].replicas.contains(to),
            to != message.from,
    {
        let ids = configs[0].replicas;
        let h = Group::lemma_run(configs, events);
        assert(h.message_ok(ids, to, message));
        assert(configs[0].wf());
        let f = ids.index_of(message.from);
        assert(ids[f].0 != 0);
        h.lemma_encodable(ids, to, message);
        message_decoding_inverts_encoding(message.bytes(), message);
    }

    /// What a replica knows of another's watermark, it has reached: an
    /// acknowledgment is never ahead of what was delivered.
    pub proof fn acknowledgments_are_true(
        configs: Seq<ConfigView>,
        events: Seq<Event>,
        i: int,
        j: int,
    )
        requires
            forms_group(configs),
            0 <= i < configs.len(),
            0 <= j < configs.len(),
        ensures
            Group::initial(configs).run(events).nodes[i].peer_acked[j] <= Group::initial(
                configs,
            ).run(events).nodes[j].decided,
    {
        let g = Group::initial(configs).run(events);
        let ids = configs[0].replicas;
        let h = Group::lemma_run(configs, events);
        assert(h.faithful(ids, i, g.nodes[i], g.logs[i]));
        assert(h.faithful(ids, j, g.nodes[j], g.logs[j]));
        assert(g.nodes[i].peer_acked[j] <= h.delivered[j].len());
    }

    /// A replica without a retention budget (`usize::MAX`) never frees a value
    /// that some replica has yet to deliver: it can answer the catch-up
    /// request of every straggler, as far as it has decided itself.
    pub proof fn stragglers_stay_recoverable(
        configs: Seq<ConfigView>,
        events: Seq<Event>,
        i: int,
        j: int,
    )
        requires
            forms_group(configs),
            0 <= i < configs.len(),
            0 <= j < configs.len(),
            configs[i].max_retained_bytes == usize::MAX,
        ensures
            ({
                let g = Group::initial(configs).run(events);
                &&& g.nodes[i].gc_floor <= g.nodes[j].decided
                &&& forall|k: u64|
                    g.nodes[j].decided < k <= g.nodes[i].decided
                        ==> #[trigger] g.nodes[i].retained.contains_key(k)
            }),
    {
        let g = Group::initial(configs).run(events);
        let ids = configs[0].replicas;
        let h = Group::lemma_run(configs, events);
        Group::lemma_configs(configs, events, i);
        assert(h.faithful(ids, i, g.nodes[i], g.logs[i]));
        assert(h.faithful(ids, j, g.nodes[j], g.logs[j]));
        assert(g.nodes[i].gc_floor <= h.delivered[j].len());
    }

    /// Configurations do not change.
    proof fn lemma_configs(configs: Seq<ConfigView>, events: Seq<Event>, i: int)
        requires
            forms_group(configs),
            0 <= i < configs.len(),
        ensures
            Group::initial(configs).run(events).nodes.len() == configs.len(),
            Group::initial(configs).run(events).nodes[i].config == configs[i],
        decreases events.len(),
    {
        if events.len() > 0 {
            let before = Group::initial(configs).run(events.drop_last());
            let h = Group::lemma_run(configs, events.drop_last());
            Group::lemma_configs(configs, events.drop_last(), i);
            let s = before.nodes[i];
            assert(h.faithful(configs[0].replicas, i, s, before.logs[i]));
            match events.last() {
                Event::Submit { node, now, data } => {
                    if node == i && s.submit_error(data.len()) is None {
                        s.lemma_submitted_wf(now, data);
                    }
                },
                Event::Receive { node, now, message } => {
                    s.lemma_received_wf(now, message);
                },
                Event::Tick { node, now } => {
                    s.lemma_ticked_wf(now);
                },
                Event::Poll { .. } => {},
            }
        }
    }

    /// Phase 3 never stalls for want of an aggregate: whenever a reply
    /// completes a proposer's quorum in phase 3, some recorder of the quorum
    /// has reported one.
    pub proof fn phase_3_never_lacks_an_aggregate(
        configs: Seq<ConfigView>,
        events: Seq<Event>,
        i: int,
        from: ReplicaId,
        decided: Slot,
        slot: Slot,
        req_step: u32,
        step: u32,
        first: ReplyFirstView,
        prior_agg: Option<ProposalView>,
        run: RunView,
        reported: ProposalView,
    )
        requires
            forms_group(configs),
            0 <= i < configs.len(),
            ({
                let g = Group::initial(configs).run(events);
                let m = configs[0].replicas.index_of(from);
                &&& g.net.contains(
                    (
                        configs[i].me,
                        MessageView {
                            from,
                            decided,
                            payload: PayloadView::RecordReply {
                                slot,
                                req_step,
                                step,
                                first,
                                prior_agg,
                            },
                        },
                    ),
                )
                &&& g.nodes[i].slots.contains_key(slot.0)
                &&& g.nodes[i].slots[slot.0].proposer == ProposerView::Running(run)
                &&& run.step % 4 == 3
                &&& SlotView::resolved(run, m, req_step, first) == Some(reported)
                &&& run.fold_result(
                    m,
                    req_step,
                    step,
                    reported,
                    g.nodes[i].m.quorum as nat,
                ) is Quorum
            }),
        ensures
            run.folded(
                configs[0].replicas.index_of(from),
                req_step,
                step,
                reported,
                prior_agg,
            ).best_agg is Some,
    {
        let g = Group::initial(configs).run(events);
        let ids = configs[0].replicas;
        let h = Group::lemma_run(configs, events);
        let m = ids.index_of(from);
        let s = g.nodes[i];
        assert(h.faithful(ids, i, s, g.logs[i]));
        assert(configs[i].wf());
        assert(configs[i].me == ids[i]);
        s.lemma_index(ids[i]);
        let payload = PayloadView::RecordReply { slot, req_step, step, first, prior_agg };
        assert(h.message_ok(ids, configs[i].me, MessageView { from, decided, payload }));
        assert(ids.index_of(ids[i]) == i);
        let q = h.slot(slot.0);
        assert(q.sound());
        assert(q.n() == ids.len());
        assert(q.holds(i, s.slots[slot.0]));
        if first is Echo {
            assert(q.offer(i, run.step, m) == run.proposal_for(m));
        }
        q.lemma_folded(i, run, m, req_step, step, reported, prior_agg);
        lemma_set_count_update(run.replied, m);
        q.phase_3_finds_an_aggregate(
            i,
            run.folded(m, req_step, step, reported, prior_agg),
        );
    }
}

} // verus!
