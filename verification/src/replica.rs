//! One member of a consensus group.

mod messages;
mod proposing;
mod retention;
mod timers;

use std::collections::VecDeque;

use vstd::prelude::*;

use crate::config::{position, Config};
use crate::pool::{Dedup, Pool};
use crate::proposer::Member;
use crate::rng::Rng;
use crate::slot::SlotState;
use crate::sorted::SortedMap;
use crate::state::{lengths, ActionView, State};
use crate::types::{Bytes, Command, CommandId, ReplicaId, Slot};
use crate::wire::{Message, Payload};

verus! {

/// An effect for the application to perform, drained via
/// [`Replica::poll_action`] after every input call.
pub enum Action {
    /// Transport `message.encode()` to replica `to` (best effort; the
    /// protocol tolerates loss, reordering, and duplication).
    Send {
        /// Destination replica.
        to: ReplicaId,
        /// The message to encode and transmit.
        message: Message,
    },
    /// Apply the commands of a decided slot to the application state
    /// machine.
    ///
    /// Emitted strictly in slot order with no gaps, on every replica, with
    /// identical contents. Commands are deduplicated (exactly-once across
    /// the whole log). `commands` may be empty; such slots still advance the
    /// application's watermark.
    Deliver {
        /// The decided slot.
        slot: Slot,
        /// The slot's commands, in batch order.
        commands: Vec<(CommandId, Vec<u8>)>,
    },
}

/// The commands that a delivery hands out.
pub open spec fn delivered_commands(commands: Seq<(CommandId, Vec<u8>)>) -> Seq<Command> {
    commands.map_values(|c: (CommandId, Vec<u8>)| (c.0, c.1@))
}

impl View for Action {
    type V = ActionView;

    open spec fn view(&self) -> ActionView {
        match self {
            Action::Send { to, message } => ActionView::Send { to: *to, message: message@ },
            Action::Deliver { slot, commands } => ActionView::Deliver {
                slot: *slot,
                commands: delivered_commands(commands@),
            },
        }
    }
}

/// One member of a QuePaxa consensus group.
///
/// This is a deterministic, I/O-free state machine: the application feeds in
/// submitted commands, received messages, and time, and carries out the
/// [`Action`]s the replica emits. See the crate docs for the driving
/// contract.
pub struct Replica {
    config: Config,
    m: Member,
    boot: u64,
    rng: Rng,
    /// Slot states, retained from `gc_floor + 1` upward.
    slots: SortedMap<u64, SlotState>,
    /// Contiguous decided (and delivered) watermark.
    decided_contig: Slot,
    /// Decided values retained for lagging replicas, `gc_floor + 1` upward.
    /// Contiguous through `decided_contig`; may contain decided-ahead slots
    /// beyond it.
    retained: SortedMap<u64, Bytes>,
    retained_bytes: usize,
    /// Everything at or below this slot has been freed; a replica that has
    /// not delivered past it can no longer be caught up by this one.
    gc_floor: Slot,
    /// Highest decided watermark seen from each replica (self included),
    /// from message headers. Drives retention GC.
    peer_acked: Vec<Slot>,
    pool: Pool,
    dedup: Dedup,
    next_seq: u64,
    /// Highest slot this replica has opened as leader.
    max_open: Slot,
    /// Since when the pool has held unassigned commands (hedging trigger for
    /// a fresh frontier slot).
    pool_pending_since: Option<u64>,
    /// Outstanding Learn request: (target schedule index, sent time).
    learn_in_flight: Option<(usize, u64)>,
    /// Counts Learn timeouts, rotating retries across candidate peers so a
    /// dead peer with a high advertised watermark cannot pin catch-up.
    learn_attempts: u64,
    last_ping: u64,
    actions: VecDeque<Action>,
}

impl View for Replica {
    type V = State;

    closed spec fn view(&self) -> State {
        State {
            m: self.m,
            config: self.config@,
            boot: self.boot,
            rng: self.rng,
            slots: self.slots@.map_values(|s: SlotState| s@),
            decided: self.decided_contig.0,
            retained: self.retained@.map_values(|v: Bytes| v@),
            gc_floor: self.gc_floor.0,
            peer_acked: self.peer_acked@.map_values(|s: Slot| s.0),
            pool: self.pool@,
            dedup: self.dedup@,
            next_seq: self.next_seq,
            max_open: self.max_open.0,
            pending_since: self.pool_pending_since,
            learn_in_flight: self.learn_in_flight,
            learn_attempts: self.learn_attempts,
            last_ping: self.last_ping,
            actions: self.actions@.map_values(|a: Action| a@),
        }
    }
}

impl Replica {
    /// What [`Replica::new`] establishes and every operation keeps.
    pub closed spec fn wf(&self) -> bool {
        &&& self@.wf()
        &&& self.parts_wf()
    }

    /// The collections are in order and the counters right.
    spec fn parts_wf(&self) -> bool {
        &&& self.slots.wf()
        &&& self.retained.wf()
        &&& self.pool.wf()
        &&& self.dedup.wf()
        &&& forall|k: u64| #[trigger]
            self.slots@.contains_key(k) ==> self.slots@[k].wf(self.m.n as nat)
        &&& self.retained_bytes == self@.kept()
    }

    /// A well-formed replica's model is well-formed.
    pub proof fn lemma_wf(&self)
        requires
            self.wf(),
        ensures
            self@.wf(),
            self@.kept() <= usize::MAX,
    {
    }

    /// Creates the local member of a consensus group.
    pub fn new(config: Config) -> (r: Replica)
        requires
            config.wf(),
        ensures
            r.wf(),
            r@ == State::initial(config@, r@.m),
            r@.m.me == config.me,
            r@.m.n == config@.replicas.len(),
            config@.replicas[r@.m.me_idx as int] == config.me,
    {
        let n = config.replicas.len();
        let me = config.me;
        let me_idx = match position(&config.replicas, &me) {
            Some(idx) => idx,
            None => 0,
        };
        let boot = config.rng_seed;
        let mut peer_acked: Vec<Slot> = Vec::new();
        let mut i: usize = 0;
        while i < n
            invariant
                i <= n,
                peer_acked@ == Seq::new(i as nat, |j: int| Slot(0)),
            decreases n - i,
        {
            peer_acked.push(Slot(0));
            assert(peer_acked@ =~= Seq::new((i + 1) as nat, |j: int| Slot(0)));
            i += 1;
        }
        let r = Replica {
            m: Member { me, me_idx, n, quorum: n / 2 + 1 },
            boot,
            rng: Rng::new(boot),
            slots: SortedMap::new(),
            decided_contig: Slot(0),
            retained: SortedMap::new(),
            retained_bytes: 0,
            gc_floor: Slot(0),
            peer_acked,
            pool: Pool::default(),
            dedup: Dedup::default(),
            next_seq: 0,
            max_open: Slot(0),
            pool_pending_since: None,
            learn_in_flight: None,
            learn_attempts: 0,
            last_ping: 0,
            actions: VecDeque::new(),
            config,
        };
        proof {
            assert(r@.slots =~= Map::empty());
            assert(r@.retained =~= Map::empty());
            assert(lengths(r@.retained) =~= Map::empty());
            assert(crate::pool::entry_costs(r@.pool.entries) =~= Map::empty());
            assert(r@ =~= State::initial(config@, r@.m));
        }
        r
    }

    /// The current leader: first replica of the hedging schedule. Unlike
    /// leader-based protocols there is no "no leader" state, and the leader
    /// is a performance role only -- commands submitted anywhere keep
    /// committing (via hedged proposers) while it is slow or down.
    pub fn leader(&self) -> (r: ReplicaId)
        requires
            self.wf(),
        ensures
            r == self@.config.replicas[0],
    {
        self.config.replicas[0]
    }

    /// The contiguous decided watermark: every slot up to and including this
    /// one has been decided and emitted as a [`Action::Deliver`].
    pub fn decided(&self) -> (r: Slot)
        ensures
            r == Slot(self@.decided),
    {
        self.decided_contig
    }

    /// Bytes of decided values currently retained for lagging replicas.
    pub fn retained_bytes(&self) -> (r: usize)
        requires
            self.wf(),
        ensures
            r == self@.kept(),
    {
        self.retained_bytes
    }

    /// Drains the next pending effect. Call after every input until `None`.
    pub fn poll_action(&mut self) -> (r: Option<Action>)
        requires
            old(self).wf(),
        ensures
            final(self).wf(),
            match r {
                Some(action) => old(self)@.actions.len() > 0 && action@ == old(self)@.actions[0]
                    && final(self)@ == (State {
                    actions: old(self)@.actions.drop_first(),
                    ..old(self)@
                }),
                None => old(self)@.actions.len() == 0 && final(self)@ == old(self)@,
            },
    {
        let r = self.actions.pop_front();
        proof {
            if r is Some {
                assert(self@ =~= State { actions: old(self)@.actions.drop_first(), ..old(self)@ });
            } else {
                assert(self@ =~= old(self)@);
            }
        }
        r
    }

    fn is_leader(&self) -> (r: bool)
        ensures
            r == self@.m.leads(),
    {
        self.m.me_idx == 0
    }

    fn n(&self) -> (r: usize)
        ensures
            r == self@.m.n,
    {
        self.m.n
    }

    fn send_to(&mut self, idx: usize, payload: Payload)
        requires
            old(self).wf(),
            idx < old(self)@.m.n,
        ensures
            final(self).wf(),
            final(self)@ == old(self)@.send(idx as int, payload@),
    {
        let message = Message { from: self.config.me, decided: self.decided_contig, payload };
        let to = self.config.replicas[idx];
        self.actions.push_back(Action::Send { to, message });
        proof {
            assert(self@ =~= old(self)@.send(idx as int, payload@));
            old(self)@.lemma_send_wf(idx as int, payload@);
        }
    }

    /// How far past the delivered frontier this replica participates as a
    /// recorder or buffers state for.
    fn ahead_window(&self) -> (r: u64)
        ensures
            r == self@.ahead_window(),
    {
        4 * self.config.pipeline as u64 + 64
    }

    fn forward_interval(&self) -> (r: u64)
        ensures
            r == self@.forward_interval(),
    {
        let twice = self.config.hedge_delay.saturating_add(self.config.hedge_delay);
        if twice > self.config.retransmit_delay {
            twice
        } else {
            self.config.retransmit_delay
        }
    }

    /// The forwarding target for a command's `attempts`-th transmission:
    /// the leader first, then rotating through the other replicas.
    fn forward_target(&self, attempts: u64) -> (r: Option<usize>)
        requires
            self.wf(),
        ensures
            match r {
                Some(idx) => self@.m.n > 1 && idx == self@.forward_target(attempts) && idx
                    < self@.m.n && idx != self@.m.me_idx,
                None => self@.m.n == 1,
            },
    {
        let others = self.m.n - 1;
        if others == 0 {
            return None;
        }
        let r = (attempts % others as u64) as usize;
        if r < self.m.me_idx {
            Some(r)
        } else {
            Some(r + 1)
        }
    }

    fn refresh_pool_pending(&mut self, now: u64)
        requires
            old(self).wf(),
        ensures
            final(self).wf(),
            final(self)@ == old(self)@.refreshed(now),
    {
        if self.pool.has_unassigned() {
            if self.pool_pending_since.is_none() {
                self.pool_pending_since = Some(now);
            }
        } else {
            self.pool_pending_since = None;
        }
        proof {
            assert(self@ =~= old(self)@.refreshed(now));
            old(self)@.lemma_refreshed_wf(now);
        }
    }
}

} // verus!
