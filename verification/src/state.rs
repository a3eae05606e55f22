//! The mathematical model of a replica: what it holds, and what each of its
//! operations makes of that.

use vstd::prelude::*;

use crate::config::ConfigView;
use crate::pool::{entry_cost, origin_of, total, DedupView, EntryView, PoolView};
use crate::proposer::{after_draws, Member, ProposerView, RunView};
use crate::recorder::RecorderView;
use crate::rng::Rng;
use crate::slot::{ProgressView, SlotView};
use crate::sorted::ascending;
use crate::types::{
    batch_bytes, parse_batch, Command, CommandId, ProposalView, ReplicaId, Slot, MAX_COMMAND_BYTES,
};
use crate::wire::{MessageView, PayloadView, ReplyFirstView};

verus! {

/// Heartbeat interval (every replica, to every peer): bounds how long a
/// quiesced or lagging replica can remain unaware of the latest decisions,
/// and keeps the acknowledgment watermarks that drive retention GC flowing
/// on all links regardless of which replicas are alive.
pub const PING_INTERVAL: u64 = 1_000_000_000;

/// Size target for one `LearnReply` chunk.
pub const LEARN_CHUNK_BYTES: usize = 0x10_0000;

/// Maximum sequence distance past an origin's delivered high-water mark that
/// its commands are batched at, bounding the sparse dedup set.
pub const DEDUP_WINDOW: u64 = 1024;

/// What an [`Action`](crate::Action) holds.
#[verifier::ext_equal]
pub enum ActionView {
    Send { to: ReplicaId, message: MessageView },
    Deliver { slot: Slot, commands: Seq<Command> },
}

/// Error returned by [`Replica::submit`](crate::Replica::submit).
#[derive(Debug, Clone, Copy, PartialEq, Eq, Structural)]
#[non_exhaustive]
pub enum SubmitError {
    /// The local pool of undelivered commands is at `max_pool_bytes`.
    /// Deliver (or drop) in-flight work before submitting more.
    PoolFull,
    /// The command exceeds the wire format's 1 GiB per-command limit.
    CommandTooLarge,
}

impl SubmitError {
    /// A human-readable description.
    pub fn message(&self) -> (r: &'static str)
        ensures
            r@ == (match self {
                SubmitError::PoolFull => "command pool is full"@,
                SubmitError::CommandTooLarge => "command exceeds the 1 GiB limit"@,
            }),
    {
        match self {
            SubmitError::PoolFull => "command pool is full",
            SubmitError::CommandTooLarge => "command exceeds the 1 GiB limit",
        }
    }
}

/// What a [`Replica`](crate::Replica) holds.
#[verifier::ext_equal]
pub struct State {
    pub m: Member,
    pub config: ConfigView,
    pub boot: u64,
    pub rng: Rng,
    /// Slot states, from `gc_floor + 1` upward.
    pub slots: Map<u64, SlotView>,
    /// Contiguous decided (and delivered) watermark.
    pub decided: u64,
    /// Decided values kept for lagging replicas, from `gc_floor + 1` upward.
    pub retained: Map<u64, Seq<u8>>,
    /// Everything at or below this slot has been freed.
    pub gc_floor: u64,
    /// Highest decided watermark seen from each replica.
    pub peer_acked: Seq<u64>,
    pub pool: PoolView,
    pub dedup: DedupView,
    pub next_seq: u64,
    /// Highest slot this replica has opened as leader.
    pub max_open: u64,
    /// Since when the pool has held unassigned commands.
    pub pending_since: Option<u64>,
    /// Outstanding catch-up request: whom it went to, and when.
    pub learn_in_flight: Option<(usize, u64)>,
    pub learn_attempts: u64,
    pub last_ping: u64,
    /// Effects not yet handed out.
    pub actions: Seq<ActionView>,
}

/// The length of each value.
pub open spec fn lengths(values: Map<u64, Seq<u8>>) -> Map<u64, nat> {
    values.map_values(|v: Seq<u8>| v.len())
}

/// The commands in a decided value. One that is no batch counts as empty.
pub open spec fn batch_of(value: Seq<u8>) -> Seq<Command> {
    match parse_batch(value) {
        Some(cs) => cs,
        None => Seq::empty(),
    }
}

/// The deduplication table after the commands `cs` were up for delivery.
pub open spec fn dedup_after(d: DedupView, cs: Seq<Command>) -> DedupView
    decreases cs.len(),
{
    if cs.len() == 0 {
        d
    } else {
        dedup_after(d, cs.drop_last()).marked(cs.last().0)
    }
}

/// Those of `cs` that are delivered, being new.
pub open spec fn accepted(d: DedupView, cs: Seq<Command>) -> Seq<Command>
    decreases cs.len(),
{
    if cs.len() == 0 {
        Seq::empty()
    } else {
        let before = accepted(d, cs.drop_last());
        if dedup_after(d, cs.drop_last()).admits(cs.last().0) {
            before.push(cs.last())
        } else {
            before
        }
    }
}

/// The pool without the commands `cs`.
pub open spec fn pool_without(p: PoolView, cs: Seq<Command>) -> PoolView
    decreases cs.len(),
{
    if cs.len() == 0 {
        p
    } else {
        pool_without(p, cs.drop_last()).removed(cs.last().0)
    }
}

/// The accounted cost of the commands `cs`.
pub open spec fn commands_cost(cs: Seq<Command>) -> nat
    decreases cs.len(),
{
    if cs.len() == 0 {
        0
    } else {
        commands_cost(cs.drop_last()) + entry_cost(cs.last().1.len())
    }
}

/// The longest prefix of `cs` that is a single command or costs at most
/// `limit`.
pub open spec fn fitting(cs: Seq<Command>, limit: nat) -> Seq<Command>
    decreases cs.len(),
{
    if cs.len() <= 1 || commands_cost(cs) <= limit {
        cs
    } else {
        fitting(cs.drop_last(), limit)
    }
}

/// The smallest of `marks`.
pub open spec fn least(marks: Seq<u64>) -> u64
    decreases marks.len(),
{
    if marks.len() <= 1 {
        marks[0]
    } else {
        let l = least(marks.drop_last());
        if marks.last() < l {
            marks.last()
        } else {
            l
        }
    }
}

/// The values of slots `slot..`, up to `last` or until they fill a chunk of
/// which `bytes` are taken.
pub open spec fn chunk_of(values: Map<u64, Seq<u8>>, slot: u64, last: u64, bytes: nat) -> Seq<
    Seq<u8>,
>
    decreases last - slot,
{
    let value = values[slot];
    if slot >= last || bytes + value.len() >= LEARN_CHUNK_BYTES {
        seq![value]
    } else {
        seq![value] + chunk_of(values, (slot + 1) as u64, last, bytes + value.len())
    }
}

/// Commands on their way to other replicas: messages that are complete, and
/// the one being filled for each replica.
#[verifier::ext_equal]
pub struct Chunks {
    pub full: Seq<(int, Seq<Command>)>,
    pub open: Seq<Seq<Command>>,
}

impl Chunks {
    pub open spec fn empty(n: nat) -> Chunks {
        Chunks { full: Seq::empty(), open: Seq::new(n, |i: int| Seq::empty()) }
    }

    /// With one more command for replica `target`.
    pub open spec fn with(self, target: int, c: Command, limit: nat) -> Chunks {
        let filling = self.open[target];
        if filling.len() > 0 && commands_cost(filling) + entry_cost(c.1.len()) > limit {
            Chunks {
                full: self.full.push((target, filling)),
                open: self.open.update(target, seq![c]),
            }
        } else {
            Chunks { open: self.open.update(target, filling.push(c)), ..self }
        }
    }

    /// The complete messages followed by the nonempty open ones of the first
    /// `k` replicas.
    pub open spec fn flushed(self, k: nat) -> Seq<(int, Seq<Command>)>
        decreases k,
    {
        if k == 0 {
            self.full
        } else {
            let before = self.flushed((k - 1) as nat);
            if self.open[k - 1].len() > 0 {
                before.push((k - 1, self.open[k - 1]))
            } else {
                before
            }
        }
    }
}

impl State {
    /// Whether this and `other` are the same member with the same settings,
    /// and agree on which slots were opened and on what is outside of slots,
    /// log and pool.
    pub open spec fn kin(self, other: State) -> bool {
        &&& self.m == other.m
        &&& self.config == other.config
        &&& self.boot == other.boot
        &&& self.next_seq == other.next_seq
        &&& self.last_ping == other.last_ping
        &&& self.learn_attempts == other.learn_attempts
    }

    /// Sending changes the pending effects only.
    pub proof fn lemma_send_upto_frame(self, k: nat, payloads: spec_fn(int) -> PayloadView)
        ensures
            self.send_upto(k, payloads) == (State {
                actions: self.send_upto(k, payloads).actions,
                ..self
            }),
        decreases k,
    {
        if k > 0 {
            self.lemma_send_upto_frame((k - 1) as nat, payloads);
        }
    }

    /// Delivery changes the watermark, the deduplication table, the pool and
    /// the pending effects only.
    pub proof fn lemma_delivered_frame(self)
        ensures
            ({
                let s = self.delivered();
                s == (State {
                    decided: s.decided,
                    dedup: s.dedup,
                    pool: s.pool,
                    actions: s.actions,
                    ..self
                })
            }),
            self.delivered().decided >= self.decided,
            !self.delivered().can_deliver(),
        decreases u64::MAX - self.decided,
    {
        if self.can_deliver() {
            self.delivered_one().lemma_delivered_frame();
        }
    }

    /// Eviction changes slots, retained values and their floor only.
    pub proof fn lemma_evicted_frame(self)
        ensures
            ({
                let s = self.evicted();
                s == (State { gc_floor: s.gc_floor, slots: s.slots, retained: s.retained, ..self })
            }),
            self.evicted().gc_floor >= self.gc_floor,
            self.gc_floor <= self.decided ==> self.evicted().gc_floor <= self.decided,
            self.evicted().kept() <= self.config.max_retained_bytes || self.evicted().gc_floor
                >= self.decided,
        decreases self.decided - self.gc_floor,
    {
        if self.kept() > self.config.max_retained_bytes && self.gc_floor < self.decided {
            self.freed((self.gc_floor + 1) as u64).lemma_evicted_frame();
        }
    }

    /// Settling a decision opens no slot.
    pub proof fn lemma_settled_frame(self, now: u64, slot: u64, value: Seq<u8>, is_decider: bool)
        ensures
            self.settled(now, slot, value, is_decider).kin(self),
            self.settled(now, slot, value, is_decider).max_open == self.max_open,
            self.settled(now, slot, value, is_decider).rng == self.rng,
            self.settled(now, slot, value, is_decider).learn_in_flight == self.learn_in_flight,
            self.settled(now, slot, value, is_decider).decided >= self.decided,
    {
        let s1 = self.observed(now, slot).installed(slot, value);
        let f = |idx: int| PayloadView::Decide { slot: Slot(slot), value };
        s1.lemma_send_upto_frame(self.m.n as nat, f);
        let s2 = if is_decider {
            s1.send_all(f)
        } else {
            s1
        };
        let s3 = s2.released(slot, batch_of(value)).refreshed(now);
        s3.lemma_delivered_frame();
        let s4 = s3.delivered().acknowledged().refreshed(now).acknowledged();
        s4.freed(least(s4.peer_acked)).lemma_evicted_frame();
    }

    /// A replica that has seen nothing.
    pub open spec fn initial(config: ConfigView, m: Member) -> State {
        State {
            m,
            config,
            boot: config.rng_seed,
            rng: Rng::seeded(config.rng_seed),
            slots: Map::empty(),
            decided: 0,
            retained: Map::empty(),
            gc_floor: 0,
            peer_acked: Seq::new(m.n as nat, |i: int| 0u64),
            pool: PoolView::empty(),
            dedup: DedupView::empty(),
            next_seq: 0,
            max_open: 0,
            pending_since: None,
            learn_in_flight: None,
            learn_attempts: 0,
            last_ping: 0,
            actions: Seq::empty(),
        }
    }

    /// What every operation keeps.
    pub open spec fn wf(self) -> bool {
        &&& self.m.wf()
        &&& self.config.wf()
        &&& self.m.n == self.config.replicas.len()
        &&& self.m.me == self.config.me
        &&& self.config.replicas[self.m.me_idx as int] == self.m.me
        &&& self.peer_acked.len() == self.m.n
        &&& self.slots_wf()
        &&& self.pool_wf()
    }

    /// Slot states and retained values stand above the freed prefix. A value
    /// is retained exactly for the decided slots, among them every slot from
    /// there to the watermark; a decided slot has no proposer.
    pub open spec fn slots_wf(self) -> bool {
        &&& self.slots.dom().finite()
        &&& self.retained.dom().finite()
        &&& self.gc_floor <= self.decided
        &&& forall|k: u64| #[trigger]
            self.slots.contains_key(k) ==> k > self.gc_floor && self.slots[k].wf(self.m.n as nat)
        &&& forall|k: u64| #[trigger]
            self.retained.contains_key(k) ==> self.slots.contains_key(k) && self.slots[k].recorder
                == RecorderView::Decided(self.retained[k])
        &&& forall|k: u64| #[trigger]
            self.slots.contains_key(k) && self.slots[k].is_decided() ==> self.retained.contains_key(
                k,
            ) && self.slots[k].proposer is Done
        &&& forall|k: u64|
            self.gc_floor < k <= self.decided ==> #[trigger] self.retained.contains_key(k)
        &&& self.kept() <= usize::MAX
    }

    /// The pool is accounted for, stays within its limit, and holds no
    /// oversized command.
    pub open spec fn pool_wf(self) -> bool {
        &&& self.pool.accounted()
        &&& self.pool.bytes <= self.config.max_pool_bytes
        &&& forall|id: CommandId| #[trigger]
            self.pool.entries.contains_key(id) ==> self.pool.entries[id].data.len()
                <= MAX_COMMAND_BYTES
    }

    /// Bytes of decided values kept.
    pub open spec fn kept(self) -> nat {
        total(lengths(self.retained))
    }

    // ---- sending ----

    pub open spec fn send(self, idx: int, payload: PayloadView) -> State {
        State {
            actions: self.actions.push(
                ActionView::Send {
                    to: self.config.replicas[idx],
                    message: MessageView {
                        from: self.m.me,
                        decided: Slot(self.decided),
                        payload,
                    },
                },
            ),
            ..self
        }
    }

    /// Sends `payloads(idx)` to each of the first `k` replicas but this one.
    pub open spec fn send_upto(self, k: nat, payloads: spec_fn(int) -> PayloadView) -> State
        decreases k,
    {
        if k == 0 {
            self
        } else {
            let before = self.send_upto((k - 1) as nat, payloads);
            if k - 1 == self.m.me_idx {
                before
            } else {
                before.send(k - 1, payloads(k - 1))
            }
        }
    }

    /// Sends `payloads(idx)` to every other replica.
    pub open spec fn send_all(self, payloads: spec_fn(int) -> PayloadView) -> State {
        self.send_upto(self.m.n as nat, payloads)
    }

    /// The forwarding target for a command's `attempts`-th transmission: the
    /// leader first, then rotating through the other replicas. There is none
    /// in a group of one.
    pub open spec fn forward_target(self, attempts: u64) -> int {
        let r = attempts as int % (self.m.n - 1);
        if r < self.m.me_idx {
            r
        } else {
            r + 1
        }
    }

    pub open spec fn ahead_window(self) -> int {
        4 * self.config.pipeline + 64
    }

    pub open spec fn forward_interval(self) -> u64 {
        let twice = self.config.hedge_delay.saturating_add(self.config.hedge_delay);
        if twice > self.config.retransmit_delay {
            twice
        } else {
            self.config.retransmit_delay
        }
    }

    /// With the time since when commands wait brought up to date.
    pub open spec fn refreshed(self, now: u64) -> State {
        State {
            pending_since: if !self.pool.has_unassigned() {
                None
            } else if self.pending_since is None {
                Some(now)
            } else {
                self.pending_since
            },
            ..self
        }
    }

    // ---- delivery and retention ----

    /// Delivers the slot after the watermark.
    pub open spec fn delivered_one(self) -> State {
        let next = (self.decided + 1) as u64;
        let batch = batch_of(self.retained[next]);
        let commands = accepted(self.dedup, batch);
        State {
            decided: next,
            dedup: dedup_after(self.dedup, batch),
            pool: pool_without(self.pool, commands),
            actions: self.actions.push(ActionView::Deliver { slot: Slot(next), commands }),
            ..self
        }
    }

    /// Whether the slot after the watermark can be delivered.
    pub open spec fn can_deliver(self) -> bool {
        self.decided < u64::MAX && self.retained.contains_key((self.decided + 1) as u64)
    }

    /// Delivers every slot that is next in order.
    pub open spec fn delivered(self) -> State
        decreases u64::MAX - self.decided,
    {
        if self.can_deliver() {
            self.delivered_one().delivered()
        } else {
            self
        }
    }

    /// With this replica's own watermark acknowledged.
    pub open spec fn acknowledged(self) -> State {
        State { peer_acked: self.peer_acked.update(self.m.me_idx as int, self.decided), ..self }
    }

    /// Frees everything up to `floor`.
    pub open spec fn freed(self, floor: u64) -> State {
        if self.gc_floor < floor {
            State {
                gc_floor: floor,
                slots: self.slots.restrict(Set::new(|k: u64| k > floor)),
                retained: self.retained.restrict(Set::new(|k: u64| k > floor)),
                ..self
            }
        } else {
            self
        }
    }

    /// Past the retention budget, frees the oldest delivered values.
    pub open spec fn evicted(self) -> State
        decreases self.decided - self.gc_floor,
    {
        if self.kept() > self.config.max_retained_bytes && self.gc_floor < self.decided {
            self.freed((self.gc_floor + 1) as u64).evicted()
        } else {
            self
        }
    }

    /// Frees what every replica has acknowledged, and more if the budget asks
    /// for it.
    pub open spec fn gced(self) -> State {
        let s = self.acknowledged();
        s.freed(least(s.peer_acked)).evicted()
    }

    pub open spec fn try_delivered(self, now: u64) -> State {
        self.delivered().acknowledged().refreshed(now).gced()
    }

    // ---- the pool ----

    /// The commands that may ride in a new proposal, in id order: in no other
    /// proposal, and within their origin's sequencing window.
    pub open spec fn eligible(self) -> Seq<Command> {
        ascending(self.pool.entries.dom()).filter(
            |id: CommandId|
                self.pool.entries[id].proposed_in is None && id.seq <= self.dedup.high_water(
                    origin_of(id),
                ) + DEDUP_WINDOW,
        ).map_values(|id: CommandId| (id, self.pool.entries[id].data))
    }

    /// The batch that a new proposal takes.
    pub open spec fn next_batch(self) -> Seq<Command> {
        fitting(self.eligible(), self.config.max_batch_bytes as nat)
    }

    /// With the commands `cs` riding in `slot`.
    pub open spec fn claimed(self, slot: u64, cs: Seq<Command>) -> State {
        State { pool: self.pool.claimed(Slot(slot), cs), ..self }
    }

    /// Commands of ours that rode in `slot` and are not among the winners
    /// become available again.
    pub open spec fn released(self, slot: u64, winners: Seq<Command>) -> State {
        State { pool: self.pool.released(Slot(slot), winners), ..self }
    }

    /// Whether a forwarded command enters the pool.
    pub open spec fn takes(self, c: Command) -> bool {
        &&& !self.dedup.is_delivered(c.0)
        &&& !self.pool.entries.contains_key(c.0)
        &&& c.1.len() <= MAX_COMMAND_BYTES
        &&& self.pool.bytes + entry_cost(c.1.len()) <= self.config.max_pool_bytes
    }

    /// With the forwarded commands `cs` that it takes.
    pub open spec fn pooled(self, now: u64, cs: Seq<Command>) -> State
        decreases cs.len(),
    {
        if cs.len() == 0 {
            self
        } else {
            let before = self.pooled(now, cs.drop_last());
            let c = cs.last();
            if before.takes(c) {
                State { pool: before.pool.inserted(c.0, c.1, now), ..before }
            } else {
                before
            }
        }
    }

    // ---- slots ----

    /// With slot `slot` known.
    pub open spec fn observed(self, now: u64, slot: u64) -> State {
        if self.slots.contains_key(slot) {
            self
        } else {
            State { slots: self.slots.insert(slot, SlotView::fresh(now)), ..self }
        }
    }

    /// Whether a decision for `slot` is dropped: freed slots are over, and
    /// remote decisions ahead of the frontier must fit the retention budget.
    pub open spec fn drops(self, slot: u64, value: Seq<u8>, is_decider: bool) -> bool {
        ||| slot <= self.gc_floor
        ||| !is_decider && slot > self.decided + 1 && self.kept() + value.len()
            > self.config.max_retained_bytes
        ||| self.kept() + value.len() > usize::MAX
    }

    /// With `value` installed as the decision of `slot`.
    pub open spec fn installed(self, slot: u64, value: Seq<u8>) -> State {
        State {
            slots: self.slots.insert(
                slot,
                SlotView {
                    recorder: RecorderView::Decided(value),
                    proposer: ProposerView::Done,
                    ..self.slots[slot]
                },
            ),
            retained: self.retained.insert(slot, value),
            ..self
        }
    }

    /// Everything that a decision brings about but for opening new slots:
    /// installation, dissemination, pool bookkeeping, delivery, and GC.
    pub open spec fn settled(self, now: u64, slot: u64, value: Seq<u8>, is_decider: bool) -> State {
        if self.drops(slot, value, is_decider) {
            self
        } else {
            let s = self.observed(now, slot);
            if s.slots[slot].is_decided() {
                State {
                    slots: s.slots.insert(
                        slot,
                        SlotView { proposer: ProposerView::Done, ..s.slots[slot] },
                    ),
                    ..s
                }
            } else {
                let s1 = s.installed(slot, value);
                let s2 = if is_decider {
                    s1.send_all(|idx: int| PayloadView::Decide { slot: Slot(slot), value })
                } else {
                    s1
                };
                s2.released(slot, batch_of(value)).refreshed(now).try_delivered(now)
            }
        }
    }

    /// Whether a decision for `slot` changes anything beyond the slot's own
    /// proposer.
    pub open spec fn settles(self, slot: u64, value: Seq<u8>, is_decider: bool) -> bool {
        !self.drops(slot, value, is_decider) && !(self.slots.contains_key(slot)
            && self.slots[slot].is_decided())
    }

    /// Installs a decided value for a slot (idempotent) and runs everything
    /// downstream.
    pub open spec fn decide(self, now: u64, slot: u64, value: Seq<u8>, is_decider: bool) -> State
        decreases u64::MAX - self.max_open, 3int,
    {
        let s = self.settled(now, slot, value, is_decider);
        if self.settles(slot, value, is_decider) {
            proof {
                self.lemma_settled_frame(now, slot, value, is_decider);
            }
            s.opened(now)
        } else {
            s
        }
    }

    /// The slots beyond the watermark whose proposer is running.
    pub open spec fn running(self) -> Set<u64> {
        self.slots.dom().filter(|k: u64| k > self.decided && self.slots[k].is_running())
    }

    /// The highest slot with a state.
    pub open spec fn last_known(self) -> u64 {
        let keys = ascending(self.slots.dom());
        if keys.len() == 0 {
            0
        } else {
            keys.last()
        }
    }

    /// The highest slot that is open, decided or known.
    pub open spec fn highest(self) -> u64 {
        let a = if self.max_open > self.decided {
            self.max_open
        } else {
            self.decided
        };
        if self.last_known() > a {
            self.last_known()
        } else {
            a
        }
    }

    /// Whether the leader opens one more slot: fewer than `pipeline` proposers
    /// run, the slot is within `pipeline` of the watermark, and there are
    /// commands for it.
    pub open spec fn can_open(self) -> bool {
        &&& self.running().len() < self.config.pipeline
        &&& self.highest() < u64::MAX
        &&& self.highest() + 1 <= self.decided + self.config.pipeline
        &&& self.next_batch().len() > 0
    }

    /// With the commands of a new slot claimed for it.
    pub open spec fn opening(self) -> State {
        let slot = (self.highest() + 1) as u64;
        State { max_open: slot, ..self.claimed(slot, self.next_batch()) }
    }

    /// Opens new slots one after the other.
    pub open spec fn open_more(self, now: u64) -> State
        decreases u64::MAX - self.max_open, 1int,
    {
        if self.can_open() {
            let slot = (self.highest() + 1) as u64;
            let s = self.opening().activated(now, slot, batch_bytes(self.next_batch()));
            if s.max_open > self.max_open {
                s.open_more(now)
            } else {
                s
            }
        } else {
            self
        }
    }

    /// Leader only: opens new slots (up to the pipeline depth) for pool
    /// commands not already riding in an open proposal.
    pub open spec fn opened(self, now: u64) -> State
        decreases u64::MAX - self.max_open, 2int,
    {
        if self.m.leads() {
            self.open_more(now).refreshed(now)
        } else {
            self
        }
    }

    /// With this replica's proposer for `slot` started, unless it has run or
    /// the slot is decided.
    pub open spec fn started(self, now: u64, slot: u64, value: Seq<u8>) -> State {
        State {
            slots: self.slots.insert(
                slot,
                SlotView {
                    proposer: ProposerView::Running(
                        RunView::started(value, self.m, self.m.leads(), now, self.rng),
                    ),
                    ..self.slots[slot]
                },
            ),
            rng: if self.m.leads() {
                self.rng
            } else {
                after_draws(self.rng, self.m.n as nat)
            },
            ..self
        }
    }

    /// Starts this replica's proposer for a slot, always at round 1 phase 0
    /// with a fresh value (the only way new values enter a slot).
    pub open spec fn activated(self, now: u64, slot: u64, value: Seq<u8>) -> State
        decreases u64::MAX - self.max_open, 5int,
    {
        let s = self.observed(now, slot);
        if !(s.slots[slot].proposer is Idle) || s.slots[slot].is_decided() {
            s
        } else {
            s.started(now, slot, value).drive(now, slot)
        }
    }

    /// With the slot's proposer driven against the local recorder.
    pub open spec fn drive_local(self, now: u64, slot: u64) -> State {
        let d = self.slots[slot].driven(self.m, now, self.rng);
        State { slots: self.slots.insert(slot, d.slot), rng: d.rng, ..self }
    }

    /// Broadcasts the step of the slot's running proposer.
    pub open spec fn send_records(self, slot: u64) -> State {
        let run = self.slots[slot].proposer->Running_0;
        self.send_all(
            |idx: int|
                PayloadView::Record {
                    slot: Slot(slot),
                    step: run.step,
                    proposal: run.proposal_for(idx),
                },
        )
    }

    /// Transmits the proposer's current step: records locally (which may
    /// catch the proposer up or complete a quorum immediately, looping to
    /// the next step), then broadcasts to the other recorders.
    pub open spec fn drive(self, now: u64, slot: u64) -> State
        decreases u64::MAX - self.max_open, 4int,
    {
        if self.slots.contains_key(slot) {
            let s = self.drive_local(now, slot);
            match self.slots[slot].driven(self.m, now, self.rng).next {
                ProgressView::Wait => s,
                ProgressView::Send => s.send_records(slot),
                ProgressView::Decided(value) => s.decide(now, slot, value, true),
            }
        } else {
            self
        }
    }

    // ---- messages ----

    pub open spec fn on_record(
        self,
        now: u64,
        from_idx: int,
        slot: u64,
        step: u32,
        p: ProposalView,
    ) -> State {
        if slot <= self.gc_floor || step < 4 || slot > self.decided + self.ahead_window() {
            self
        } else {
            let s = self.observed(now, slot);
            State {
                slots: s.slots.insert(slot, s.slots[slot].recorded(now, step, p)),
                ..s
            }.send(from_idx, s.slots[slot].record_reply(Slot(slot), step, p))
        }
    }

    /// With a recorder's reply folded into the slot's proposer.
    pub open spec fn answered(
        self,
        now: u64,
        from_idx: int,
        slot: u64,
        req_step: u32,
        reply_step: u32,
        first: ReplyFirstView,
        prior_agg: Option<ProposalView>,
    ) -> State {
        State {
            slots: self.slots.insert(
                slot,
                self.slots[slot].answered(
                    self.m,
                    now,
                    self.rng,
                    from_idx,
                    req_step,
                    reply_step,
                    first,
                    prior_agg,
                ),
            ),
            rng: self.slots[slot].answered_rng(
                self.m,
                self.rng,
                from_idx,
                req_step,
                reply_step,
                first,
                prior_agg,
            ),
            ..self
        }
    }

    pub open spec fn on_record_reply(
        self,
        now: u64,
        from_idx: int,
        slot: u64,
        req_step: u32,
        reply_step: u32,
        first: ReplyFirstView,
        prior_agg: Option<ProposalView>,
    ) -> State {
        if self.slots.contains_key(slot) {
            let s = self.answered(now, from_idx, slot, req_step, reply_step, first, prior_agg);
            match self.slots[slot].answer_progress(
                self.m,
                from_idx,
                req_step,
                reply_step,
                first,
                prior_agg,
            ) {
                ProgressView::Wait => s,
                ProgressView::Send => s.drive(now, slot),
                ProgressView::Decided(value) => s.decide(now, slot, value, true),
            }
        } else {
            self
        }
    }

    pub open spec fn on_forward(self, now: u64, cs: Seq<Command>) -> State {
        self.pooled(now, cs).refreshed(now).opened(now)
    }

    pub open spec fn on_learn(self, from_idx: int, from_slot: u64) -> State {
        if from_slot <= self.gc_floor || from_slot > self.decided || from_slot == 0 {
            self
        } else {
            self.send(
                from_idx,
                PayloadView::LearnReply {
                    first_slot: Slot(from_slot),
                    values: chunk_of(self.retained, from_slot, self.decided, 0),
                },
            )
        }
    }

    /// Takes `values` as the decisions of slots `first..`. There is no slot
    /// past the largest number.
    pub open spec fn learned(self, now: u64, first: u64, values: Seq<Seq<u8>>) -> State
        decreases values.len(),
    {
        if values.len() == 0 {
            self
        } else {
            let before = self.learned(now, first, values.drop_last());
            let slot = first + values.len() - 1;
            if slot > u64::MAX {
                before
            } else {
                before.decide(now, slot as u64, values.last(), false)
            }
        }
    }

    pub open spec fn on_learn_reply(self, now: u64, first: u64, values: Seq<Seq<u8>>) -> State {
        State { learn_in_flight: None, ..self }.learned(now, first, values)
    }

    /// Whether a catch-up request is outstanding and not overdue.
    pub open spec fn learn_waits(self, now: u64) -> bool {
        self.learn_in_flight matches Some((_, sent_at)) && now.saturating_sub(sent_at)
            < self.config.retransmit_delay
    }

    /// Asks the replica at `from_idx`, which has decided `their_decided`, for
    /// what this one lacks.
    pub open spec fn request_learn(self, now: u64, from_idx: int, their_decided: u64) -> State {
        if their_decided <= self.decided {
            self
        } else if self.learn_waits(now) {
            self
        } else {
            State { learn_in_flight: Some((from_idx as usize, now)), ..self }.send(
                from_idx,
                PayloadView::Learn { from_slot: Slot((self.decided + 1) as u64) },
            )
        }
    }

    /// The index of a replica in the schedule.
    pub open spec fn index(self, id: ReplicaId) -> int {
        self.config.replicas.index_of(id)
    }

    /// With the sender's watermark noted.
    pub open spec fn noted(self, idx: int, decided: u64) -> State {
        if self.peer_acked[idx] < decided {
            State { peer_acked: self.peer_acked.update(idx, decided), ..self }
        } else {
            self
        }
    }

    /// Acts on a payload from the replica at `idx`.
    pub open spec fn handled(self, now: u64, idx: int, payload: PayloadView) -> State {
        match payload {
            PayloadView::Record { slot, step, proposal } => self.on_record(
                now,
                idx,
                slot.0,
                step,
                proposal,
            ),
            PayloadView::RecordReply { slot, req_step, step, first, prior_agg } =>
            self.on_record_reply(now, idx, slot.0, req_step, step, first, prior_agg),
            PayloadView::Decide { slot, value } => self.decide(now, slot.0, value, false),
            PayloadView::Forward { commands } => self.on_forward(now, commands),
            PayloadView::Learn { from_slot } => self.on_learn(idx, from_slot.0),
            PayloadView::LearnReply { first_slot, values } => self.on_learn_reply(
                now,
                first_slot.0,
                values,
            ),
            PayloadView::Ping => self,
        }
    }

    /// Whether a message from `from` is acted on: it is from another member.
    pub open spec fn heeds(self, from: ReplicaId) -> bool {
        self.config.replicas.contains(from) && from != self.m.me
    }

    /// The replica after it received `message`.
    pub open spec fn received(self, now: u64, message: MessageView) -> State {
        if self.heeds(message.from) {
            let idx = self.index(message.from);
            self.noted(idx, message.decided.0).handled(now, idx, message.payload).request_learn(
                now,
                idx,
                message.decided.0,
            ).gced()
        } else {
            self
        }
    }

    // ---- submission ----

    /// Why `submit` refuses a command of `len` bytes, if it does.
    pub open spec fn submit_error(self, len: nat) -> Option<SubmitError> {
        if len > MAX_COMMAND_BYTES {
            Some(SubmitError::CommandTooLarge)
        } else if self.pool.bytes + entry_cost(len) > self.config.max_pool_bytes {
            Some(SubmitError::PoolFull)
        } else {
            None
        }
    }

    /// The id of the next submitted command.
    pub open spec fn next_id(self) -> CommandId {
        CommandId { origin: self.config.me, boot: self.boot, seq: (self.next_seq + 1) as u64 }
    }

    /// With a new command in the pool. Its id is new, too, as long as the
    /// replicas of the group forward only what was submitted to them; should
    /// the pool hold the id all the same, the new command takes its place.
    pub open spec fn enqueued(self, now: u64, data: Seq<u8>) -> State {
        State {
            next_seq: (self.next_seq + 1) as u64,
            pool: self.pool.removed(self.next_id()).inserted(self.next_id(), data, now),
            ..self
        }
    }

    /// With the entry under `id` forwarded once more.
    pub open spec fn forwarded(self, now: u64, id: CommandId, attempts: u64) -> State {
        State {
            pool: PoolView {
                entries: self.pool.entries.insert(
                    id,
                    EntryView {
                        last_forward: now,
                        forward_attempts: attempts,
                        ..self.pool.entries[id]
                    },
                ),
                ..self.pool
            },
            ..self
        }
    }

    /// The replica after it accepted a command.
    pub open spec fn submitted(self, now: u64, data: Seq<u8>) -> State {
        let id = self.next_id();
        let s = self.enqueued(now, data);
        let s1 = if self.m.leads() {
            s.opened(now)
        } else {
            s.forwarded(now, id, 1).send(
                self.forward_target(0),
                PayloadView::Forward { commands: seq![(id, data)] },
            )
        };
        s1.refreshed(now)
    }

    // ---- time ----

    /// Whether a slot state exists at or beyond `slot`.
    pub open spec fn known_from(self, slot: u64) -> bool {
        exists|k: u64| #[trigger] self.slots.contains_key(k) && k >= slot
    }

    /// Materializes a slot state for the frontier (lowest undecided slot)
    /// when something needs it decided -- pending commands, or open/decided
    /// slots beyond it that in-order delivery is stuck behind -- so the
    /// hedging deadlines apply to it.
    pub open spec fn frontier_observed(self, now: u64) -> State {
        let frontier = (self.decided + 1) as u64;
        if self.decided < u64::MAX && (self.known_from(frontier) || self.pending_since is Some) {
            self.observed(now, frontier)
        } else {
            self
        }
    }

    /// When this replica starts to propose for a slot that makes no progress.
    pub open spec fn hedge_deadline(self, slot: SlotView) -> u64 {
        let base = if slot.first_observed > slot.last_progress {
            slot.first_observed
        } else {
            slot.last_progress
        };
        let deadline = base + self.m.me_idx * self.config.hedge_delay;
        if deadline > u64::MAX {
            u64::MAX
        } else {
            deadline as u64
        }
    }

    /// Whether this replica could start to propose for a slot.
    pub open spec fn hedges(self, k: u64) -> bool {
        k > self.decided && self.slots[k].proposer is Idle && !self.slots[k].is_decided()
    }

    /// The slots for which it is time to propose, in order.
    pub open spec fn hedge_due(self, now: u64) -> Seq<u64> {
        ascending(self.slots.dom()).filter(
            |k: u64| self.hedges(k) && now >= self.hedge_deadline(self.slots[k]),
        )
    }

    /// Proposes the next batch for `slot`, unless the slot has been delivered
    /// meanwhile.
    pub open spec fn hedge(self, now: u64, slot: u64) -> State {
        if slot > self.decided {
            self.claimed(slot, self.next_batch()).activated(
                now,
                slot,
                batch_bytes(self.next_batch()),
            )
        } else {
            self
        }
    }

    /// Proposes for each of `due`, lowest first, so that it takes the pending
    /// commands and later orphaned slots complete with empty batches.
    pub open spec fn hedge_each(self, now: u64, due: Seq<u64>) -> State
        decreases due.len(),
    {
        if due.len() == 0 {
            self
        } else {
            self.hedge_each(now, due.drop_last()).hedge(now, due.last())
        }
    }

    /// Activates this replica's proposer for undecided slots that have made
    /// no observed progress for its position in the hedging schedule.
    pub open spec fn hedged(self, now: u64) -> State {
        let s = self.hedge_each(now, self.hedge_due(now));
        if s.pool.has_unassigned() {
            s
        } else {
            State { pending_since: None, ..s }
        }
    }

    /// The slots whose proposer waits too long for replies, in order.
    pub open spec fn stale(self, now: u64) -> Seq<u64> {
        ascending(self.slots.dom()).filter(
            |k: u64|
                k > self.decided && (self.slots[k].proposer matches ProposerView::Running(run)
                    && now.saturating_sub(run.sent_at) >= self.config.retransmit_delay),
        )
    }

    /// With the step of the slot's proposer due for transmission.
    pub open spec fn renewed(self, slot: u64) -> State {
        match self.slots[slot].proposer {
            ProposerView::Running(run) if self.slots.contains_key(slot) => State {
                slots: self.slots.insert(
                    slot,
                    SlotView {
                        proposer: ProposerView::Running(RunView { needs_send: true, ..run }),
                        ..self.slots[slot]
                    },
                ),
                ..self
            },
            _ => self,
        }
    }

    pub open spec fn resend_each(self, now: u64, stale: Seq<u64>) -> State
        decreases stale.len(),
    {
        if stale.len() == 0 {
            self
        } else {
            self.resend_each(now, stale.drop_last()).renewed(stale.last()).drive(now, stale.last())
        }
    }

    /// Transmits again what has not been answered.
    pub open spec fn retransmitted(self, now: u64) -> State {
        self.resend_each(now, self.stale(now))
    }

    /// Whether the entry under `id` is one that this replica forwards.
    pub open spec fn forwards(self, id: CommandId) -> bool {
        &&& id.origin == self.config.me
        &&& id.boot == self.boot
        &&& self.pool.entries[id].proposed_in is None
    }

    /// The commands to forward again, in id order.
    pub open spec fn forward_due(self, now: u64) -> Seq<CommandId> {
        ascending(self.pool.entries.dom()).filter(
            |id: CommandId|
                self.forwards(id) && now.saturating_sub(self.pool.entries[id].last_forward)
                    >= self.forward_interval(),
        )
    }

    /// The commands `ids` split into messages.
    pub open spec fn chunked(self, ids: Seq<CommandId>) -> Chunks
        decreases ids.len(),
    {
        if ids.len() == 0 {
            Chunks::empty(self.m.n as nat)
        } else {
            let id = ids.last();
            let e = self.pool.entries[id];
            self.chunked(ids.drop_last()).with(
                self.forward_target(e.forward_attempts),
                (id, e.data),
                self.config.max_batch_bytes as nat,
            )
        }
    }

    /// With one more forwarding of `ids` on record.
    pub open spec fn refreshed_forwards(self, now: u64, ids: Seq<CommandId>) -> State {
        State { pool: self.pool.reforwarded(now, ids), ..self }
    }

    pub open spec fn send_forwards(self, chunks: Seq<(int, Seq<Command>)>) -> State
        decreases chunks.len(),
    {
        if chunks.len() == 0 {
            self
        } else {
            self.send_forwards(chunks.drop_last()).send(
                chunks.last().0,
                PayloadView::Forward { commands: chunks.last().1 },
            )
        }
    }

    /// Forwards every due command, split into batch-bounded messages per
    /// target.
    pub open spec fn reforwarded(self, now: u64) -> State {
        if self.m.leads() {
            self
        } else {
            let ids = self.forward_due(now);
            self.refreshed_forwards(now, ids).send_forwards(
                self.chunked(ids).flushed(self.m.n as nat),
            )
        }
    }

    /// The other replicas known to have decided more, in schedule order.
    pub open spec fn ahead(self) -> Seq<int> {
        Seq::new(self.m.n as nat, |i: int| i).filter(
            |i: int| i != self.m.me_idx && self.peer_acked[i] > self.decided,
        )
    }

    /// Gives up on a catch-up request that waits too long.
    pub open spec fn learn_expired(self, now: u64) -> State {
        if self.learn_in_flight is Some && !self.learn_waits(now) {
            State {
                learn_in_flight: None,
                learn_attempts: self.learn_attempts.wrapping_add(1),
                ..self
            }
        } else {
            self
        }
    }

    /// Retries catch-up, rotating across the replicas that are ahead.
    pub open spec fn learn_ticked(self, now: u64) -> State {
        let s = self.learn_expired(now);
        if s.learn_in_flight is None && s.ahead().len() > 0 {
            let idx = s.ahead()[s.learn_attempts as int % s.ahead().len() as int];
            s.request_learn(now, idx, s.peer_acked[idx])
        } else {
            s
        }
    }

    /// Periodic heartbeat from every replica to every peer.
    pub open spec fn pinged(self, now: u64) -> State {
        if self.m.n > 1 && now.saturating_sub(self.last_ping) >= PING_INTERVAL {
            State { last_ping: now, ..self }.send_all(|idx: int| PayloadView::Ping)
        } else {
            self
        }
    }

    /// The replica after the passage of time to `now`.
    pub open spec fn ticked(self, now: u64) -> State {
        self.frontier_observed(now).hedged(now).opened(now).retransmitted(now).reforwarded(
            now,
        ).learn_ticked(now).pinged(now)
    }

    /// Whether `at` is when the proposer of some slot has to be started, or
    /// its step sent again.
    pub open spec fn slot_deadline(self, k: u64, at: u64) -> bool {
        k > self.decided && match self.slots[k].proposer {
            ProposerView::Running(run) => at == run.sent_at.saturating_add(
                self.config.retransmit_delay,
            ),
            ProposerView::Idle => !self.slots[k].is_decided() && at == self.hedge_deadline(
                self.slots[k],
            ),
            ProposerView::Done => false,
        }
    }

    /// Whether `at` is when the frontier has to be materialized: since there
    /// is reason to.
    pub open spec fn frontier_deadline(self, at: u64) -> bool {
        let frontier = (self.decided + 1) as u64;
        self.decided < u64::MAX && !self.slots.contains_key(frontier) && match self.pending_since {
            Some(since) => at == since,
            None => self.known_from(frontier) && at == 0,
        }
    }

    /// Whether `at` is when the command `id` has to be forwarded again.
    pub open spec fn forward_deadline(self, id: CommandId, at: u64) -> bool {
        !self.m.leads() && self.forwards(id) && at
            == self.pool.entries[id].last_forward.saturating_add(self.forward_interval())
    }

    /// Whether `at` is when catch-up has to be retried: at once, if a replica
    /// is ahead and no request is outstanding.
    pub open spec fn learn_deadline(self, at: u64) -> bool {
        match self.learn_in_flight {
            Some((_, sent_at)) => at == sent_at.saturating_add(self.config.retransmit_delay),
            None => self.ahead().len() > 0 && at == 0,
        }
    }

    /// Whether `at` is when the next heartbeat is due.
    pub open spec fn ping_deadline(self, at: u64) -> bool {
        self.m.n > 1 && at == self.last_ping.saturating_add(PING_INTERVAL)
    }

    /// Whether `at` is a time at which work is due.
    pub open spec fn is_deadline(self, at: u64) -> bool {
        ||| exists|k: u64| #[trigger] self.slots.contains_key(k) && self.slot_deadline(k, at)
        ||| self.frontier_deadline(at)
        ||| exists|id: CommandId| #[trigger]
            self.pool.entries.contains_key(id) && self.forward_deadline(id, at)
        ||| self.learn_deadline(at)
        ||| self.ping_deadline(at)
    }
}

} // verus!
