//! What a replica does as time passes.

use vstd::prelude::*;

use crate::pool::entry_cost;
use crate::proposer::{ProposerState, ProposerView};
use crate::replica::proposing::lemma_filter_prefix;
use crate::replica::Replica;
use crate::slot::SlotState;
use crate::sorted::{lemma_ascends_distinct, lemma_filter_ascends, Key};
use crate::state::{commands_cost, Chunks, State, PING_INTERVAL};
use crate::types::{
    commands_of, encode_batch, share, Bytes, Command, CommandBatch, CommandId, Slot,
    COMMAND_WIRE_OVERHEAD,
};
use crate::wire::{Payload, PayloadView};

verus! {

/// Whether `r` is the least number with the property `p`, if there is one.
pub open spec fn is_least(r: Option<u64>, p: spec_fn(u64) -> bool) -> bool {
    match r {
        Some(at) => p(at) && forall|t: u64| #[trigger] p(t) ==> at <= t,
        None => forall|t: u64| !#[trigger] p(t),
    }
}

/// The lesser of two optional numbers.
fn earlier(a: Option<u64>, b: Option<u64>) -> (r: Option<u64>)
    ensures
        forall|p: spec_fn(u64) -> bool, q: spec_fn(u64) -> bool|
            is_least(a, p) && is_least(b, q) ==> #[trigger] is_least(r, either(p, q)),
{
    match (a, b) {
        (Some(x), Some(y)) => if y < x {
            Some(y)
        } else {
            Some(x)
        },
        (Some(x), None) => Some(x),
        (None, _) => b,
    }
}

spec fn either(p: spec_fn(u64) -> bool, q: spec_fn(u64) -> bool) -> spec_fn(u64) -> bool {
    |t: u64| p(t) || q(t)
}

/// Commands on their way to other replicas, split into messages.
struct Outbox {
    full: Vec<(usize, CommandBatch)>,
    open: Vec<CommandBatch>,
    bytes: Vec<usize>,
}

spec fn outgoing(full: Seq<(usize, CommandBatch)>) -> Seq<(int, Seq<Command>)> {
    full.map_values(|c: (usize, CommandBatch)| (c.0 as int, commands_of(c.1@)))
}

impl View for Outbox {
    type V = Chunks;

    closed spec fn view(&self) -> Chunks {
        Chunks {
            full: outgoing(self.full@),
            open: self.open@.map_values(|b: CommandBatch| commands_of(b@)),
        }
    }
}

impl Outbox {
    spec fn wf(&self) -> bool {
        &&& self.bytes@.len() == self.open@.len()
        &&& forall|i: int|
            0 <= i < self.open@.len() ==> #[trigger] self.bytes@[i] == commands_cost(
                commands_of(self.open@[i]@),
            )
        &&& forall|i: int|
            0 <= i < self.full@.len() ==> (#[trigger] self.full@[i]).0 < self.open@.len()
    }

    fn new(n: usize) -> (r: Outbox)
        ensures
            r.wf(),
            r@ == Chunks::empty(n as nat),
    {
        let mut r = Outbox { full: Vec::new(), open: Vec::new(), bytes: Vec::new() };
        let mut i: usize = 0;
        while i < n
            invariant
                i <= n,
                r.wf(),
                r.full@.len() == 0,
                r.open@.len() == i,
                forall|j: int| 0 <= j < i ==> (#[trigger] r.open@[j])@.len() == 0,
            decreases n - i,
        {
            let batch: CommandBatch = Vec::new();
            assert(commands_of(batch@) =~= Seq::empty());
            r.open.push(batch);
            r.bytes.push(0);
            i += 1;
        }
        proof {
            assert forall|j: int| 0 <= j < n implies commands_of(#[trigger] r.open@[j]@)
                =~= Seq::empty() by {}
            assert(r@.full =~= Seq::empty());
            assert(r@.open =~= Chunks::empty(n as nat).open);
        }
        r
    }

    /// Adds one command for replica `target`.
    fn push(&mut self, target: usize, id: CommandId, data: Bytes, limit: usize)
        requires
            old(self).wf(),
            target < old(self)@.open.len(),
            limit <= crate::types::MAX_BATCH_BYTES_LIMIT,
            data@.len() <= crate::types::MAX_COMMAND_BYTES,
        ensures
            final(self).wf(),
            final(self)@ == old(self)@.with(target as int, (id, data@), limit as nat),
            final(self)@.open.len() == old(self)@.open.len(),
    {
        let ghost before = *self;
        let ghost c = (id, data@);
        let cost = data.len() + COMMAND_WIRE_OVERHEAD;
        let bytes = self.bytes[target];
        assert(bytes == commands_cost(commands_of(self.open@[target as int]@)));
        if self.open[target].len() > 0 && (bytes > limit || cost > limit - bytes) {
            let mut batch: CommandBatch = vec![(id, data)];
            std::mem::swap(&mut batch, &mut self.open[target]);
            self.full.push((target, batch));
            self.bytes.set(target, cost);
            proof {
                let filling = commands_of(before.open@[target as int]@);
                let fresh = commands_of(self.open@[target as int]@);
                assert(fresh =~= seq![c]);
                assert(seq![c].drop_last() =~= Seq::empty());
                assert(commands_cost(seq![c].drop_last()) == 0);
                assert(seq![c].last() == c);
                assert(commands_cost(seq![c]) == entry_cost(c.1.len()));
                assert(self@.full =~= before@.full.push((target as int, filling)));
                assert(self@.open =~= before@.open.update(target as int, seq![c]));
            }
        } else {
            proof {
                if self.open@[target as int]@.len() == 0 {
                    assert(commands_of(self.open@[target as int]@) =~= Seq::empty());
                }
            }
            self.open[target].push((id, data));
            self.bytes.set(target, bytes + cost);
            proof {
                let filling = commands_of(before.open@[target as int]@);
                let grown = commands_of(self.open@[target as int]@);
                assert(grown =~= filling.push(c));
                assert(filling.push(c).drop_last() =~= filling);
                assert(self@.open =~= before@.open.update(target as int, filling.push(c)));
            }
        }
    }

    /// All messages: the complete ones, then the nonempty open ones.
    fn flush(self) -> (r: Vec<(usize, CommandBatch)>)
        requires
            self.wf(),
        ensures
            outgoing(r@) == self@.flushed(self@.open.len()),
            forall|i: int| 0 <= i < r@.len() ==> (#[trigger] r@[i]).0 < self@.open.len(),
    {
        let ghost chunks = self@;
        let Outbox { full, open, bytes } = self;
        let mut full = full;
        let mut open = open;
        let ghost rest = open@;
        let ghost n = open@.len();
        let mut i: usize = 0;
        while i < open.len()
            invariant
                i <= n,
                n == open@.len(),
                n == rest.len(),
                chunks.open == rest.map_values(|b: CommandBatch| commands_of(b@)),
                forall|j: int| i <= j < n ==> open@[j] == rest[j],
                outgoing(full@) == chunks.flushed(i as nat),
                forall|j: int| 0 <= j < full@.len() ==> (#[trigger] full@[j]).0 < n,
            decreases n - i,
        {
            assert(chunks.open[i as int] == commands_of(open@[i as int]@));
            if open[i].len() > 0 {
                let ghost before = outgoing(full@);
                let mut batch: CommandBatch = Vec::new();
                std::mem::swap(&mut batch, &mut open[i]);
                full.push((i, batch));
                assert(outgoing(full@) =~= before.push((i as int, chunks.open[i as int])));
            }
            i += 1;
        }
        full
    }
}

impl Replica {
    /// Advances time-driven work: hedging activation, retransmission,
    /// command re-forwarding, catch-up retries, and heartbeats. Call at a
    /// regular interval (e.g. 100ms), or per [`Replica::next_wakeup`].
    pub fn tick(&mut self, now: u64)
        requires
            old(self).wf(),
        ensures
            final(self).wf(),
            final(self)@ == old(self)@.ticked(now),
    {
        self.ensure_frontier_observed(now);
        self.hedge_activate_due(now);
        self.maybe_open_slots(now);
        self.retransmit_due(now);
        self.reforward_due(now);
        self.learn_tick(now);
        self.ping_tick(now);
    }

    /// Whether a slot state exists at or beyond `slot`.
    fn known_from(&self, slot: u64) -> (r: bool)
        requires
            self.wf(),
        ensures
            r == self@.known_from(slot),
    {
        let len = self.slots.len();
        proof {
            self.slots.lemma_entries();
            assert(self.slots@.dom() =~= self@.slots.dom());
            assert forall|k: u64| #[trigger] self@.slots.contains_key(k) implies len > 0 && k
                <= self.slots.keys()[len - 1] by {
                assert(self.slots.keys().contains(k));
                let j = choose|j: int| 0 <= j < len && self.slots.keys()[j] == k;
                if j < len - 1 {
                    assert(self.slots.keys()[j].rank() < self.slots.keys()[len - 1].rank());
                }
            }
        }
        if len == 0 {
            return false;
        }
        let last = self.slots.key_at(len - 1);
        assert(self@.slots.contains_key(last));
        last >= slot
    }

    /// Materializes a slot state for the frontier (lowest undecided slot)
    /// when something needs it decided -- pending commands, or open/decided
    /// slots beyond it that in-order delivery is stuck behind -- so the
    /// hedging deadline machinery below applies to it.
    fn ensure_frontier_observed(&mut self, now: u64)
        requires
            old(self).wf(),
        ensures
            final(self).wf(),
            final(self)@ == old(self)@.frontier_observed(now),
    {
        if self.decided_contig.0 == u64::MAX {
            return;
        }
        let frontier = self.decided_contig.next();
        if self.pool_pending_since.is_some() || self.known_from(frontier.0) {
            self.observe(now, frontier);
        }
    }

    /// When this replica starts to propose for a slot that makes no progress:
    /// position k of the schedule waits `k * hedge_delay`.
    fn hedge_deadline(&self, state: &SlotState) -> (r: u64)
        ensures
            r == self@.hedge_deadline(state@),
    {
        let base = if state.first_observed > state.last_progress {
            state.first_observed
        } else {
            state.last_progress
        };
        let k = self.m.me_idx as u64;
        proof {
            assert(k as int * self.config.hedge_delay as int >= 0) by (nonlinear_arith);
        }
        // Saturation keeps maximal delays meaning "effectively never" rather
        // than wrapping into an always-due past instant.
        match k.checked_mul(self.config.hedge_delay) {
            Some(wait) => base.saturating_add(wait),
            None => u64::MAX,
        }
    }

    /// The slots for which it is time to propose, in order.
    fn hedge_due(&self, now: u64) -> (due: Vec<u64>)
        requires
            self.wf(),
        ensures
            due@ == self@.hedge_due(now),
    {
        let ghost s = self@;
        let ghost keys = self.slots.keys();
        let ghost pred = |k: u64| s.hedges(k) && now >= s.hedge_deadline(s.slots[k]);
        let mut due: Vec<u64> = Vec::new();
        let mut i: usize = 0;
        proof {
            reveal(Seq::filter);
            self.slots.lemma_entries();
            assert(self.slots@.dom() =~= s.slots.dom());
            assert(due@ =~= keys.take(0).filter(pred));
        }
        while i < self.slots.len()
            invariant
                i <= keys.len(),
                self.wf(),
                s == self@,
                keys == self.slots.keys(),
                forall|k: u64| #[trigger]
                    pred(k) == (s.hedges(k) && now >= s.hedge_deadline(s.slots[k])),
                due@ == keys.take(i as int).filter(pred),
            decreases keys.len() - i,
        {
            let slot = self.slots.key_at(i);
            let state = self.slots.value_at(i);
            proof {
                self.slots.lemma_entries();
                assert(self.slots@.contains_key(slot));
                assert(s.slots[slot] == state@);
                lemma_filter_prefix(keys, pred, i as int);
            }
            if slot > self.decided_contig.0 && state.is_idle() && !state.is_decided() && now
                >= self.hedge_deadline(state) {
                due.push(slot);
            }
            i += 1;
        }
        assert(keys.take(i as int) =~= keys);
        due
    }

    /// Activates this replica's proposer for undecided slots that have made
    /// no observed progress for its position in the hedging schedule.
    /// Position k waits `k * hedge_delay`; the leader (k = 0) acts
    /// immediately. Over-activation is harmless: concurrent proposers
    /// cooperate rather than interfere.
    fn hedge_activate_due(&mut self, now: u64)
        requires
            old(self).wf(),
        ensures
            final(self).wf(),
            final(self)@ == old(self)@.hedged(now),
    {
        let due = self.hedge_due(now);
        let mut i: usize = 0;
        assert(self@ == old(self)@.hedge_each(now, due@.take(0)));
        while i < due.len()
            invariant
                i <= due@.len(),
                self.wf(),
                self@ == old(self)@.hedge_each(now, due@.take(i as int)),
            decreases due.len() - i,
        {
            proof {
                assert(due@.take(i + 1).drop_last() =~= due@.take(i as int));
                assert(due@.take(i + 1).last() == due@[i as int]);
            }
            // Lowest slot first, so it takes the pending commands and later
            // orphaned slots complete with empty batches.
            let slot = Slot(due[i]);
            if slot.0 > self.decided_contig.0 {
                let batch = self.take_unassigned_batch(slot);
                self.activate(now, slot, encode_batch(&batch));
            }
            i += 1;
        }
        assert(due@.take(i as int) =~= due@);
        if !self.pool.has_unassigned() {
            let ghost s = self@;
            self.pool_pending_since = None;
            assert(self@ =~= State { pending_since: None, ..s });
        }
    }

    /// The slots whose proposer waits too long for replies, in order.
    fn stale(&self, now: u64) -> (stale: Vec<u64>)
        requires
            self.wf(),
        ensures
            stale@ == self@.stale(now),
    {
        let ghost s = self@;
        let ghost keys = self.slots.keys();
        let ghost pred = |k: u64|
            k > s.decided && (s.slots[k].proposer matches ProposerView::Running(run)
                && now.saturating_sub(run.sent_at) >= s.config.retransmit_delay);
        let mut stale: Vec<u64> = Vec::new();
        let mut i: usize = 0;
        proof {
            reveal(Seq::filter);
            self.slots.lemma_entries();
            assert(self.slots@.dom() =~= s.slots.dom());
            assert(stale@ =~= keys.take(0).filter(pred));
        }
        while i < self.slots.len()
            invariant
                i <= keys.len(),
                self.wf(),
                s == self@,
                keys == self.slots.keys(),
                forall|k: u64| #[trigger]
                    pred(k) == (k > s.decided && (s.slots[k].proposer matches ProposerView::Running(
                        run,
                    ) && now.saturating_sub(run.sent_at) >= s.config.retransmit_delay)),
                stale@ == keys.take(i as int).filter(pred),
            decreases keys.len() - i,
        {
            let slot = self.slots.key_at(i);
            let state = self.slots.value_at(i);
            proof {
                self.slots.lemma_entries();
                assert(self.slots@.contains_key(slot));
                assert(s.slots[slot] == state@);
                lemma_filter_prefix(keys, pred, i as int);
            }
            if slot > self.decided_contig.0 {
                if let ProposerState::Running(run) = &state.proposer {
                    if now.saturating_sub(run.sent_at) >= self.config.retransmit_delay {
                        stale.push(slot);
                    }
                }
            }
            i += 1;
        }
        assert(keys.take(i as int) =~= keys);
        stale
    }

    fn retransmit_due(&mut self, now: u64)
        requires
            old(self).wf(),
        ensures
            final(self).wf(),
            final(self)@ == old(self)@.retransmitted(now),
    {
        let stale = self.stale(now);
        let mut i: usize = 0;
        assert(self@ == old(self)@.resend_each(now, stale@.take(0)));
        while i < stale.len()
            invariant
                i <= stale@.len(),
                self.wf(),
                self@ == old(self)@.resend_each(now, stale@.take(i as int)),
            decreases stale.len() - i,
        {
            proof {
                assert(stale@.take(i + 1).drop_last() =~= stale@.take(i as int));
                assert(stale@.take(i + 1).last() == stale@[i as int]);
            }
            let slot = stale[i];
            let ghost s = self@;
            if let Some(state) = self.slots.get_mut(&slot) {
                if let ProposerState::Running(run) = &mut state.proposer {
                    // Re-sends are byte-identical (cached priorities) and
                    // recorder-idempotent, so re-driving the whole step is
                    // safe.
                    run.needs_send = true;
                }
            }
            proof {
                assert(self@.slots =~= s.renewed(slot).slots);
                assert(self@ =~= s.renewed(slot));
                s.lemma_renewed_wf(slot);
            }
            self.drive(now, Slot(slot));
            i += 1;
        }
        assert(stale@.take(i as int) =~= stale@);
    }

    /// The commands to forward again, in id order.
    fn forward_due(&self, now: u64) -> (ids: Vec<CommandId>)
        requires
            self.wf(),
        ensures
            ids@ == self@.forward_due(now),
    {
        let ghost s = self@;
        let ghost keys = self.pool.entries.keys();
        let ghost pred = |id: CommandId|
            s.forwards(id) && now.saturating_sub(s.pool.entries[id].last_forward)
                >= s.forward_interval();
        let interval = self.forward_interval();
        let mut ids: Vec<CommandId> = Vec::new();
        let mut i: usize = 0;
        proof {
            reveal(Seq::filter);
            self.pool.entries.lemma_entries();
            assert(self.pool.entries@.dom() =~= s.pool.entries.dom());
            assert(ids@ =~= keys.take(0).filter(pred));
        }
        while i < self.pool.entries.len()
            invariant
                i <= keys.len(),
                self.wf(),
                s == self@,
                interval == s.forward_interval(),
                keys == self.pool.entries.keys(),
                forall|id: CommandId| #[trigger]
                    pred(id) == (s.forwards(id) && now.saturating_sub(
                        s.pool.entries[id].last_forward,
                    ) >= s.forward_interval()),
                ids@ == keys.take(i as int).filter(pred),
            decreases keys.len() - i,
        {
            let id = self.pool.entries.key_at(i);
            let entry = self.pool.entries.value_at(i);
            proof {
                self.pool.entries.lemma_entries();
                assert(self.pool.entries@.contains_key(id));
                assert(s.pool.entries[id] == entry@);
                lemma_filter_prefix(keys, pred, i as int);
            }
            if id.origin == self.config.me && id.boot == self.boot && entry.proposed_in.is_none()
                && now.saturating_sub(entry.last_forward) >= interval {
                ids.push(id);
            }
            i += 1;
        }
        assert(keys.take(i as int) =~= keys);
        ids
    }

    /// Splits the commands `ids` into batch-bounded messages per target.
    fn chunk(&self, ids: &Vec<CommandId>) -> (r: Vec<(usize, CommandBatch)>)
        requires
            self.wf(),
            self@.m.n > 1,
            forall|i: int| 0 <= i < ids@.len() ==> self@.pool.entries.contains_key(#[trigger] ids@[i]),
        ensures
            outgoing(r@) == self@.chunked(ids@).flushed(self@.m.n as nat),
            forall|i: int| 0 <= i < r@.len() ==> (#[trigger] r@[i]).0 < self@.m.n,
    {
        let mut outbox = Outbox::new(self.m.n);
        let mut i: usize = 0;
        assert(self@.chunked(ids@.take(0)) == Chunks::empty(self@.m.n as nat));
        while i < ids.len()
            invariant
                i <= ids@.len(),
                self.wf(),
                self@.m.n > 1,
                outbox.wf(),
                outbox@ == self@.chunked(ids@.take(i as int)),
                outbox@.open.len() == self@.m.n,
                forall|j: int|
                    0 <= j < ids@.len() ==> self@.pool.entries.contains_key(#[trigger] ids@[j]),
            decreases ids.len() - i,
        {
            let id = ids[i];
            proof {
                assert(ids@.take(i + 1).drop_last() =~= ids@.take(i as int));
                assert(ids@.take(i + 1).last() == id);
                assert(self@.pool.entries.contains_key(ids@[i as int]));
                assert(self.pool.entries@.contains_key(id));
            }
            if let Some(entry) = self.pool.entries.get(&id) {
                assert(self@.pool.entries[id] == entry@);
                if let Some(target) = self.forward_target(entry.forward_attempts) {
                    outbox.push(target, id, share(&entry.data), self.config.max_batch_bytes);
                }
            }
            i += 1;
        }
        assert(ids@.take(i as int) =~= ids@);
        outbox.flush()
    }

    fn reforward_due(&mut self, now: u64)
        requires
            old(self).wf(),
        ensures
            final(self).wf(),
            final(self)@ == old(self)@.reforwarded(now),
    {
        if self.is_leader() {
            return;
        }
        // Every due entry is forwarded in this tick (its deadline advances),
        // split into batch-bounded Forward messages per target.
        let ids = self.forward_due(now);
        let ghost s = self@;
        proof {
            let keys = self.pool.entries.keys();
            let pred = |id: CommandId|
                s.forwards(id) && now.saturating_sub(s.pool.entries[id].last_forward)
                    >= s.forward_interval();
            self.pool.entries.lemma_entries();
            assert(self.pool.entries@.dom() =~= s.pool.entries.dom());
            assert(ids@ == keys.filter(pred));
            lemma_filter_ascends(keys, pred);
            lemma_ascends_distinct(ids@);
            assert forall|i: int| 0 <= i < ids@.len() implies s.pool.entries.contains_key(
                #[trigger] ids@[i],
            ) by {
                assert(ids@.contains(ids@[i]));
                assert(keys.contains(ids@[i]));
            }
        }
        let chunks = self.chunk(&ids);
        self.pool.reforward(now, &ids);
        let ghost t = self@;
        proof {
            s.lemma_refreshed_forwards_wf(now, ids@);
            assert(t =~= s.refreshed_forwards(now, ids@));
        }
        let ghost all = outgoing(chunks@);
        let mut rest = chunks;
        let mut i: usize = 0;
        assert(self@ == t.send_forwards(all.take(0)));
        while i < rest.len()
            invariant
                i <= rest@.len(),
                self.wf(),
                self@.m == t.m,
                all.len() == rest@.len(),
                forall|j: int| i <= j < rest@.len() ==> #[trigger] all[j] == (
                    rest@[j].0 as int,
                    commands_of(rest@[j].1@),
                ),
                forall|j: int| 0 <= j < rest@.len() ==> (#[trigger] rest@[j]).0 < t.m.n,
                self@ == t.send_forwards(all.take(i as int)),
            decreases rest.len() - i,
        {
            proof {
                assert(all.take(i + 1).drop_last() =~= all.take(i as int));
                assert(all.take(i + 1).last() == all[i as int]);
            }
            let target = rest[i].0;
            let mut commands: CommandBatch = Vec::new();
            std::mem::swap(&mut commands, &mut rest[i].1);
            self.send_to(target, Payload::Forward { commands });
            i += 1;
        }
        assert(all.take(i as int) =~= all);
    }

    /// The other replicas known to have decided more, in schedule order.
    fn ahead(&self) -> (r: Vec<usize>)
        requires
            self.wf(),
        ensures
            r@.map_values(|i: usize| i as int) == self@.ahead(),
            forall|i: int| 0 <= i < r@.len() ==> (#[trigger] r@[i]) < self@.m.n,
    {
        let ghost s = self@;
        let ghost all = Seq::new(s.m.n as nat, |i: int| i);
        let ghost pred = |i: int| i != s.m.me_idx && s.peer_acked[i] > s.decided;
        let mut r: Vec<usize> = Vec::new();
        let mut i: usize = 0;
        proof {
            reveal(Seq::filter);
            assert(r@.map_values(|i: usize| i as int) =~= all.take(0).filter(pred));
        }
        while i < self.n()
            invariant
                i <= s.m.n,
                self.wf(),
                s == self@,
                all == Seq::new(s.m.n as nat, |i: int| i),
                forall|i: int| #[trigger]
                    pred(i) == (i != s.m.me_idx && s.peer_acked[i] > s.decided),
                r@.map_values(|i: usize| i as int) == all.take(i as int).filter(pred),
                forall|j: int| 0 <= j < r@.len() ==> (#[trigger] r@[j]) < s.m.n,
            decreases s.m.n - i,
        {
            let ghost before = r@.map_values(|i: usize| i as int);
            proof {
                lemma_filter_prefix(all, pred, i as int);
            }
            if i != self.m.me_idx && self.peer_acked[i].0 > self.decided_contig.0 {
                r.push(i);
                assert(r@.map_values(|i: usize| i as int) =~= before.push(i as int));
            }
            i += 1;
        }
        assert(all.take(i as int) =~= all);
        r
    }

    fn learn_tick(&mut self, now: u64)
        requires
            old(self).wf(),
        ensures
            final(self).wf(),
            final(self)@ == old(self)@.learn_ticked(now),
    {
        // Inclusive deadline, matching what next_wakeup advertises: a tick
        // exactly at the deadline must retry, or an exact-deadline scheduler
        // would stall.
        if let Some((_, sent_at)) = self.learn_in_flight {
            if now.saturating_sub(sent_at) >= self.config.retransmit_delay {
                self.learn_in_flight = None;
                self.learn_attempts = self.learn_attempts.wrapping_add(1);
            }
        }
        let ghost s = self@;
        assert(s =~= old(self)@.learn_expired(now));
        if self.learn_in_flight.is_none() {
            // Rotate retries across every peer that has advertised more than
            // we have delivered: the peer with the maximum watermark may be
            // dead, while any peer ahead of us can serve the prefix we need
            // (retention keeps a value until all replicas acknowledge it).
            let candidates = self.ahead();
            let ghost ahead = candidates@.map_values(|i: usize| i as int);
            assert(ahead == s.ahead());
            assert(ahead.len() == candidates@.len());
            if candidates.len() > 0 {
                let turn = (self.learn_attempts % candidates.len() as u64) as usize;
                let idx = candidates[turn];
                assert(ahead[turn as int] == idx);
                let acked = self.peer_acked[idx];
                self.maybe_request_learn(now, idx, acked);
            }
        }
    }

    /// Periodic heartbeat from every replica to every peer: keeps decided
    /// watermarks (which drive catch-up and retention GC) flowing on all
    /// links while quiesced, independent of which replicas are alive. Without
    /// it, a lagging replica whose only live peer is a non-leader would never
    /// hear a newer watermark and could stay behind forever.
    fn ping_tick(&mut self, now: u64)
        requires
            old(self).wf(),
        ensures
            final(self).wf(),
            final(self)@ == old(self)@.pinged(now),
    {
        if self.n() == 1 {
            return;
        }
        if now.saturating_sub(self.last_ping) >= PING_INTERVAL {
            self.last_ping = now;
            let ghost s = self@;
            let ghost f = |idx: int| PayloadView::Ping;
            assert(s =~= State { last_ping: now, ..old(self)@ });
            let mut idx: usize = 0;
            while idx < self.n()
                invariant
                    idx <= self@.m.n,
                    self.wf(),
                    self@.m == s.m,
                    self@ == s.send_upto(idx as nat, f),
                    forall|i: int| #[trigger] f(i) == PayloadView::Ping,
                decreases self@.m.n - idx,
            {
                if idx != self.m.me_idx {
                    self.send_to(idx, Payload::Ping);
                }
                idx += 1;
            }
        }
    }

    /// The earliest time at which a slot's proposer has to be started, or its
    /// step sent again.
    fn next_slot_deadline(&self) -> (r: Option<u64>)
        requires
            self.wf(),
        ensures
            is_least(
                r,
                |at: u64|
                    exists|k: u64| #[trigger]
                        self@.slots.contains_key(k) && self@.slot_deadline(k, at),
            ),
    {
        let ghost s = self@;
        let ghost keys = self.slots.keys();
        let mut earliest: Option<u64> = None;
        let mut i: usize = 0;
        while i < self.slots.len()
            invariant
                i <= keys.len(),
                self.wf(),
                s == self@,
                keys == self.slots.keys(),
                match earliest {
                    Some(e) => {
                        &&& exists|j: int| 0 <= j < i && s.slot_deadline(#[trigger] keys[j], e)
                        &&& forall|j: int, at: u64|
                            0 <= j < i && #[trigger] s.slot_deadline(keys[j], at) ==> e <= at
                    },
                    None => forall|j: int, at: u64|
                        0 <= j < i ==> !#[trigger] s.slot_deadline(keys[j], at),
                },
            decreases keys.len() - i,
        {
            let slot = self.slots.key_at(i);
            let state = self.slots.value_at(i);
            proof {
                self.slots.lemma_entries();
                assert(self.slots@.contains_key(slot));
                assert(s.slots[slot] == state@);
            }
            let mut deadline: Option<u64> = None;
            if slot > self.decided_contig.0 {
                match &state.proposer {
                    ProposerState::Running(run) => {
                        deadline = Some(run.sent_at.saturating_add(self.config.retransmit_delay));
                    },
                    ProposerState::Idle => {
                        if !state.is_decided() {
                            deadline = Some(self.hedge_deadline(state));
                        }
                    },
                    ProposerState::Done => {},
                }
            }
            let ghost before = earliest;
            if let Some(d) = deadline {
                assert(s.slot_deadline(keys[i as int], d));
                earliest = match earliest {
                    Some(e) if e <= d => Some(e),
                    _ => Some(d),
                };
            }
            proof {
                assert forall|at: u64| #[trigger] s.slot_deadline(keys[i as int], at) implies
                    deadline == Some(at) by {}
                if let Some(e) = before {
                    if earliest == Some(e) {
                        let j = choose|j: int| 0 <= j < i && s.slot_deadline(#[trigger] keys[j], e);
                        assert(0 <= j < i + 1 && s.slot_deadline(keys[j], e));
                    }
                }
            }
            i += 1;
        }
        proof {
            self.slots.lemma_entries();
            assert(self.slots@.dom() =~= s.slots.dom());
            let p = |at: u64|
                exists|k: u64| #[trigger] s.slots.contains_key(k) && s.slot_deadline(k, at);
            assert forall|at: u64| #[trigger] p(at) <==> exists|j: int|
                0 <= j < keys.len() && s.slot_deadline(#[trigger] keys[j], at) by {
                if p(at) {
                    let k = choose|k: u64| #[trigger]
                        s.slots.contains_key(k) && s.slot_deadline(k, at);
                    assert(keys.contains(k));
                    let j = choose|j: int| 0 <= j < keys.len() && keys[j] == k;
                    assert(s.slot_deadline(keys[j], at));
                }
                if exists|j: int| 0 <= j < keys.len() && s.slot_deadline(#[trigger] keys[j], at) {
                    let j = choose|j: int|
                        0 <= j < keys.len() && s.slot_deadline(#[trigger] keys[j], at);
                    assert(s.slots.contains_key(keys[j]));
                }
            }
        }
        earliest
    }

    /// The earliest time at which a command has to be forwarded again.
    fn next_forward_deadline(&self) -> (r: Option<u64>)
        requires
            self.wf(),
        ensures
            is_least(
                r,
                |at: u64|
                    exists|id: CommandId| #[trigger]
                        self@.pool.entries.contains_key(id) && self@.forward_deadline(id, at),
            ),
    {
        let ghost s = self@;
        if self.is_leader() {
            return None;
        }
        let ghost keys = self.pool.entries.keys();
        let interval = self.forward_interval();
        let mut earliest: Option<u64> = None;
        let mut i: usize = 0;
        while i < self.pool.entries.len()
            invariant
                i <= keys.len(),
                self.wf(),
                s == self@,
                !s.m.leads(),
                interval == s.forward_interval(),
                keys == self.pool.entries.keys(),
                match earliest {
                    Some(e) => {
                        &&& exists|j: int| 0 <= j < i && s.forward_deadline(#[trigger] keys[j], e)
                        &&& forall|j: int, at: u64|
                            0 <= j < i && #[trigger] s.forward_deadline(keys[j], at) ==> e <= at
                    },
                    None => forall|j: int, at: u64|
                        0 <= j < i ==> !#[trigger] s.forward_deadline(keys[j], at),
                },
            decreases keys.len() - i,
        {
            let id = self.pool.entries.key_at(i);
            let entry = self.pool.entries.value_at(i);
            proof {
                self.pool.entries.lemma_entries();
                assert(self.pool.entries@.contains_key(id));
                assert(s.pool.entries[id] == entry@);
            }
            let ghost before = earliest;
            if id.origin == self.config.me && id.boot == self.boot && entry.proposed_in.is_none() {
                let d = entry.last_forward.saturating_add(interval);
                assert(s.forward_deadline(keys[i as int], d));
                earliest = match earliest {
                    Some(e) if e <= d => Some(e),
                    _ => Some(d),
                };
            }
            proof {
                if let Some(e) = before {
                    if earliest == Some(e) {
                        let j = choose|j: int|
                            0 <= j < i && s.forward_deadline(#[trigger] keys[j], e);
                        assert(0 <= j < i + 1 && s.forward_deadline(keys[j], e));
                    }
                }
            }
            i += 1;
        }
        proof {
            self.pool.entries.lemma_entries();
            assert(self.pool.entries@.dom() =~= s.pool.entries.dom());
            let p = |at: u64|
                exists|id: CommandId| #[trigger]
                    s.pool.entries.contains_key(id) && s.forward_deadline(id, at);
            assert forall|at: u64| #[trigger] p(at) <==> exists|j: int|
                0 <= j < keys.len() && s.forward_deadline(#[trigger] keys[j], at) by {
                if p(at) {
                    let id = choose|id: CommandId| #[trigger]
                        s.pool.entries.contains_key(id) && s.forward_deadline(id, at);
                    assert(keys.contains(id));
                    let j = choose|j: int| 0 <= j < keys.len() && keys[j] == id;
                    assert(s.forward_deadline(keys[j], at));
                }
                if exists|j: int|
                    0 <= j < keys.len() && s.forward_deadline(#[trigger] keys[j], at) {
                    let j = choose|j: int|
                        0 <= j < keys.len() && s.forward_deadline(#[trigger] keys[j], at);
                    assert(s.pool.entries.contains_key(keys[j]));
                }
            }
        }
        earliest
    }

    /// The earliest time at which [`Replica::tick`] has scheduled work to
    /// do, or `None` when fully idle. Callers on a fixed tick interval can
    /// ignore this. Every returned deadline is retired or advanced by the
    /// tick that services it, so a caller sleeping exactly until each wakeup
    /// makes progress.
    pub fn next_wakeup(&self) -> (r: Option<u64>)
        requires
            self.wf(),
        ensures
            match r {
                Some(at) => self@.is_deadline(at) && forall|t: u64| #[trigger]
                    self@.is_deadline(t) ==> at <= t,
                None => forall|t: u64| !#[trigger] self@.is_deadline(t),
            },
    {
        let ghost s = self@;
        let ghost p1 = |at: u64|
            exists|k: u64| #[trigger] s.slots.contains_key(k) && s.slot_deadline(k, at);
        let ghost p2 = |at: u64| s.frontier_deadline(at);
        let ghost p3 = |at: u64|
            exists|id: CommandId| #[trigger]
                s.pool.entries.contains_key(id) && s.forward_deadline(id, at);
        let ghost p4 = |at: u64| s.learn_deadline(at);
        let ghost p5 = |at: u64| s.ping_deadline(at);
        let slots = self.next_slot_deadline();
        // A frontier slot that tick() would materialize is due immediately;
        // once it exists, its own hedge deadline takes over.
        let mut frontier: Option<u64> = None;
        if self.decided_contig.0 < u64::MAX && !self.slots.contains_key(
            &(self.decided_contig.0 + 1),
        ) {
            frontier = match self.pool_pending_since {
                Some(since) => Some(since),
                None => if self.known_from(self.decided_contig.0 + 1) {
                    Some(0)
                } else {
                    None
                },
            };
        }
        assert(self.slots@.dom() =~= s.slots.dom());
        assert(is_least(frontier, p2));
        // Re-forwarding deadlines advance with each transmission.
        let forwards = self.next_forward_deadline();
        let learn = match self.learn_in_flight {
            Some((_, sent_at)) => Some(sent_at.saturating_add(self.config.retransmit_delay)),
            None => {
                let ahead = self.ahead();
                assert(s.ahead().len() == ahead@.map_values(|i: usize| i as int).len());
                if ahead.len() > 0 {
                    // A known-behind replica retries Learn on the next tick.
                    Some(0)
                } else {
                    None
                }
            },
        };
        assert(is_least(learn, p4));
        let ping = if self.n() > 1 {
            Some(self.last_ping.saturating_add(PING_INTERVAL))
        } else {
            None
        };
        assert(is_least(ping, p5));
        let a = earlier(slots, frontier);
        let b = earlier(a, forwards);
        let c = earlier(b, learn);
        let r = earlier(c, ping);
        proof {
            let q2 = either(p1, p2);
            assert(is_least(a, q2));
            let q3 = either(q2, p3);
            assert(is_least(b, q3));
            let q4 = either(q3, p4);
            assert(is_least(c, q4));
            let q5 = either(q4, p5);
            assert(is_least(r, q5));
            assert forall|t: u64| #[trigger] s.is_deadline(t) <==> q5(t) by {
                assert(q5(t) <==> q4(t) || p5(t));
                assert(q4(t) <==> q3(t) || p4(t));
                assert(q3(t) <==> q2(t) || p3(t));
                assert(q2(t) <==> p1(t) || p2(t));
            }
        }
        r
    }
}

} // verus!
