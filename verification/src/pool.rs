//! The command pool and the delivery deduplication table.

use std::collections::BTreeSet;

use vstd::prelude::*;

use crate::sorted::{Key, SortedMap};
use crate::types::{
    commands_of, Bytes, Command, CommandBatch, CommandId, Origin, ReplicaId, Slot,
    COMMAND_WIRE_OVERHEAD,
};

verus! {

broadcast use vstd::std_specs::btree::group_btree_axioms;

/// The sum of the weights in a finite map.
pub open spec fn total<K>(weights: Map<K, nat>) -> nat
    decreases weights.dom().len(),
{
    if weights.dom().finite() && weights.dom().len() > 0 {
        let k = weights.dom().choose();
        weights[k] + total(weights.remove(k))
    } else {
        0
    }
}

/// A total is any one weight plus the total of the others.
pub proof fn lemma_total_remove<K>(weights: Map<K, nat>, k: K)
    requires
        weights.dom().finite(),
        weights.contains_key(k),
    ensures
        total(weights) == weights[k] + total(weights.remove(k)),
    decreases weights.dom().len(),
{
    assert(weights.dom().len() > 0) by {
        if weights.dom().len() == 0 {
            assert(weights.dom() =~= Set::empty());
        }
    }
    let c = weights.dom().choose();
    assert(weights.dom().contains(c));
    if c != k {
        lemma_total_remove(weights.remove(c), k);
        lemma_total_remove(weights.remove(k), c);
        assert(weights.remove(c).remove(k) =~= weights.remove(k).remove(c));
    }
}

/// Putting in a weight adds it to the total, in place of the one that was
/// there.
pub proof fn lemma_total_insert<K>(weights: Map<K, nat>, k: K, w: nat)
    requires
        weights.dom().finite(),
    ensures
        total(weights.insert(k, w)) == w + total(weights) - (if weights.contains_key(k) {
            weights[k]
        } else {
            0
        }),
{
    let after = weights.insert(k, w);
    lemma_total_remove(after, k);
    if weights.contains_key(k) {
        lemma_total_remove(weights, k);
        assert(after.remove(k) =~= weights.remove(k));
    } else {
        assert(after.remove(k) =~= weights);
    }
}

/// A part weighs at most as much as the whole.
pub proof fn lemma_total_part<K>(part: Map<K, nat>, whole: Map<K, nat>)
    requires
        whole.dom().finite(),
        part.submap_of(whole),
    ensures
        part.dom().finite(),
        total(part) <= total(whole),
    decreases whole.dom().len(),
{
    assert(part.dom().subset_of(whole.dom()));
    vstd::set_lib::lemma_len_subset(part.dom(), whole.dom());
    if part.dom().len() > 0 {
        let k = part.dom().choose();
        assert(part.contains_key(k));
        assert(whole.contains_key(k));
        lemma_total_remove(part, k);
        lemma_total_remove(whole, k);
        assert(part.remove(k).submap_of(whole.remove(k)));
        lemma_total_part(part.remove(k), whole.remove(k));
    }
}

/// A submitted-but-undelivered command held by this replica.
#[derive(Debug)]
pub struct PoolEntry {
    pub data: Bytes,
    /// Slot this entry currently rides in as part of one of our own open
    /// proposals, if any. Cleared when that slot decides without it, making
    /// the entry immediately re-batchable.
    pub proposed_in: Option<Slot>,
    /// When we last forwarded this entry (origin replicas only).
    pub last_forward: u64,
    /// How many times it has been forwarded; rotates the target through the
    /// schedule so a dead leader cannot strand commands.
    pub forward_attempts: u64,
}

/// What a [`PoolEntry`] holds.
#[verifier::ext_equal]
pub struct EntryView {
    pub data: Seq<u8>,
    pub proposed_in: Option<Slot>,
    pub last_forward: u64,
    pub forward_attempts: u64,
}

impl View for PoolEntry {
    type V = EntryView;

    open spec fn view(&self) -> EntryView {
        EntryView {
            data: self.data@,
            proposed_in: self.proposed_in,
            last_forward: self.last_forward,
            forward_attempts: self.forward_attempts,
        }
    }
}

impl EntryView {
    /// An entry as it enters the pool.
    pub open spec fn fresh(data: Seq<u8>, now: u64) -> EntryView {
        EntryView { data, proposed_in: None, last_forward: now, forward_attempts: 0 }
    }
}

/// The command pool: everything submitted here or forwarded to us that has
/// not yet been delivered.
pub struct Pool {
    pub entries: SortedMap<CommandId, PoolEntry>,
    pub bytes: usize,
}

/// What a [`Pool`] holds.
#[verifier::ext_equal]
pub struct PoolView {
    pub entries: Map<CommandId, EntryView>,
    pub bytes: usize,
}

impl View for Pool {
    type V = PoolView;

    open spec fn view(&self) -> PoolView {
        PoolView {
            entries: self.entries@.map_values(|e: PoolEntry| e@),
            bytes: self.bytes,
        }
    }
}

/// Accounted cost of `len` bytes of command.
pub open spec fn entry_cost(len: nat) -> nat {
    len + COMMAND_WIRE_OVERHEAD as nat
}

/// The accounted cost of each entry.
pub open spec fn entry_costs(entries: Map<CommandId, EntryView>) -> Map<CommandId, nat> {
    entries.map_values(|e: EntryView| entry_cost(e.data.len()))
}

impl PoolView {
    pub open spec fn empty() -> PoolView {
        PoolView { entries: Map::empty(), bytes: 0 }
    }

    /// The byte count is the total cost of the entries.
    pub open spec fn accounted(self) -> bool {
        self.entries.dom().finite() && self.bytes == total(entry_costs(self.entries))
    }

    /// Whether some entry rides in no proposal of this replica.
    pub open spec fn has_unassigned(self) -> bool {
        exists|id: CommandId| #[trigger]
            self.entries.contains_key(id) && self.entries[id].proposed_in is None
    }

    /// The pool with a fresh entry under `id`; only a new id is charged for.
    pub open spec fn inserted(self, id: CommandId, data: Seq<u8>, now: u64) -> PoolView {
        PoolView {
            entries: self.entries.insert(id, EntryView::fresh(data, now)),
            bytes: if self.entries.contains_key(id) {
                self.bytes
            } else {
                (self.bytes + entry_cost(data.len())) as usize
            },
        }
    }

    /// The pool without the entry under `id`.
    pub open spec fn removed(self, id: CommandId) -> PoolView {
        if self.entries.contains_key(id) {
            PoolView {
                entries: self.entries.remove(id),
                bytes: (self.bytes - entry_cost(self.entries[id].data.len())) as usize,
            }
        } else {
            self
        }
    }

    /// The pool with the commands `cs` riding in `slot`.
    pub open spec fn claimed(self, slot: Slot, cs: Seq<Command>) -> PoolView {
        PoolView {
            entries: Map::new(
                |id: CommandId| self.entries.contains_key(id),
                |id: CommandId|
                    if has_id(cs, id) {
                        EntryView { proposed_in: Some(slot), ..self.entries[id] }
                    } else {
                        self.entries[id]
                    },
            ),
            ..self
        }
    }

    /// The pool with what rode in `slot` and is not among the winners riding
    /// in nothing.
    pub open spec fn released(self, slot: Slot, winners: Seq<Command>) -> PoolView {
        PoolView {
            entries: Map::new(
                |id: CommandId| self.entries.contains_key(id),
                |id: CommandId|
                    if self.entries[id].proposed_in == Some(slot) && !has_id(winners, id) {
                        EntryView { proposed_in: None, ..self.entries[id] }
                    } else {
                        self.entries[id]
                    },
            ),
            ..self
        }
    }

    /// The pool with one more forwarding of `ids` on record.
    pub open spec fn reforwarded(self, now: u64, ids: Seq<CommandId>) -> PoolView {
        PoolView {
            entries: Map::new(
                |id: CommandId| self.entries.contains_key(id),
                |id: CommandId|
                    if ids.contains(id) {
                        EntryView {
                            last_forward: now,
                            forward_attempts: self.entries[id].forward_attempts.wrapping_add(1),
                            ..self.entries[id]
                        }
                    } else {
                        self.entries[id]
                    },
            ),
            ..self
        }
    }
}

/// Whether a command with id `id` is among `cs`.
pub open spec fn has_id(cs: Seq<Command>, id: CommandId) -> bool {
    exists|i: int| 0 <= i < cs.len() && (#[trigger] cs[i]).0 == id
}

/// The byte count stays the total cost of the entries when a new id is
/// inserted, when an id is removed, and when an entry is replaced by one of
/// the same length; what is removed was paid for.
pub proof fn pool_bytes_are_accounted(p: PoolView, id: CommandId, data: Seq<u8>, now: u64)
    requires
        p.accounted(),
    ensures
        p.entries.contains_key(id) ==> entry_cost(p.entries[id].data.len()) <= p.bytes,
        p.removed(id).accounted(),
        (p.entries.contains_key(id) ==> p.entries[id].data.len() == data.len()) && (p.bytes
            + entry_cost(data.len()) <= usize::MAX || p.entries.contains_key(id)) ==> p.inserted(
            id,
            data,
            now,
        ).accounted(),
{
    let w = entry_costs(p.entries);
    assert(w.dom() =~= p.entries.dom());
    if p.entries.contains_key(id) {
        lemma_total_remove(w, id);
        assert(entry_costs(p.entries.remove(id)) =~= w.remove(id));
    }
    let e = EntryView::fresh(data, now);
    lemma_total_insert(w, id, entry_cost(data.len()));
    assert(entry_costs(p.entries.insert(id, e)) =~= w.insert(id, entry_cost(data.len())));
}

impl Default for Pool {
    fn default() -> (r: Pool)
        ensures
            r.wf(),
            r@ == PoolView::empty(),
    {
        let r = Pool { entries: SortedMap::new(), bytes: 0 };
        assert(r@.entries =~= Map::empty());
        r
    }
}

impl Pool {
    pub open spec fn wf(&self) -> bool {
        self.entries.wf()
    }

    /// Accounted cost of one entry: its bytes plus per-command overhead, so
    /// the pool byte limit also bounds the entry count (zero-length commands
    /// are common: read barriers).
    pub fn cost(data_len: usize) -> (r: usize)
        requires
            entry_cost(data_len as nat) <= usize::MAX,
        ensures
            r == entry_cost(data_len as nat),
    {
        data_len + COMMAND_WIRE_OVERHEAD
    }

    /// Puts a fresh entry under `id`.
    pub fn insert(&mut self, id: CommandId, data: Bytes, now: u64)
        requires
            old(self).wf(),
            old(self)@.bytes + entry_cost(data@.len()) <= usize::MAX,
        ensures
            final(self).wf(),
            final(self)@ == old(self)@.inserted(id, data@, now),
    {
        let cost = Pool::cost(data.len());
        let entry = PoolEntry { data, proposed_in: None, last_forward: now, forward_attempts: 0 };
        let replaced = self.entries.insert(id, entry);
        if replaced.is_none() {
            self.bytes += cost;
        }
        assert(self@.entries =~= old(self)@.entries.insert(id, EntryView::fresh(data@, now)));
    }

    /// Takes the entry under `id` out, if there is one.
    pub fn remove(&mut self, id: &CommandId)
        requires
            old(self).wf(),
            old(self)@.entries.contains_key(*id) ==> entry_cost(
                old(self)@.entries[*id].data.len(),
            ) <= old(self)@.bytes,
        ensures
            final(self).wf(),
            final(self)@ == old(self)@.removed(*id),
    {
        let removed = self.entries.remove(id);
        if let Some(entry) = removed {
            self.bytes -= Pool::cost(entry.data.len());
        }
        assert(self@.entries =~= old(self)@.removed(*id).entries);
    }

    /// Marks the commands of `batch` as riding in `slot`.
    pub(crate) fn claim(&mut self, slot: Slot, batch: &CommandBatch)
        requires
            old(self).wf(),
        ensures
            final(self).wf(),
            final(self)@ == old(self)@.claimed(slot, commands_of(batch@)),
    {
        let ghost cs = commands_of(batch@);
        let mut i: usize = 0;
        assert(self@ =~= old(self)@.claimed(slot, cs.take(0)));
        while i < batch.len()
            invariant
                i <= batch@.len(),
                self.wf(),
                cs == commands_of(batch@),
                self@ == old(self)@.claimed(slot, cs.take(i as int)),
            decreases batch.len() - i,
        {
            let ghost held = *self;
            let id = batch[i].0;
            match self.entries.get_mut(&id) {
                Some(entry) => {
                    entry.proposed_in = Some(slot);
                },
                None => {},
            }
            proof {
                let before = cs.take(i as int);
                let after = cs.take(i + 1);
                assert(after =~= before.push(cs[i as int]));
                assert forall|other: CommandId| #[trigger]
                    has_id(after, other) <==> has_id(before, other) || other == id by {
                    lemma_has_id_push(before, cs[i as int], other);
                }
                let goal = old(self)@.claimed(slot, after);
                assert(self.entries@.dom() =~= held.entries@.dom());
                assert(held@.entries.dom() =~= old(self)@.entries.dom());
                assert(self@.entries.dom() =~= goal.entries.dom());
                assert forall|other: CommandId| #[trigger]
                    goal.entries.contains_key(other) implies self@.entries[other]
                    == goal.entries[other] by {
                    assert(has_id(after, other) <==> has_id(before, other) || other == id);
                    assert(held.entries@.contains_key(other));
                    assert(self.entries@.contains_key(other));
                    assert(held@.entries[other] == old(self)@.claimed(slot, before).entries[other]);
                    assert(old(self)@.entries.contains_key(other));
                    assert(held@.entries[other] == held.entries@[other]@);
                    if other != id {
                        assert(self.entries@[other] == held.entries@[other]);
                    } else {
                        assert(self.entries@[id]@ =~= EntryView {
                            proposed_in: Some(slot),
                            ..held.entries@[id]@
                        });
                    }
                    assert(self@.entries[other] == self.entries@[other]@);
                }
                assert(self@ =~= goal);
            }
            i += 1;
        }
        assert(cs.take(i as int) =~= cs);
    }

    /// Makes the commands that rode in `slot` and are not in `batch`
    /// available again.
    pub(crate) fn release(&mut self, slot: Slot, batch: &CommandBatch)
        requires
            old(self).wf(),
        ensures
            final(self).wf(),
            final(self)@ == old(self)@.released(slot, commands_of(batch@)),
    {
        let ghost cs = commands_of(batch@);
        let winners = ids_of(batch);
        let mut i: usize = 0;
        let ghost keys = self.entries.keys();
        proof {
            self.entries.lemma_entries();
        }
        while i < self.entries.len()
            invariant
                i <= keys.len(),
                self.wf(),
                winners.wf(),
                self.entries.keys() == keys,
                keys == old(self).entries.keys(),
                old(self).wf(),
                self@.entries.dom() == old(self)@.entries.dom(),
                self.bytes == old(self).bytes,
                forall|id: CommandId| #[trigger]
                    winners@.contains_key(id) <==> has_id(cs, id),
                forall|j: int| 0 <= j < i ==> self@.entries[#[trigger] keys[j]] == old(
                    self,
                )@.released(slot, cs).entries[keys[j]],
                forall|j: int| i <= j < keys.len() ==> self@.entries[#[trigger] keys[j]] == old(
                    self,
                )@.entries[keys[j]],
            decreases keys.len() - i,
        {
            proof {
                self.entries.lemma_entries();
                old(self).entries.lemma_entries();
            }
            let ghost before = *self;
            let id = self.entries.key_at(i);
            assert(id == keys[i as int]);
            assert(before@.entries.contains_key(id));
            assert(old(self)@.entries.contains_key(id));
            if !winners.contains_key(&id) {
                let entry = self.entries.value_at_mut(i);
                if entry.proposed_in == Some(slot) {
                    entry.proposed_in = None;
                }
            }
            proof {
                assert(self@.entries.dom() =~= before@.entries.dom());
                assert forall|j: int| 0 <= j < keys.len() && j != i implies
                    self@.entries[#[trigger] keys[j]] == before@.entries[keys[j]] by {
                    if j < i {
                        assert(keys[j].rank() < keys[i as int].rank());
                    } else {
                        assert(keys[i as int].rank() < keys[j].rank());
                    }
                    assert(before.entries@.contains_key(keys[j]));
                    assert(self.entries@.contains_key(keys[j]));
                }
                assert(self@.entries[id] == old(self)@.released(slot, cs).entries[id]);
            }
            i += 1;
        }
        proof {
            self.entries.lemma_entries();
            old(self).entries.lemma_entries();
            let goal = old(self)@.released(slot, cs);
            assert(goal.entries.dom() =~= old(self)@.entries.dom());
            assert forall|id: CommandId| #[trigger] goal.entries.contains_key(id) implies
                self@.entries[id] == goal.entries[id] by {
                assert(old(self)@.entries.contains_key(id));
                assert(old(self).entries@.contains_key(id));
                assert(keys.contains(id));
                let j = choose|j: int| 0 <= j < keys.len() && keys[j] == id;
                assert(self@.entries[keys[j]] == goal.entries[keys[j]]);
            }
            assert(self@.entries =~= goal.entries);
        }
    }

    /// Notes one more forwarding, at `now`, of each of `ids`.
    pub(crate) fn reforward(&mut self, now: u64, ids: &Vec<CommandId>)
        requires
            old(self).wf(),
            ids@.no_duplicates(),
        ensures
            final(self).wf(),
            final(self)@ == old(self)@.reforwarded(now, ids@),
    {
        let mut i: usize = 0;
        assert(self@ =~= old(self)@.reforwarded(now, ids@.take(0)));
        while i < ids.len()
            invariant
                i <= ids@.len(),
                self.wf(),
                ids@.no_duplicates(),
                self@ == old(self)@.reforwarded(now, ids@.take(i as int)),
            decreases ids.len() - i,
        {
            let ghost held = *self;
            let id = ids[i];
            match self.entries.get_mut(&id) {
                Some(entry) => {
                    entry.last_forward = now;
                    entry.forward_attempts = entry.forward_attempts.wrapping_add(1);
                },
                None => {},
            }
            proof {
                let before = ids@.take(i as int);
                let after = ids@.take(i + 1);
                assert(after =~= before.push(id));
                assert(!before.contains(id)) by {
                    if before.contains(id) {
                        let j = choose|j: int| 0 <= j < before.len() && before[j] == id;
                        assert(ids@[j] == ids@[i as int]);
                    }
                }
                let goal = old(self)@.reforwarded(now, after);
                assert(self.entries@.dom() =~= held.entries@.dom());
                assert(held@.entries.dom() =~= old(self)@.entries.dom());
                assert(self@.entries.dom() =~= goal.entries.dom());
                assert forall|other: CommandId| #[trigger]
                    goal.entries.contains_key(other) implies self@.entries[other]
                    == goal.entries[other] by {
                    vstd::seq_lib::lemma_seq_contains_after_push(before, id, other);
                    assert(held.entries@.contains_key(other));
                    assert(self.entries@.contains_key(other));
                    assert(old(self)@.entries.contains_key(other));
                    assert(held@.entries[other] == old(self)@.reforwarded(
                        now,
                        before,
                    ).entries[other]);
                    assert(held@.entries[other] == held.entries@[other]@);
                    assert(self@.entries[other] == self.entries@[other]@);
                    if other != id {
                        assert(self.entries@[other] == held.entries@[other]);
                    } else {
                        assert(held@.entries[id] == old(self)@.entries[id]);
                    }
                }
                assert(self@ =~= goal);
            }
            i += 1;
        }
        assert(ids@.take(i as int) =~= ids@);
    }

    /// Whether some entry rides in no proposal of this replica.
    pub fn has_unassigned(&self) -> (r: bool)
        requires
            self.wf(),
        ensures
            r == self@.has_unassigned(),
    {
        proof {
            self.entries.lemma_entries();
        }
        let mut i: usize = 0;
        while i < self.entries.len()
            invariant
                i <= self.entries.entries@.len(),
                self.wf(),
                forall|j: int| 0 <= j < i ==> (#[trigger] self.entries.entries@[j]).1.proposed_in
                    is Some,
            decreases self.entries.entries@.len() - i,
        {
            if self.entries.value_at(i).proposed_in.is_none() {
                proof {
                    self.entries.lemma_entries();
                    let id = self.entries.keys()[i as int];
                    assert(self@.entries.contains_key(id));
                }
                return true;
            }
            i += 1;
        }
        proof {
            assert forall|id: CommandId| #[trigger]
                self@.entries.contains_key(id) implies self@.entries[id].proposed_in is Some by {
                assert(self.entries.keys().contains(id));
                let j = choose|j: int|
                    0 <= j < self.entries.keys().len() && self.entries.keys()[j] == id;
                assert(self.entries.entries@[j].1.proposed_in is Some);
            }
        }
        false
    }
}

pub proof fn lemma_has_id_push(cs: Seq<Command>, c: Command, id: CommandId)
    ensures
        has_id(cs.push(c), id) <==> has_id(cs, id) || c.0 == id,
{
    let after = cs.push(c);
    if has_id(cs, id) {
        let i = choose|i: int| 0 <= i < cs.len() && (#[trigger] cs[i]).0 == id;
        assert(after[i].0 == id);
    }
    if has_id(after, id) && c.0 != id {
        let i = choose|i: int| 0 <= i < after.len() && (#[trigger] after[i]).0 == id;
        assert(cs[i].0 == id);
    }
    assert(after[cs.len() as int] == c);
}

/// The ids of a batch.
fn ids_of(batch: &CommandBatch) -> (r: SortedMap<CommandId, ()>)
    ensures
        r.wf(),
        forall|id: CommandId| #[trigger]
            r@.contains_key(id) <==> has_id(commands_of(batch@), id),
{
    let ghost cs = commands_of(batch@);
    let mut ids: SortedMap<CommandId, ()> = SortedMap::new();
    let mut i: usize = 0;
    while i < batch.len()
        invariant
            i <= batch@.len(),
            ids.wf(),
            cs == commands_of(batch@),
            forall|id: CommandId| #[trigger]
                ids@.contains_key(id) <==> has_id(cs.take(i as int), id),
        decreases batch.len() - i,
    {
        ids.insert(batch[i].0, ());
        proof {
            assert(cs.take(i + 1) =~= cs.take(i as int).push(cs[i as int]));
            assert forall|id: CommandId| #[trigger]
                ids@.contains_key(id) <==> has_id(cs.take(i + 1), id) by {
                lemma_has_id_push(cs.take(i as int), cs[i as int], id);
            }
        }
        i += 1;
    }
    assert(cs.take(i as int) =~= cs);
    ids
}

/// What has been delivered of one origin's boot: everything up to
/// `high_water`, and the sequence numbers in `above`.
pub struct OriginDedup {
    pub high_water: u64,
    pub above: BTreeSet<u64>,
}

/// What an [`OriginDedup`] holds.
#[verifier::ext_equal]
pub struct OriginView {
    pub high_water: u64,
    pub above: Set<u64>,
}

impl View for OriginDedup {
    type V = OriginView;

    open spec fn view(&self) -> OriginView {
        OriginView { high_water: self.high_water, above: self.above@ }
    }
}

impl OriginView {
    pub open spec fn empty() -> OriginView {
        OriginView { high_water: 0, above: Set::empty() }
    }

    /// Whether sequence number `seq` has been delivered.
    pub open spec fn covers(self, seq: u64) -> bool {
        seq <= self.high_water || self.above.contains(seq)
    }

    /// Moves the mark up while the next number stands above it.
    pub open spec fn drained(self) -> OriginView
        decreases u64::MAX - self.high_water,
    {
        let next = (self.high_water + 1) as u64;
        if self.high_water < u64::MAX && self.above.contains(next) {
            OriginView { high_water: next, above: self.above.remove(next) }.drained()
        } else {
            self
        }
    }

    /// Draining changes neither what has been delivered nor lowers the mark,
    /// and leaves nothing to drain.
    pub proof fn lemma_drained(self)
        ensures
            forall|seq: u64| #[trigger] self.drained().covers(seq) == self.covers(seq),
            self.drained().high_water >= self.high_water,
            self.drained().high_water < u64::MAX ==> !self.drained().above.contains(
                (self.drained().high_water + 1) as u64,
            ),
        decreases u64::MAX - self.high_water,
    {
        let next = (self.high_water + 1) as u64;
        if self.high_water < u64::MAX && self.above.contains(next) {
            let step = OriginView { high_water: next, above: self.above.remove(next) };
            step.lemma_drained();
            assert forall|seq: u64| #[trigger]
                self.drained().covers(seq) == self.covers(seq) by {
                assert(step.drained().covers(seq) == step.covers(seq));
            }
        }
    }

    /// Draining keeps a sparse set that reaches at most `window` above the mark
    /// that way.
    pub proof fn lemma_drained_sparse(self, window: nat)
        requires
            forall|seq: u64| #[trigger]
                self.above.contains(seq) ==> self.high_water < seq <= self.high_water + window,
        ensures
            forall|seq: u64| #[trigger]
                self.drained().above.contains(seq) ==> self.drained().high_water < seq
                    <= self.drained().high_water + window,
        decreases u64::MAX - self.high_water,
    {
        let next = (self.high_water + 1) as u64;
        if self.high_water < u64::MAX && self.above.contains(next) {
            let step = OriginView { high_water: next, above: self.above.remove(next) };
            assert forall|seq: u64| #[trigger] step.above.contains(seq) implies step.high_water
                < seq <= step.high_water + window by {
                assert(self.above.contains(seq));
            }
            step.lemma_drained_sparse(window);
            assert(self.drained() == step.drained());
        }
    }
}

/// The origin and boot a command id belongs to.
pub open spec fn origin_of(id: CommandId) -> Origin {
    Origin { replica: id.origin, boot: id.boot }
}

/// Tracks which commands have been delivered, per `(origin, boot)`, as a
/// contiguous sequence high-water mark plus a sparse set of delivered
/// sequence numbers above it.
///
/// Delivery order equals slot order, which is agreed, so this state is a
/// pure function of the log prefix: every replica computes the same
/// delivered set, which is what makes exactly-once delivery deterministic.
/// The sparse set only holds entries while re-proposal races commit an
/// origin's commands out of sequence order, and drains as the mark advances.
pub struct Dedup {
    pub per_origin: SortedMap<Origin, OriginDedup>,
}

/// What a [`Dedup`] holds.
#[verifier::ext_equal]
pub struct DedupView {
    pub per_origin: Map<Origin, OriginView>,
}

impl View for Dedup {
    type V = DedupView;

    open spec fn view(&self) -> DedupView {
        DedupView { per_origin: self.per_origin@.map_values(|o: OriginDedup| o@) }
    }
}

impl DedupView {
    pub open spec fn empty() -> DedupView {
        DedupView { per_origin: Map::empty() }
    }

    /// What is known of an origin's boot.
    pub open spec fn of(self, origin: Origin) -> OriginView {
        if self.per_origin.contains_key(origin) {
            self.per_origin[origin]
        } else {
            OriginView::empty()
        }
    }

    pub open spec fn high_water(self, origin: Origin) -> u64 {
        self.of(origin).high_water
    }

    pub open spec fn is_delivered(self, id: CommandId) -> bool {
        self.per_origin.contains_key(origin_of(id)) && self.of(origin_of(id)).covers(id.seq)
    }

    /// Whether `mark_delivered` accepts `id` as new. Sequence number zero is
    /// never issued and never accepted.
    pub open spec fn admits(self, id: CommandId) -> bool {
        !self.of(origin_of(id)).covers(id.seq)
    }

    /// The table after `mark_delivered`.
    pub open spec fn marked(self, id: CommandId) -> DedupView {
        let o = self.of(origin_of(id));
        let after = if o.covers(id.seq) {
            o
        } else {
            OriginView { above: o.above.insert(id.seq), ..o }.drained()
        };
        DedupView { per_origin: self.per_origin.insert(origin_of(id), after) }
    }
}

/// Marking a command delivers that command and keeps every other one as it
/// was (sequence number zero, which is never issued, aside): a command is
/// accepted as new exactly once.
pub proof fn marking_delivers_once(d: DedupView, id: CommandId, other: CommandId)
    ensures
        d.marked(id).is_delivered(id),
        !d.marked(id).admits(id),
        other.seq != 0 && other != id ==> d.marked(id).is_delivered(other) == d.is_delivered(other),
        d.is_delivered(other) ==> d.marked(id).is_delivered(other),
        other != id ==> d.marked(id).admits(other) == d.admits(other),
        d.admits(id) <==> !d.is_delivered(id) && id.seq != 0,
        d.marked(id).high_water(origin_of(other)) >= d.high_water(origin_of(other)),
{
    let o = d.of(origin_of(id));
    let added = OriginView { above: o.above.insert(id.seq), ..o };
    added.lemma_drained();
    assert(added.drained().covers(id.seq) == added.covers(id.seq));
    assert(added.drained().covers(other.seq) == added.covers(other.seq));
}

impl Default for Dedup {
    fn default() -> (r: Dedup)
        ensures
            r.wf(),
            r@ == DedupView::empty(),
    {
        let r = Dedup { per_origin: SortedMap::new() };
        assert(r@.per_origin =~= Map::empty());
        r
    }
}

impl Dedup {
    pub open spec fn wf(&self) -> bool {
        self.per_origin.wf()
    }

    /// The contiguous delivered sequence high-water mark for an origin's
    /// boot (0 when nothing has been delivered).
    pub fn high_water(&self, origin: ReplicaId, boot: u64) -> (r: u64)
        requires
            self.wf(),
        ensures
            r == self@.high_water(Origin { replica: origin, boot }),
    {
        match self.per_origin.get(&Origin { replica: origin, boot }) {
            Some(state) => state.high_water,
            None => 0,
        }
    }

    pub fn is_delivered(&self, id: &CommandId) -> (r: bool)
        requires
            self.wf(),
        ensures
            r == self@.is_delivered(*id),
    {
        match self.per_origin.get(&Origin { replica: id.origin, boot: id.boot }) {
            None => false,
            Some(origin) => id.seq <= origin.high_water || origin.above.contains(&id.seq),
        }
    }

    /// Records a delivery. Returns false if it was already delivered.
    pub fn mark_delivered(&mut self, id: &CommandId) -> (r: bool)
        requires
            old(self).wf(),
        ensures
            final(self).wf(),
            r == old(self)@.admits(*id),
            final(self)@ == old(self)@.marked(*id),
    {
        let key = Origin { replica: id.origin, boot: id.boot };
        let mut state = match self.per_origin.remove(&key) {
            Some(state) => state,
            None => OriginDedup { high_water: 0, above: BTreeSet::new() },
        };
        let ghost before = state@;
        assert(before =~= old(self)@.of(key));
        let fresh = id.seq > state.high_water && state.above.insert(id.seq);
        if fresh {
            let ghost added = state@;
            while state.high_water < u64::MAX && state.above.remove(&(state.high_water + 1))
                invariant
                    added.drained() == state@.drained(),
                ensures
                    state@ == added.drained(),
                decreases u64::MAX - state.high_water,
            {
                state.high_water += 1;
            }
        } else {
            assert(state@ =~= before);
        }
        self.per_origin.insert(key, state);
        assert(self@.per_origin =~= old(self)@.marked(*id).per_origin);
        fresh
    }
}

} // verus!
