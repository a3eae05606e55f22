//! What decided values deliver.

use vstd::prelude::*;

use crate::pool::{has_id, marking_delivers_once, origin_of, DedupView, OriginView};
use crate::state::{accepted, batch_of, dedup_after, ActionView, DEDUP_WINDOW};
use crate::types::{Command, CommandId, Origin, Slot};

verus! {

/// A delivery: the slot, and the commands that it brought.
pub type Delivery = (Slot, Seq<Command>);

/// The deduplication table `d` after the values `vals` were delivered.
pub open spec fn dedup_through(d: DedupView, vals: Seq<Seq<u8>>) -> DedupView
    decreases vals.len(),
{
    if vals.len() == 0 {
        d
    } else {
        dedup_after(dedup_through(d, vals.drop_last()), batch_of(vals.last()))
    }
}

/// Whether no command of `cs` is past the sequencing window of its origin.
pub open spec fn within_window(d: DedupView, cs: Seq<Command>) -> bool {
    forall|x: int|
        0 <= x < cs.len() ==> (#[trigger] cs[x]).0.seq <= d.high_water(origin_of(cs[x].0))
            + DEDUP_WINDOW
}

/// Whether no origin has a delivered sequence number at or below its mark, or
/// past its sequencing window, in its sparse set.
pub open spec fn sparse(d: DedupView) -> bool {
    forall|o: Origin, seq: u64| #[trigger]
        d.of(o).above.contains(seq) ==> d.high_water(o) < seq <= d.high_water(o) + DEDUP_WINDOW
}

/// What a replica delivers next when it has delivered `start` slots, which
/// left the deduplication table `d`, and the values of the slots after them
/// are `vals`.
pub open spec fn deliveries_from(start: int, d: DedupView, vals: Seq<Seq<u8>>) -> Seq<Delivery>
    decreases vals.len(),
{
    if vals.len() == 0 {
        Seq::empty()
    } else {
        deliveries_from(start, d, vals.drop_last()).push(
            (
                Slot((start + vals.len()) as u64),
                accepted(dedup_through(d, vals.drop_last()), batch_of(vals.last())),
            ),
        )
    }
}

/// The deduplication table after the values `vals` of slots 1, 2, ...
pub open spec fn dedup_of(vals: Seq<Seq<u8>>) -> DedupView {
    dedup_through(DedupView::empty(), vals)
}

/// What a replica delivers when the values of slots 1, 2, ... are `vals`.
pub open spec fn deliveries(vals: Seq<Seq<u8>>) -> Seq<Delivery> {
    deliveries_from(0, DedupView::empty(), vals)
}

/// The deliveries among pending effects.
pub open spec fn pending(actions: Seq<ActionView>) -> Seq<Delivery>
    decreases actions.len(),
{
    if actions.len() == 0 {
        Seq::empty()
    } else {
        match actions.last() {
            ActionView::Deliver { slot, commands } => pending(actions.drop_last()).push(
                (slot, commands),
            ),
            ActionView::Send { .. } => pending(actions.drop_last()),
        }
    }
}

pub proof fn lemma_pending_push(actions: Seq<ActionView>, a: ActionView)
    ensures
        pending(actions.push(a)) == (match a {
            ActionView::Deliver { slot, commands } => pending(actions).push((slot, commands)),
            ActionView::Send { .. } => pending(actions),
        }),
{
    assert(actions.push(a).drop_last() =~= actions);
}

pub proof fn lemma_pending_first(actions: Seq<ActionView>)
    requires
        actions.len() > 0,
    ensures
        pending(actions) == (match actions[0] {
            ActionView::Deliver { slot, commands } => seq![(slot, commands)] + pending(
                actions.drop_first(),
            ),
            ActionView::Send { .. } => pending(actions.drop_first()),
        }),
    decreases actions.len(),
{
    let rest = actions.drop_first();
    if actions.len() == 1 {
        assert(actions.drop_last() =~= Seq::empty());
        assert(pending(actions.drop_last()) =~= Seq::empty());
        assert(rest =~= Seq::empty());
        assert(pending(rest) =~= Seq::empty());
        if let ActionView::Deliver { slot, commands } = actions[0] {
            assert(Seq::<Delivery>::empty().push((slot, commands)) =~= seq![(slot, commands)]
                + Seq::<Delivery>::empty());
        }
    } else {
        let init = actions.drop_last();
        lemma_pending_first(init);
        assert(init.drop_first() =~= rest.drop_last());
        assert(init[0] == actions[0]);
        assert(rest.last() == actions.last());
        if let ActionView::Deliver { slot, commands } = actions[0] {
            if let ActionView::Deliver { slot: s2, commands: c2 } = actions.last() {
                assert((seq![(slot, commands)] + pending(rest.drop_last())).push((s2, c2))
                    =~= seq![(slot, commands)] + pending(rest.drop_last()).push((s2, c2)));
            }
        }
    }
}

/// The deliveries that values bring, one per slot.
pub proof fn lemma_deliveries(vals: Seq<Seq<u8>>)
    ensures
        deliveries(vals).len() == vals.len(),
        vals.len() <= u64::MAX ==> forall|k: int|
            0 <= k < vals.len() ==> (#[trigger] deliveries(vals)[k]).0 == Slot((k + 1) as u64),
        forall|k: int|
            0 <= k < vals.len() ==> (#[trigger] deliveries(vals)[k]).1 == accepted(
                dedup_of(vals.take(k)),
                batch_of(vals[k]),
            ),
    decreases vals.len(),
{
    if vals.len() > 0 {
        let init = vals.drop_last();
        lemma_deliveries(init);
        assert forall|k: int| 0 <= k < vals.len() implies (#[trigger] deliveries(vals)[k]).1
            == accepted(dedup_of(vals.take(k)), batch_of(vals[k])) by {
            if k < init.len() {
                assert(deliveries(vals)[k] == deliveries(init)[k]);
                assert(init.take(k) =~= vals.take(k));
            } else {
                assert(vals.take(k) =~= init);
            }
        }
        if vals.len() <= u64::MAX {
            assert forall|k: int| 0 <= k < vals.len() implies (#[trigger] deliveries(vals)[k]).0
                == Slot((k + 1) as u64) by {
                if k < init.len() {
                    assert(deliveries(vals)[k] == deliveries(init)[k]);
                }
            }
        }
    }
}

/// What the first values bring is the beginning of what all bring.
pub proof fn lemma_deliveries_prefix(vals: Seq<Seq<u8>>, n: int)
    requires
        0 <= n <= vals.len(),
    ensures
        deliveries(vals.take(n)) == deliveries(vals).take(n),
    decreases vals.len(),
{
    lemma_deliveries(vals);
    if n == vals.len() {
        assert(vals.take(n) =~= vals);
        assert(deliveries(vals).take(n) =~= deliveries(vals));
    } else {
        let init = vals.drop_last();
        lemma_deliveries(init);
        assert(init.take(n) =~= vals.take(n));
        lemma_deliveries_prefix(init, n);
        assert(deliveries(init).take(n) =~= deliveries(vals).take(n));
    }
}

/// Nothing that was refused is accepted later.
pub proof fn lemma_refused_stays_refused(d: DedupView, cs: Seq<Command>, id: CommandId)
    ensures
        !d.admits(id) ==> !dedup_after(d, cs).admits(id),
    decreases cs.len(),
{
    if cs.len() > 0 {
        lemma_refused_stays_refused(d, cs.drop_last(), id);
        marking_delivers_once(dedup_after(d, cs.drop_last()), cs.last().0, id);
    }
}

/// What counts as delivered does so from then on.
pub proof fn lemma_delivered_stays_delivered(d: DedupView, cs: Seq<Command>, id: CommandId)
    requires
        d.is_delivered(id),
    ensures
        dedup_after(d, cs).is_delivered(id),
    decreases cs.len(),
{
    if cs.len() > 0 {
        lemma_delivered_stays_delivered(d, cs.drop_last(), id);
        marking_delivers_once(dedup_after(d, cs.drop_last()), cs.last().0, id);
    }
}

/// What a batch brings counts as delivered afterwards.
pub proof fn lemma_accepted_delivered(d: DedupView, cs: Seq<Command>, id: CommandId)
    requires
        has_id(accepted(d, cs), id),
    ensures
        dedup_after(d, cs).is_delivered(id),
    decreases cs.len(),
{
    let init = cs.drop_last();
    let all = accepted(d, cs);
    let x = choose|x: int| 0 <= x < all.len() && (#[trigger] all[x]).0 == id;
    let mid = dedup_after(d, init);
    marking_delivers_once(mid, cs.last().0, id);
    if x < accepted(d, init).len() {
        assert(accepted(d, init)[x] == all[x]);
        lemma_accepted_delivered(d, init, id);
    }
}

/// What newly counts as delivered after a batch, the batch brought.
pub proof fn lemma_delivered_accepted(d: DedupView, cs: Seq<Command>, id: CommandId)
    requires
        dedup_after(d, cs).is_delivered(id),
        !d.is_delivered(id),
        id.seq != 0,
    ensures
        has_id(accepted(d, cs), id),
    decreases cs.len(),
{
    if cs.len() > 0 {
        let init = cs.drop_last();
        let mid = dedup_after(d, init);
        let all = accepted(d, cs);
        marking_delivers_once(mid, cs.last().0, id);
        if mid.is_delivered(id) {
            lemma_delivered_accepted(d, init, id);
            let x = choose|x: int|
                0 <= x < accepted(d, init).len() && (#[trigger] accepted(d, init)[x]).0 == id;
            assert(all[x].0 == id);
        } else {
            assert(cs.last().0 == id);
            assert(all.last().0 == id);
        }
    }
}

/// What counts as delivered was delivered.
pub proof fn lemma_delivered_by(vals: Seq<Seq<u8>>, id: CommandId) -> (k: int)
    requires
        dedup_of(vals).is_delivered(id),
        id.seq != 0,
    ensures
        0 <= k < vals.len(),
        has_id(deliveries(vals)[k].1, id),
    decreases vals.len(),
{
    let init = vals.drop_last();
    lemma_deliveries(vals);
    lemma_deliveries(init);
    assert(vals.take(vals.len() - 1) =~= init);
    if dedup_of(init).is_delivered(id) {
        let k = lemma_delivered_by(init, id);
        assert(deliveries(init)[k] == deliveries(vals)[k]);
        k
    } else {
        lemma_delivered_accepted(dedup_of(init), batch_of(vals.last()), id);
        vals.len() - 1
    }
}

/// Accepted commands come from the batch, were new, are refused from then on,
/// and have different ids.
pub proof fn lemma_accepted(d: DedupView, cs: Seq<Command>)
    ensures
        forall|a: int|
            0 <= a < accepted(d, cs).len() ==> exists|x: int|
                0 <= x < cs.len() && #[trigger] cs[x] == #[trigger] accepted(d, cs)[a],
        forall|a: int|
            0 <= a < accepted(d, cs).len() ==> d.admits((#[trigger] accepted(d, cs)[a]).0)
                && !dedup_after(d, cs).admits(accepted(d, cs)[a].0),
        forall|a: int, b: int|
            0 <= a < b < accepted(d, cs).len() ==> (#[trigger] accepted(d, cs)[a]).0 != (
            #[trigger] accepted(d, cs)[b]).0,
    decreases cs.len(),
{
    if cs.len() > 0 {
        let init = cs.drop_last();
        let c = cs.last();
        let before = accepted(d, init);
        let all = accepted(d, cs);
        let mid = dedup_after(d, init);
        lemma_accepted(d, init);
        assert forall|a: int| 0 <= a < all.len() implies (exists|x: int|
            0 <= x < cs.len() && #[trigger] cs[x] == #[trigger] all[a]) && d.admits(all[a].0)
            && !dedup_after(d, cs).admits(all[a].0) by {
            if a < before.len() {
                assert(all[a] == before[a]);
                let x = choose|x: int|
                    0 <= x < init.len() && #[trigger] init[x] == #[trigger] before[a];
                assert(cs[x] == all[a]);
                marking_delivers_once(mid, c.0, all[a].0);
            } else {
                assert(all[a] == c);
                assert(cs[cs.len() - 1] == c);
                marking_delivers_once(mid, c.0, c.0);
                lemma_refused_stays_refused(d, init, c.0);
            }
        }
        assert forall|a: int, b: int| 0 <= a < b < all.len() implies (#[trigger] all[a]).0 != (
        #[trigger] all[b]).0 by {
            assert(all[a] == before[a]);
            if b < before.len() {
                assert(all[b] == before[b]);
            } else {
                assert(!mid.admits(before[a].0));
            }
        }
    }
}

/// Deliveries never repeat a command, and each delivered command is refused
/// from then on.
pub proof fn lemma_deliveries_once(vals: Seq<Seq<u8>>)
    ensures
        forall|k: int, a: int|
            0 <= k < vals.len() && 0 <= a < deliveries(vals)[k].1.len() ==> !dedup_of(vals).admits(
                (#[trigger] deliveries(vals)[k].1[a]).0,
            ),
        forall|k: int, a: int, l: int, b: int|
            0 <= k < vals.len() && 0 <= a < deliveries(vals)[k].1.len() && 0 <= l < vals.len()
                && 0 <= b < deliveries(vals)[l].1.len() && (k != l || a != b) ==> (
            #[trigger] deliveries(vals)[k].1[a]).0 != (#[trigger] deliveries(vals)[l].1[b]).0,
    decreases vals.len(),
{
    if vals.len() > 0 {
        let init = vals.drop_last();
        let last = vals.len() - 1;
        let d = dedup_of(init);
        let cs = batch_of(vals.last());
        let all = deliveries(vals);
        lemma_deliveries(init);
        lemma_deliveries_once(init);
        lemma_accepted(d, cs);
        assert forall|k: int, a: int| 0 <= k < vals.len() && 0 <= a < all[k].1.len() implies
            !dedup_of(vals).admits((#[trigger] all[k].1[a]).0) by {
            if k < last {
                assert(all[k] == deliveries(init)[k]);
                assert(!d.admits(deliveries(init)[k].1[a].0));
                lemma_refused_stays_refused(d, cs, all[k].1[a].0);
            } else {
                assert(all[k].1 == accepted(d, cs));
                assert(!dedup_after(d, cs).admits(accepted(d, cs)[a].0));
            }
        }
        assert forall|k: int, a: int, l: int, b: int|
            0 <= k < vals.len() && 0 <= a < all[k].1.len() && 0 <= l < vals.len() && 0 <= b
                < all[l].1.len() && (k != l || a != b) implies (#[trigger] all[k].1[a]).0 != (
        #[trigger] all[l].1[b]).0 by {
            if k < last {
                assert(all[k] == deliveries(init)[k]);
                assert(!d.admits(deliveries(init)[k].1[a].0));
            } else {
                assert(all[k].1 == accepted(d, cs));
                assert(d.admits(accepted(d, cs)[a].0));
            }
            if l < last {
                assert(all[l] == deliveries(init)[l]);
                assert(!d.admits(deliveries(init)[l].1[b].0));
            } else {
                assert(all[l].1 == accepted(d, cs));
                assert(d.admits(accepted(d, cs)[b].0));
            }
            if k < last && l < last {
                assert(deliveries(init)[k].1[a].0 != deliveries(init)[l].1[b].0);
            } else if k == last && l == last {
                if a < b {
                    assert(accepted(d, cs)[a].0 != accepted(d, cs)[b].0);
                } else {
                    assert(accepted(d, cs)[b].0 != accepted(d, cs)[a].0);
                }
            }
        }
    }
}

/// A delivery leaves out what is not new: a command of a batch is handed out
/// exactly if its id was not accepted before, neither by an earlier slot nor
/// by an earlier place in the batch.
pub proof fn only_new_commands_are_accepted(d: DedupView, cs: Seq<Command>, x: int)
    requires
        0 <= x < cs.len(),
    ensures
        accepted(d, cs.take(x + 1)) == (if d.admits(cs[x].0) && !has_id(cs.take(x), cs[x].0) {
            accepted(d, cs.take(x)).push(cs[x])
        } else {
            accepted(d, cs.take(x))
        }),
        cs.take(cs.len() as int) == cs,
{
    assert(cs.take(x + 1).drop_last() =~= cs.take(x));
    assert(cs.take(cs.len() as int) =~= cs);
    lemma_admits_after(d, cs.take(x), cs[x].0);
}

proof fn lemma_admits_after(d: DedupView, cs: Seq<Command>, id: CommandId)
    ensures
        dedup_after(d, cs).admits(id) <==> d.admits(id) && !has_id(cs, id),
    decreases cs.len(),
{
    if cs.len() > 0 {
        let init = cs.drop_last();
        lemma_admits_after(d, init, id);
        marking_delivers_once(dedup_after(d, init), cs.last().0, id);
        if has_id(init, id) {
            let y = choose|y: int| 0 <= y < init.len() && (#[trigger] init[y]).0 == id;
            assert(cs[y].0 == id);
        }
        if has_id(cs, id) && cs.last().0 != id {
            let y = choose|y: int| 0 <= y < cs.len() && (#[trigger] cs[y]).0 == id;
            assert(init[y].0 == id);
        }
        if cs.last().0 == id {
            assert(cs[cs.len() - 1].0 == id);
        }
    }
}

/// Deduplication keeps track of what was handed out: after the values `vals`,
/// a command is new exactly if no delivery has brought its id. (Sequence
/// number zero is never issued.)
pub proof fn new_is_what_was_not_delivered(vals: Seq<Seq<u8>>, id: CommandId)
    requires
        id.seq != 0,
    ensures
        dedup_of(vals).admits(id) <==> forall|k: int|
            0 <= k < vals.len() ==> !has_id((#[trigger] deliveries(vals)[k]).1, id),
{
    marking_delivers_once(dedup_of(vals), id, id);
    lemma_deliveries(vals);
    lemma_deliveries_once(vals);
    let all = deliveries(vals);
    if !dedup_of(vals).admits(id) {
        let k = lemma_delivered_by(vals, id);
        assert(has_id(all[k].1, id));
    } else {
        assert forall|k: int| 0 <= k < vals.len() implies !has_id((#[trigger] all[k]).1, id) by {
            if has_id(all[k].1, id) {
                let a = choose|a: int| 0 <= a < all[k].1.len() && (#[trigger] all[k].1[a]).0 == id;
                assert(!dedup_of(vals).admits(all[k].1[a].0));
            }
        }
    }
}

/// Deliveries in two parts.
pub proof fn lemma_deliveries_join(start: int, d: DedupView, a: Seq<Seq<u8>>, b: Seq<Seq<u8>>)
    ensures
        dedup_through(d, a + b) == dedup_through(dedup_through(d, a), b),
        deliveries_from(start, d, a + b) == deliveries_from(start, d, a) + deliveries_from(
            start + a.len(),
            dedup_through(d, a),
            b,
        ),
    decreases b.len(),
{
    if b.len() == 0 {
        assert(a + b =~= a);
        assert(deliveries_from(start, d, a) + deliveries_from(
            start + a.len(),
            dedup_through(d, a),
            b,
        ) =~= deliveries_from(start, d, a));
    } else {
        assert((a + b).drop_last() =~= a + b.drop_last());
        lemma_deliveries_join(start, d, a, b.drop_last());
        assert(deliveries_from(start, d, a + b) =~= deliveries_from(start, d, a) + deliveries_from(
            start + a.len(),
            dedup_through(d, a),
            b,
        ));
    }
}

/// Delivering a batch that is within the window keeps the sparse sets within
/// it, and no mark is lowered.
proof fn lemma_batch_sparse(d: DedupView, e: DedupView, cs: Seq<Command>)
    requires
        sparse(d),
        within_window(e, cs),
        forall|o: Origin| e.high_water(o) <= #[trigger] d.high_water(o),
    ensures
        sparse(dedup_after(d, cs)),
        forall|o: Origin| d.high_water(o) <= #[trigger] dedup_after(d, cs).high_water(o),
    decreases cs.len(),
{
    if cs.len() > 0 {
        let init = cs.drop_last();
        let id = cs.last().0;
        assert(within_window(e, init)) by {
            assert forall|x: int| 0 <= x < init.len() implies (#[trigger] init[x]).0.seq
                <= e.high_water(origin_of(init[x].0)) + DEDUP_WINDOW by {
                assert(cs[x] == init[x]);
            }
        }
        lemma_batch_sparse(d, e, init);
        let mid = dedup_after(d, init);
        let after = mid.marked(id);
        let o = mid.of(origin_of(id));
        let added = OriginView { above: o.above.insert(id.seq), ..o };
        assert(cs[cs.len() - 1].0 == id);
        assert(e.high_water(origin_of(id)) <= d.high_water(origin_of(id)));
        assert(d.high_water(origin_of(id)) <= mid.high_water(origin_of(id)));
        assert forall|p: Origin| d.high_water(p) <= #[trigger] after.high_water(p) by {
            assert(d.high_water(p) <= mid.high_water(p));
            if p == origin_of(id) {
                added.lemma_drained();
            }
        }
        assert forall|p: Origin, seq: u64| #[trigger] after.of(p).above.contains(seq) implies
            after.high_water(p) < seq <= after.high_water(p) + DEDUP_WINDOW by {
            if p == origin_of(id) {
                if o.covers(id.seq) {
                    assert(mid.of(p).above.contains(seq));
                } else {
                    assert forall|x: u64| #[trigger] added.above.contains(x) implies o.high_water
                        < x <= o.high_water + DEDUP_WINDOW by {
                        if x != id.seq {
                            assert(mid.of(p).above.contains(x));
                        }
                    }
                    added.lemma_drained_sparse(DEDUP_WINDOW as nat);
                }
            } else {
                assert(mid.of(p).above.contains(seq));
            }
        }
    }
}

/// The marks that values leave are never lowered by further ones.
proof fn lemma_marks_rise(vals: Seq<Seq<u8>>, n: int, o: Origin)
    requires
        0 <= n <= vals.len(),
    ensures
        dedup_of(vals.take(n)).high_water(o) <= dedup_of(vals).high_water(o),
    decreases vals.len(),
{
    if n == vals.len() {
        assert(vals.take(n) =~= vals);
    } else {
        let init = vals.drop_last();
        assert(init.take(n) =~= vals.take(n));
        lemma_marks_rise(init, n, o);
        lemma_batch_marks_rise(dedup_of(init), batch_of(vals.last()), o);
    }
}

proof fn lemma_batch_marks_rise(d: DedupView, cs: Seq<Command>, o: Origin)
    ensures
        d.high_water(o) <= dedup_after(d, cs).high_water(o),
    decreases cs.len(),
{
    if cs.len() > 0 {
        let id = CommandId { origin: o.replica, boot: o.boot, seq: 0 };
        assert(origin_of(id) == o);
        lemma_batch_marks_rise(d, cs.drop_last(), o);
        marking_delivers_once(dedup_after(d, cs.drop_last()), cs.last().0, id);
    }
}

/// Whether the value at `k` is within the window that some values before it
/// leave.
pub open spec fn within_window_of_prefix(vals: Seq<Seq<u8>>, k: int) -> bool {
    exists|n: int|
        0 <= n <= k && within_window(dedup_of(#[trigger] vals.take(n)), batch_of(vals[k]))
}

/// Values that were each within the window of some values before it leave
/// the sparse sets within the window.
pub proof fn lemma_values_sparse(vals: Seq<Seq<u8>>)
    requires
        forall|k: int| 0 <= k < vals.len() ==> #[trigger] within_window_of_prefix(vals, k),
    ensures
        sparse(dedup_of(vals)),
    decreases vals.len(),
{
    if vals.len() > 0 {
        let init = vals.drop_last();
        assert forall|k: int| 0 <= k < init.len() implies #[trigger] within_window_of_prefix(
            init,
            k,
        ) by {
            assert(within_window_of_prefix(vals, k));
            let n = choose|n: int|
                0 <= n <= k && within_window(dedup_of(#[trigger] vals.take(n)), batch_of(vals[k]));
            assert(init.take(n) =~= vals.take(n));
        }
        lemma_values_sparse(init);
        let k = vals.len() - 1;
        assert(within_window_of_prefix(vals, k));
        let n = choose|n: int|
            0 <= n <= k && within_window(dedup_of(#[trigger] vals.take(n)), batch_of(vals[k]));
        assert(init.take(n) =~= vals.take(n));
        assert forall|o: Origin| dedup_of(vals.take(n)).high_water(o) <= #[trigger] dedup_of(
            init,
        ).high_water(o) by {
            lemma_marks_rise(init, n, o);
        }
        lemma_batch_sparse(dedup_of(init), dedup_of(vals.take(n)), batch_of(vals.last()));
    }
}

} // verus!
