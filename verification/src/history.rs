//! What has happened in one slot across a whole group, and why no two
//! replicas can decide different values for it.
//!
//! A recorder forgets most of what it saw. The history keeps all of it: every
//! proposal that a recorder accepted, in order, and every proposal that a
//! proposer made, per step and recorder. From a history that the protocol
//! produced, at most one value can be chosen.

use vstd::prelude::*;

use crate::proposer::set_count;
use crate::recorder::IsrView;
use crate::types::{larger_opt, proposal_order_is_total, ProposalView, PRIORITY_H};

verus! {

/// One proposal that a recorder accepted, and the step it was for.
#[verifier::ext_equal]
pub struct Recorded {
    pub step: u32,
    pub p: ProposalView,
}

/// The register of a recorder that accepted `q`.
pub open spec fn replay(q: Seq<Recorded>) -> IsrView
    decreases q.len(),
{
    if q.len() == 0 {
        IsrView::empty()
    } else {
        replay(q.drop_last()).record(q.last().step, q.last().p)
    }
}

/// Whether the steps in `q` start at 4 and never go back.
pub open spec fn in_order(q: Seq<Recorded>) -> bool {
    &&& forall|i: int| 0 <= i < q.len() ==> (#[trigger] q[i]).step >= 4
    &&& forall|i: int, j: int|
        0 <= i <= j < q.len() ==> (#[trigger] q[i]).step <= (#[trigger] q[j]).step
}

/// Whether `p` was accepted in step `s`.
pub open spec fn has(q: Seq<Recorded>, s: u32, p: ProposalView) -> bool {
    q.contains(Recorded { step: s, p })
}

/// Whether a step of at least `s` was reached.
pub open spec fn reached(q: Seq<Recorded>, s: u32) -> bool {
    q.len() > 0 && q.last().step >= s
}

/// The first proposal accepted in step `s`.
pub open spec fn first_at(q: Seq<Recorded>, s: u32) -> Option<ProposalView>
    decreases q.len(),
{
    if q.len() == 0 {
        None
    } else {
        match first_at(q.drop_last(), s) {
            Some(p) => Some(p),
            None => if q.last().step == s {
                Some(q.last().p)
            } else {
                None
            },
        }
    }
}

/// The largest proposal accepted in step `s`.
pub open spec fn max_at(q: Seq<Recorded>, s: u32) -> Option<ProposalView>
    decreases q.len(),
{
    if q.len() == 0 {
        None
    } else if q.last().step == s {
        Some(larger_opt(max_at(q.drop_last(), s), q.last().p))
    } else {
        max_at(q.drop_last(), s)
    }
}

/// Whether `b` continues `a`.
pub open spec fn continues<T>(a: Seq<T>, b: Seq<T>) -> bool {
    a.len() <= b.len() && b.take(a.len() as int) == a
}

pub proof fn lemma_has_push(q: Seq<Recorded>, e: Recorded, s: u32, p: ProposalView)
    ensures
        has(q.push(e), s, p) <==> has(q, s, p) || e == (Recorded { step: s, p }),
{
    vstd::seq_lib::lemma_seq_contains_after_push(q, e, Recorded { step: s, p });
}

/// The first and the largest proposal of a step were accepted in it, and
/// every accepted one is at most the largest.
pub proof fn lemma_extremes(q: Seq<Recorded>, s: u32)
    ensures
        first_at(q, s) matches Some(f) ==> has(q, s, f),
        max_at(q, s) matches Some(a) ==> has(q, s, a),
        forall|p: ProposalView| #[trigger]
            has(q, s, p) ==> first_at(q, s) is Some && max_at(q, s) is Some && p.le(
                max_at(q, s)->0,
            ),
    decreases q.len(),
{
    if q.len() > 0 {
        let init = q.drop_last();
        let e = q.last();
        lemma_extremes(init, s);
        assert(q =~= init.push(e));
        assert forall|p: ProposalView| #[trigger] has(q, s, p) implies first_at(q, s) is Some
            && max_at(q, s) is Some && p.le(max_at(q, s)->0) by {
            lemma_has_push(init, e, s, p);
            proposal_order_is_total(p, e.p, e.p);
            if let Some(a) = max_at(init, s) {
                proposal_order_is_total(p, a, e.p);
                proposal_order_is_total(a, e.p, p);
            }
        }
        if let Some(f) = first_at(q, s) {
            lemma_has_push(init, e, s, f);
        }
        if let Some(a) = max_at(q, s) {
            lemma_has_push(init, e, s, a);
        }
    } else {
        assert forall|p: ProposalView| #[trigger] has(q, s, p) implies false by {}
    }
}

/// Nothing was accepted in a step beyond the last.
pub proof fn lemma_nothing_beyond(q: Seq<Recorded>, s: u32)
    requires
        in_order(q),
        !reached(q, s),
    ensures
        first_at(q, s) is None,
        max_at(q, s) is None,
    decreases q.len(),
{
    if q.len() > 0 {
        let init = q.drop_last();
        assert(in_order(init)) by {
            assert forall|i: int, j: int| 0 <= i <= j < init.len() implies (#[trigger] init[i]).step
                <= (#[trigger] init[j]).step by {
                assert(q[i].step <= q[j].step);
            }
        }
        if init.len() > 0 {
            assert(q[init.len() - 1].step <= q[q.len() - 1].step);
        }
        lemma_nothing_beyond(init, s);
    }
}

/// What one more accepted proposal changes.
pub proof fn lemma_push(q: Seq<Recorded>, e: Recorded)
    requires
        in_order(q),
        e.step >= 4,
        q.len() > 0 ==> q.last().step <= e.step,
    ensures
        in_order(q.push(e)),
        forall|s: u32| #[trigger] first_at(q, s) is Some ==> first_at(q.push(e), s) == first_at(q, s),
        first_at(q.push(e), e.step) == Some(
            match first_at(q, e.step) {
                Some(f) => f,
                None => e.p,
            },
        ),
        forall|s: u32| s != e.step ==> #[trigger] max_at(q.push(e), s) == max_at(q, s),
        max_at(q.push(e), e.step) == Some(larger_opt(max_at(q, e.step), e.p)),
        has(q.push(e), e.step, e.p),
        reached(q.push(e), e.step),
        replay(q.push(e)) == replay(q).record(e.step, e.p),
{
    let r = q.push(e);
    assert(r.drop_last() =~= q);
    assert forall|i: int, j: int| 0 <= i <= j < r.len() implies (#[trigger] r[i]).step <= (
    #[trigger] r[j]).step by {
        if j < q.len() {
            assert(q[i].step <= q[j].step);
        } else if i < q.len() {
            assert(q[i].step <= q[q.len() - 1].step);
        }
    }
    lemma_has_push(q, e, e.step, e.p);
}

/// The register holds the step last reached, that step's first and largest
/// proposal, and the largest of the step before.
pub proof fn lemma_replay(q: Seq<Recorded>)
    requires
        in_order(q),
    ensures
        q.len() == 0 ==> replay(q) == IsrView::empty(),
        q.len() > 0 ==> {
            &&& replay(q).step == q.last().step
            &&& replay(q).first == first_at(q, q.last().step)
            &&& replay(q).current_agg == max_at(q, q.last().step)
            &&& replay(q).prior_agg == max_at(q, (q.last().step - 1) as u32)
            &&& replay(q).first is Some
        },
    decreases q.len(),
{
    if q.len() > 0 {
        let init = q.drop_last();
        let e = q.last();
        assert(q =~= init.push(e));
        assert(in_order(init)) by {
            assert forall|i: int, j: int| 0 <= i <= j < init.len() implies (#[trigger] init[i]).step
                <= (#[trigger] init[j]).step by {
                assert(q[i].step <= q[j].step);
            }
            assert forall|i: int| 0 <= i < init.len() implies (#[trigger] init[i]).step >= 4 by {
                assert(q[i].step >= 4);
            }
        }
        assert(q[q.len() - 1].step >= 4);
        if init.len() > 0 {
            assert(q[init.len() - 1].step <= q[q.len() - 1].step);
        }
        lemma_replay(init);
        lemma_push(init, e);
        if !reached(init, e.step) {
            lemma_nothing_beyond(init, e.step);
            if !reached(init, (e.step - 1) as u32) {
                lemma_nothing_beyond(init, (e.step - 1) as u32);
            }
        }
    }
}

/// What is settled of a recorder stays so as it accepts more.
pub proof fn lemma_continues(a: Seq<Recorded>, b: Seq<Recorded>)
    requires
        continues(a, b),
        in_order(b),
    ensures
        in_order(a),
        forall|s: u32, p: ProposalView| #[trigger] has(a, s, p) ==> has(b, s, p),
        forall|s: u32| #[trigger] reached(a, s) ==> reached(b, s),
        forall|s: u32| #[trigger] first_at(a, s) is Some ==> first_at(b, s) == first_at(a, s),
        forall|s: u32| reached(a, (s + 1) as u32) && s < u32::MAX ==> #[trigger] max_at(b, s)
            == max_at(a, s),
    decreases b.len(),
{
    if a.len() == b.len() {
        assert(a =~= b);
    } else {
        let init = b.drop_last();
        let e = b.last();
        assert(b =~= init.push(e));
        assert(init.take(a.len() as int) =~= b.take(a.len() as int));
        assert(in_order(init)) by {
            assert forall|i: int, j: int| 0 <= i <= j < init.len() implies (#[trigger] init[i]).step
                <= (#[trigger] init[j]).step by {
                assert(b[i].step <= b[j].step);
            }
            assert forall|i: int| 0 <= i < init.len() implies (#[trigger] init[i]).step >= 4 by {
                assert(b[i].step >= 4);
            }
        }
        lemma_continues(a, init);
        assert(b[b.len() - 1].step >= 4);
        if init.len() > 0 {
            assert(b[init.len() - 1].step <= b[b.len() - 1].step);
        }
        lemma_push(init, e);
        assert forall|s: u32, p: ProposalView| #[trigger] has(a, s, p) implies has(b, s, p) by {
            lemma_has_push(init, e, s, p);
        }
        assert forall|s: u32| reached(a, (s + 1) as u32) && s < u32::MAX implies
            #[trigger] max_at(b, s) == max_at(a, s) by {
            assert(reached(init, (s + 1) as u32));
            assert(e.step != s);
            assert(max_at(init, s) == max_at(a, s));
        }
    }
}

/// What happened in one slot.
#[verifier::ext_equal]
pub struct SlotHistory {
    /// The proposals that each recorder accepted.
    pub recorded: Seq<Seq<Recorded>>,
    /// The proposals, one for each recorder, that a proposer made in a step.
    pub proposed: Map<(int, u32), Seq<ProposalView>>,
}

/// Whether a proposal uses neither of the reserved numbers: priority 0 and
/// replica id 0.
pub open spec fn shaped(p: ProposalView) -> bool {
    p.priority != 0 && p.proposer.0 != 0
}

pub open spec fn well_shaped(offers: Seq<ProposalView>) -> bool {
    forall|m: int| 0 <= m < offers.len() ==> shaped(#[trigger] offers[m])
}

/// A majority of `n`.
pub open spec fn is_quorum(k: Seq<bool>, n: nat) -> bool {
    k.len() == n && set_count(k) >= n / 2 + 1
}

/// Two majorities have a member in common.
pub proof fn quorums_intersect(a: Seq<bool>, b: Seq<bool>, n: nat) -> (m: int)
    requires
        is_quorum(a, n),
        is_quorum(b, n),
    ensures
        0 <= m < n,
        a[m],
        b[m],
{
    lemma_common(a, b)
}

proof fn lemma_common(a: Seq<bool>, b: Seq<bool>) -> (m: int)
    requires
        a.len() == b.len(),
        set_count(a) + set_count(b) > a.len(),
    ensures
        0 <= m < a.len(),
        a[m],
        b[m],
    decreases a.len(),
{
    if a.last() && b.last() {
        a.len() - 1
    } else {
        let m = lemma_common(a.drop_last(), b.drop_last());
        m
    }
}

/// A majority has a member.
pub proof fn lemma_quorum_member(k: Seq<bool>, n: nat) -> (m: int)
    requires
        is_quorum(k, n),
    ensures
        0 <= m < n,
        k[m],
{
    quorums_intersect(k, k, n)
}

impl SlotHistory {
    pub open spec fn empty(n: nat) -> SlotHistory {
        SlotHistory { recorded: Seq::new(n, |m: int| Seq::empty()), proposed: Map::empty() }
    }

    pub open spec fn n(self) -> nat {
        self.recorded.len()
    }

    /// Whether proposer `j` made a proposal in step `s`.
    pub open spec fn made(self, j: int, s: u32) -> bool {
        self.proposed.contains_key((j, s))
    }

    /// What proposer `j` proposed to recorder `m` in step `s`.
    pub open spec fn offer(self, j: int, s: u32, m: int) -> ProposalView {
        self.proposed[(j, s)][m]
    }

    /// Whether proposer `j` proposed `p` to every recorder in step `s`.
    pub open spec fn uniform(self, j: int, s: u32, p: ProposalView) -> bool {
        forall|m: int| 0 <= m < self.n() ==> #[trigger] self.offer(j, s, m) == p
    }

    /// Round 1 phase 0: the leader proposes one proposal with the reserved
    /// priority, anyone else only lower ones.
    pub open spec fn opens(self, j: int) -> bool {
        &&& j == 0 ==> exists|p: ProposalView| #[trigger]
            self.uniform(j, 4, p) && p.priority == PRIORITY_H
        &&& j != 0 ==> forall|m: int|
            0 <= m < self.n() ==> (#[trigger] self.offer(j, 4, m)).priority < PRIORITY_H
    }

    /// The quorum `k` answered phase 3 in step `s`, and `b` is the best of
    /// its aggregates of phase 2.
    pub open spec fn carried(self, k: Seq<bool>, s: u32, b: ProposalView) -> bool {
        &&& is_quorum(k, self.n())
        &&& forall|m: int|
            0 <= m < self.n() && k[m] ==> reached(#[trigger] self.recorded[m], s)
        &&& forall|m: int|
            0 <= m < self.n() && k[m] ==> (max_at(#[trigger] self.recorded[m], (s - 1) as u32)
                matches Some(a) ==> a.le(b))
        &&& exists|m: int|
            0 <= m < self.n() && k[m] && max_at(#[trigger] self.recorded[m], (s - 1) as u32)
                == Some(b)
    }

    /// The quorum `k` answered phase 0 in step `s`, and `p` is the best of
    /// its first proposals.
    pub open spec fn won(self, k: Seq<bool>, s: u32, p: ProposalView) -> bool {
        &&& is_quorum(k, self.n())
        &&& forall|m: int|
            0 <= m < self.n() && k[m] ==> first_at(#[trigger] self.recorded[m], s) is Some
                && first_at(self.recorded[m], s)->0.le(p)
        &&& exists|m: int|
            0 <= m < self.n() && k[m] && first_at(#[trigger] self.recorded[m], s) == Some(p)
    }

    /// The quorum `k` accepted `p` in step `s`.
    pub open spec fn spread(self, k: Seq<bool>, s: u32, p: ProposalView) -> bool {
        &&& is_quorum(k, self.n())
        &&& forall|m: int| 0 <= m < self.n() && k[m] ==> has(#[trigger] self.recorded[m], s, p)
    }

    /// Phase 0 of a later round: below the reserved priority, with the value
    /// carried over from the round before.
    pub open spec fn reopens(self, j: int, s: u32) -> bool {
        &&& forall|m: int|
            0 <= m < self.n() ==> (#[trigger] self.offer(j, s, m)).priority < PRIORITY_H
        &&& exists|k: Seq<bool>, b: ProposalView| #[trigger]
            self.carried(k, (s - 1) as u32, b) && forall|m: int|
                0 <= m < self.n() ==> (#[trigger] self.offer(j, s, m)).value == b.value
    }

    /// Phase 1: the best first proposal of phase 0.
    pub open spec fn adopts(self, j: int, s: u32) -> bool {
        exists|k: Seq<bool>, p: ProposalView| #[trigger]
            self.won(k, (s - 1) as u32, p) && self.uniform(j, s, p)
    }

    /// Phase 2: a proposal that was spread in phase 1.
    pub open spec fn confirms(self, j: int, s: u32) -> bool {
        exists|k: Seq<bool>, p: ProposalView| #[trigger]
            self.spread(k, (s - 1) as u32, p) && self.uniform(j, s, p)
    }

    /// The quorum `k` answered in step `s`.
    pub open spec fn answered(self, k: Seq<bool>, s: u32) -> bool {
        &&& is_quorum(k, self.n())
        &&& forall|m: int|
            0 <= m < self.n() && k[m] ==> first_at(#[trigger] self.recorded[m], s) is Some
    }

    /// Phase 3: after a quorum answered phase 2.
    pub open spec fn gathers(self, s: u32) -> bool {
        exists|k: Seq<bool>| #[trigger] self.answered(k, (s - 1) as u32)
    }

    /// Why proposer `j` may propose what it does in step `s`.
    pub open spec fn justified(self, j: int, s: u32) -> bool {
        &&& s == 4 ==> self.opens(j)
        &&& s > 4 && s % 4 == 0 ==> self.reopens(j, s)
        &&& s % 4 == 1 ==> self.adopts(j, s)
        &&& s % 4 == 2 ==> self.confirms(j, s)
        &&& s % 4 == 3 ==> self.gathers(s)
    }

    /// Whether some proposer proposed `p` to recorder `m` in step `s`.
    pub open spec fn offered(self, m: int, s: u32, p: ProposalView) -> bool {
        exists|j: int| #[trigger] self.made(j, s) && self.offer(j, s, m) == p
    }

    /// What holds of every history that the protocol produces: recorders
    /// accept in step order, and only what was proposed to them; proposals
    /// are justified.
    pub open spec fn sound(self) -> bool {
        &&& forall|m: int| 0 <= m < self.n() ==> in_order(#[trigger] self.recorded[m])
        &&& forall|m: int, s: u32, p: ProposalView|
            0 <= m < self.n() && #[trigger] has(self.recorded[m], s, p) ==> self.offered(m, s, p)
        &&& forall|j: int, s: u32| #[trigger]
            self.made(j, s) ==> 0 <= j < self.n() && s >= 4 && self.proposed[(j, s)].len()
                == self.n() && self.justified(j, s) && well_shaped(self.proposed[(j, s)])
    }

    /// The value `v` is chosen on the fast path: a quorum saw the reserved
    /// priority first.
    pub open spec fn chosen_fast(self, k: Seq<bool>, v: Seq<u8>) -> bool {
        &&& is_quorum(k, self.n())
        &&& forall|m: int|
            0 <= m < self.n() && k[m] ==> (first_at(#[trigger] self.recorded[m], 4) matches Some(f)
                && f.priority == PRIORITY_H)
        &&& exists|m: int|
            0 <= m < self.n() && k[m] && (first_at(#[trigger] self.recorded[m], 4) matches Some(f)
                && f.value == v)
    }

    /// The value of `p` is chosen in phase 2 of step `s`: a quorum accepted
    /// `p`, having accepted nothing above it in phase 1.
    pub open spec fn chosen_slow(self, k: Seq<bool>, s: u32, p: ProposalView) -> bool {
        &&& s % 4 == 2
        &&& s >= 4
        &&& is_quorum(k, self.n())
        &&& forall|m: int| 0 <= m < self.n() && k[m] ==> has(#[trigger] self.recorded[m], s, p)
        &&& forall|m: int|
            0 <= m < self.n() && k[m] ==> (max_at(#[trigger] self.recorded[m], (s - 1) as u32)
                matches Some(a) ==> a.le(p))
    }

    /// The value `v` is chosen.
    pub open spec fn chosen(self, v: Seq<u8>) -> bool {
        ||| exists|k: Seq<bool>| #[trigger] self.chosen_fast(k, v)
        ||| exists|k: Seq<bool>, s: u32, p: ProposalView| #[trigger]
            self.chosen_slow(k, s, p) && p.value == v
    }

    /// Every proposal of step `s` carries the value `v`.
    pub open spec fn fixed(self, s: u32, v: Seq<u8>) -> bool {
        forall|j: int, m: int|
            self.made(j, s) && 0 <= m < self.n() ==> (#[trigger] self.offer(j, s, m)).value == v
    }

    /// What a recorder accepted in a step whose proposals all carry `v`
    /// carries `v`.
    proof fn lemma_accepted_value(self, m: int, s: u32, p: ProposalView, v: Seq<u8>)
        requires
            self.sound(),
            0 <= m < self.n(),
            has(self.recorded[m], s, p),
            self.fixed(s, v),
        ensures
            p.value == v,
    {
        assert(self.offered(m, s, p));
        let j = choose|j: int| #[trigger] self.made(j, s) && self.offer(j, s, m) == p;
        assert(self.offer(j, s, m).value == v);
    }

    /// Once every proposal of a step of phase 0 or 1 carries `v`, every later
    /// one outside of phase 3 does.
    proof fn lemma_stays_fixed(self, t: u32, s: u32, v: Seq<u8>)
        requires
            self.sound(),
            self.fixed(t, v),
            4 <= t <= s,
            t % 4 == 0 || t % 4 == 1,
            s % 4 != 3,
        ensures
            self.fixed(s, v),
        decreases s,
    {
        if s > t {
            let before: u32 = if s % 4 == 0 {
                (s - 2) as u32
            } else {
                (s - 1) as u32
            };
            self.lemma_stays_fixed(t, before, v);
            assert forall|j: int, m: int| self.made(j, s) && 0 <= m < self.n() implies (
            #[trigger] self.offer(j, s, m)).value == v by {
                assert(self.justified(j, s));
                if s % 4 == 0 {
                    let (k, b) = choose|k: Seq<bool>, b: ProposalView| #[trigger]
                        self.carried(k, (s - 1) as u32, b) && forall|m: int|
                            0 <= m < self.n() ==> (#[trigger] self.offer(j, s, m)).value
                                == b.value;
                    let x = choose|x: int|
                        0 <= x < self.n() && k[x] && max_at(
                            #[trigger] self.recorded[x],
                            (s - 1 - 1) as u32,
                        ) == Some(b);
                    lemma_extremes(self.recorded[x], before);
                    self.lemma_accepted_value(x, before, b, v);
                } else if s % 4 == 1 {
                    let (k, p) = choose|k: Seq<bool>, p: ProposalView| #[trigger]
                        self.won(k, (s - 1) as u32, p) && self.uniform(j, s, p);
                    let x = choose|x: int|
                        0 <= x < self.n() && k[x] && first_at(
                            #[trigger] self.recorded[x],
                            (s - 1) as u32,
                        ) == Some(p);
                    lemma_extremes(self.recorded[x], before);
                    self.lemma_accepted_value(x, before, p, v);
                } else {
                    let (k, p) = choose|k: Seq<bool>, p: ProposalView| #[trigger]
                        self.spread(k, (s - 1) as u32, p) && self.uniform(j, s, p);
                    let x = lemma_quorum_member(k, self.n());
                    assert(has(self.recorded[x], before, p));
                    self.lemma_accepted_value(x, before, p, v);
                }
            }
        }
    }

    /// Everything proposed in the phase-2 step of a slow decision is at most
    /// the decided proposal.
    proof fn lemma_slow_is_highest(
        self,
        k: Seq<bool>,
        s: u32,
        p: ProposalView,
        m: int,
        other: ProposalView,
    )
        requires
            self.sound(),
            self.chosen_slow(k, s, p),
            0 <= m < self.n(),
            has(self.recorded[m], s, other),
        ensures
            other.le(p),
    {
        assert(self.offered(m, s, other));
        let j = choose|j: int| #[trigger] self.made(j, s) && self.offer(j, s, m) == other;
        assert(self.justified(j, s));
        let (k2, p2) = choose|k2: Seq<bool>, p2: ProposalView| #[trigger]
            self.spread(k2, (s - 1) as u32, p2) && self.uniform(j, s, p2);
        assert(self.offer(j, s, m) == p2);
        let x = quorums_intersect(k, k2, self.n());
        assert(has(self.recorded[x], (s - 1) as u32, other));
        lemma_extremes(self.recorded[x], (s - 1) as u32);
        let a = max_at(self.recorded[x], (s - 1) as u32)->0;
        proposal_order_is_total(other, a, p);
    }

    /// A slow decision fixes the value of the next round.
    proof fn lemma_slow_fixes(self, k: Seq<bool>, s: u32, p: ProposalView)
        requires
            self.sound(),
            self.chosen_slow(k, s, p),
            s + 2 <= u32::MAX,
        ensures
            self.fixed((s + 2) as u32, p.value),
    {
        let t = (s + 2) as u32;
        assert forall|j: int, m: int| self.made(j, t) && 0 <= m < self.n() implies (
        #[trigger] self.offer(j, t, m)).value == p.value by {
            assert(self.justified(j, t));
            let (k3, b) = choose|k3: Seq<bool>, b: ProposalView| #[trigger]
                self.carried(k3, (t - 1) as u32, b) && forall|m: int|
                    0 <= m < self.n() ==> (#[trigger] self.offer(j, t, m)).value == b.value;
            let x = quorums_intersect(k, k3, self.n());
            assert(has(self.recorded[x], s, p));
            lemma_extremes(self.recorded[x], s);
            let a = max_at(self.recorded[x], s)->0;
            assert((t - 1 - 1) as u32 == s);
            assert(max_at(self.recorded[x], (t - 1 - 1) as u32) == Some(a));
            let y = choose|y: int|
                0 <= y < self.n() && k3[y] && max_at(
                    #[trigger] self.recorded[y],
                    (t - 1 - 1) as u32,
                ) == Some(b);
            lemma_extremes(self.recorded[y], s);
            self.lemma_slow_is_highest(k, s, p, y, b);
            proposal_order_is_total(p, a, b);
            proposal_order_is_total(p, b, p);
        }
    }

    /// Only the leader's proposal has the reserved priority in round 1.
    proof fn lemma_reserved(self, m: int, p: ProposalView) -> (l: ProposalView)
        requires
            self.sound(),
            0 <= m < self.n(),
            has(self.recorded[m], 4, p),
            p.priority == PRIORITY_H,
        ensures
            self.made(0, 4),
            self.uniform(0, 4, l),
            p == l,
    {
        assert(self.offered(m, 4, p));
        let j = choose|j: int| #[trigger] self.made(j, 4) && self.offer(j, 4, m) == p;
        assert(self.justified(j, 4));
        assert(self.opens(j));
        if j != 0 {
            assert(self.offer(j, 4, m).priority < PRIORITY_H);
        }
        let l = choose|l: ProposalView| #[trigger]
            self.uniform(j, 4, l) && l.priority == PRIORITY_H;
        assert(self.offer(j, 4, m) == l);
        l
    }

    /// A fast decision fixes the value of phase 1.
    proof fn lemma_fast_fixes(self, k: Seq<bool>, v: Seq<u8>)
        requires
            self.sound(),
            self.chosen_fast(k, v),
        ensures
            self.fixed(5, v),
    {
        let w = choose|w: int|
            0 <= w < self.n() && k[w] && (first_at(#[trigger] self.recorded[w], 4) matches Some(f)
                && f.value == v);
        lemma_extremes(self.recorded[w], 4);
        let l = self.lemma_reserved(w, first_at(self.recorded[w], 4)->0);
        assert forall|j: int, m: int| self.made(j, 5) && 0 <= m < self.n() implies (
        #[trigger] self.offer(j, 5, m)).value == v by {
            assert(self.justified(j, 5));
            let (k1, p) = choose|k1: Seq<bool>, p: ProposalView| #[trigger]
                self.won(k1, 4, p) && self.uniform(j, 5, p);
            let x = quorums_intersect(k, k1, self.n());
            let f = first_at(self.recorded[x], 4)->0;
            assert(f.priority == PRIORITY_H);
            assert(f.le(p));
            assert(p.priority == PRIORITY_H);
            let y = choose|y: int|
                0 <= y < self.n() && k1[y] && first_at(#[trigger] self.recorded[y], 4) == Some(p);
            lemma_extremes(self.recorded[y], 4);
            let l2 = self.lemma_reserved(y, p);
            assert(self.offer(0, 4, 0) == l);
            assert(self.offer(0, 4, 0) == l2);
        }
    }

    /// A fast decision and any other decide the same.
    proof fn lemma_fast_agrees(self, k: Seq<bool>, v: Seq<u8>, other: Seq<u8>)
        requires
            self.sound(),
            self.chosen_fast(k, v),
            self.chosen(other),
        ensures
            v == other,
    {
        if exists|k2: Seq<bool>| #[trigger] self.chosen_fast(k2, other) {
            let k2 = choose|k2: Seq<bool>| #[trigger] self.chosen_fast(k2, other);
            let w = choose|w: int|
                0 <= w < self.n() && k[w] && (first_at(#[trigger] self.recorded[w], 4) matches Some(
                    f,
                ) && f.value == v);
            let w2 = choose|w2: int|
                0 <= w2 < self.n() && k2[w2] && (first_at(#[trigger] self.recorded[w2], 4)
                    matches Some(f) && f.value == other);
            lemma_extremes(self.recorded[w], 4);
            lemma_extremes(self.recorded[w2], 4);
            let l = self.lemma_reserved(w, first_at(self.recorded[w], 4)->0);
            let l2 = self.lemma_reserved(w2, first_at(self.recorded[w2], 4)->0);
            assert(self.offer(0, 4, 0) == l);
            assert(self.offer(0, 4, 0) == l2);
        } else {
            let (k2, s, p) = choose|k2: Seq<bool>, s: u32, p: ProposalView| #[trigger]
                self.chosen_slow(k2, s, p) && p.value == other;
            self.lemma_fast_fixes(k, v);
            self.lemma_stays_fixed(5, s, v);
            let x = lemma_quorum_member(k2, self.n());
            assert(has(self.recorded[x], s, p));
            self.lemma_accepted_value(x, s, p, v);
        }
    }

    /// Of two slow decisions, the later decides what the earlier did.
    proof fn lemma_slow_agrees(
        self,
        k1: Seq<bool>,
        s1: u32,
        p1: ProposalView,
        k2: Seq<bool>,
        s2: u32,
        p2: ProposalView,
    )
        requires
            self.sound(),
            self.chosen_slow(k1, s1, p1),
            self.chosen_slow(k2, s2, p2),
            s1 <= s2,
        ensures
            p1.value == p2.value,
    {
        let x = lemma_quorum_member(k1, self.n());
        let y = lemma_quorum_member(k2, self.n());
        assert(has(self.recorded[x], s1, p1));
        assert(has(self.recorded[y], s2, p2));
        if s1 == s2 {
            self.lemma_slow_is_highest(k1, s1, p1, y, p2);
            self.lemma_slow_is_highest(k2, s2, p2, x, p1);
            proposal_order_is_total(p1, p2, p1);
        } else {
            self.lemma_slow_fixes(k1, s1, p1);
            self.lemma_stays_fixed((s1 + 2) as u32, s2, p1.value);
            self.lemma_accepted_value(y, s2, p2, p1.value);
        }
    }

    /// At most one value is chosen for a slot.
    pub proof fn at_most_one_value_is_chosen(self, v: Seq<u8>, w: Seq<u8>)
        requires
            self.sound(),
            self.chosen(v),
            self.chosen(w),
        ensures
            v == w,
    {
        if exists|k: Seq<bool>| #[trigger] self.chosen_fast(k, v) {
            let k = choose|k: Seq<bool>| #[trigger] self.chosen_fast(k, v);
            self.lemma_fast_agrees(k, v, w);
        } else if exists|k: Seq<bool>| #[trigger] self.chosen_fast(k, w) {
            let k = choose|k: Seq<bool>| #[trigger] self.chosen_fast(k, w);
            self.lemma_fast_agrees(k, w, v);
        } else {
            let (k1, s1, p1) = choose|k: Seq<bool>, s: u32, p: ProposalView| #[trigger]
                self.chosen_slow(k, s, p) && p.value == v;
            let (k2, s2, p2) = choose|k: Seq<bool>, s: u32, p: ProposalView| #[trigger]
                self.chosen_slow(k, s, p) && p.value == w;
            if s1 <= s2 {
                self.lemma_slow_agrees(k1, s1, p1, k2, s2, p2);
            } else {
                self.lemma_slow_agrees(k2, s2, p2, k1, s1, p1);
            }
        }
    }
}

} // verus!
