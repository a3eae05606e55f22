//! How the steps of one replica extend the history of a slot, and what its
//! recorder and proposer know of that history.

use vstd::prelude::*;

use crate::history::{
    continues, first_at, has, in_order, is_quorum, lemma_continues, lemma_extremes, lemma_has_push,
    lemma_push, lemma_replay, max_at, reached, replay, shaped, well_shaped, Recorded, SlotHistory,
};
use crate::proposer::{
    lemma_drawn, lemma_none_set, lemma_set_count_update, FoldedView, Member, OutcomeView,
    ProposerView, RunView,
};
use crate::recorder::RecorderView;
use crate::rng::Rng;
use crate::slot::{ProgressView, SlotView};
use crate::types::{proposal_order_is_total, ProposalView, Slot, PRIORITY_H};
use crate::wire::{PayloadView, ReplyFirstView};

verus! {

impl SlotHistory {
    /// Whether `b` is a continuation of this history.
    pub open spec fn leads_to(self, b: SlotHistory) -> bool {
        &&& self.n() == b.n()
        &&& forall|m: int|
            0 <= m < self.n() ==> continues(#[trigger] self.recorded[m], b.recorded[m])
        &&& forall|j: int, s: u32| #[trigger]
            self.made(j, s) ==> b.made(j, s) && b.proposed[(j, s)] == self.proposed[(j, s)]
    }

    /// Whether `b` is a continuation of this history by replica `i` alone.
    pub open spec fn grew(self, b: SlotHistory, i: int) -> bool {
        &&& self.leads_to(b)
        &&& forall|m: int|
            0 <= m < self.n() && m != i ==> b.recorded[m] == #[trigger] self.recorded[m]
        &&& forall|j: int, s: u32| j != i && #[trigger] b.made(j, s) ==> self.made(j, s)
    }

    pub proof fn lemma_grew_refl(self, i: int)
        ensures
            self.grew(self, i),
    {
        assert forall|m: int| 0 <= m < self.n() implies continues(
            #[trigger] self.recorded[m],
            self.recorded[m],
        ) by {
            assert(self.recorded[m].take(self.recorded[m].len() as int) =~= self.recorded[m]);
        }
    }

    pub proof fn lemma_grew_trans(self, b: SlotHistory, c: SlotHistory, i: int)
        requires
            self.grew(b, i),
            b.grew(c, i),
        ensures
            self.grew(c, i),
    {
        assert forall|m: int| 0 <= m < self.n() implies continues(
            #[trigger] self.recorded[m],
            c.recorded[m],
        ) by {
            let x = self.recorded[m];
            let y = b.recorded[m];
            let z = c.recorded[m];
            assert(continues(x, y));
            assert(continues(y, z));
            assert(z.take(x.len() as int) =~= y.take(x.len() as int));
        }
        assert forall|j: int, s: u32| #[trigger] self.made(j, s) implies c.made(j, s)
            && c.proposed[(j, s)] == self.proposed[(j, s)] by {
            assert(b.made(j, s));
        }
        assert forall|m: int| 0 <= m < self.n() && m != i implies c.recorded[m]
            == #[trigger] self.recorded[m] by {
            assert(b.recorded[m] == self.recorded[m]);
        }
        assert forall|j: int, s: u32| j != i && #[trigger] c.made(j, s) implies self.made(j, s) by {
            assert(b.made(j, s));
        }
    }

    /// Whether some proposal carries the value `v`.
    pub open spec fn has_value(self, v: Seq<u8>) -> bool {
        exists|j: int, s: u32, m: int|
            self.made(j, s) && 0 <= m < self.n() && (#[trigger] self.offer(j, s, m)).value == v
    }

    /// Whether the proposals of `b` carry no other value than those of this
    /// history.
    pub open spec fn covers(self, b: SlotHistory) -> bool {
        forall|v: Seq<u8>| #[trigger] b.has_value(v) ==> self.has_value(v)
    }

    pub proof fn lemma_accepted_has_value(self, m: int, s: u32, p: ProposalView)
        requires
            self.sound(),
            0 <= m < self.n(),
            has(self.recorded[m], s, p),
        ensures
            self.has_value(p.value),
            shaped(p),
    {
        assert(self.offered(m, s, p));
        let j = choose|j: int| #[trigger] self.made(j, s) && self.offer(j, s, m) == p;
        assert(self.offer(j, s, m).value == p.value);
        assert(shaped(self.proposed[(j, s)][m]));
    }

    /// A chosen value was proposed.
    pub proof fn chosen_values_were_proposed(self, v: Seq<u8>)
        requires
            self.sound(),
            self.chosen(v),
        ensures
            self.has_value(v),
    {
        if exists|k: Seq<bool>| #[trigger] self.chosen_fast(k, v) {
            let k = choose|k: Seq<bool>| #[trigger] self.chosen_fast(k, v);
            let w = choose|w: int|
                0 <= w < self.n() && k[w] && (first_at(#[trigger] self.recorded[w], 4) matches Some(
                    f,
                ) && f.value == v);
            lemma_extremes(self.recorded[w], 4);
            self.lemma_accepted_has_value(w, 4, first_at(self.recorded[w], 4)->0);
        } else {
            let (k, s, p) = choose|k: Seq<bool>, s: u32, p: ProposalView| #[trigger]
                self.chosen_slow(k, s, p) && p.value == v;
            let x = crate::history::lemma_quorum_member(k, self.n());
            assert(has(self.recorded[x], s, p));
            self.lemma_accepted_has_value(x, s, p);
        }
    }

    /// A new proposal adds at most its own value.
    proof fn lemma_proposal_values(self, i: int, s: u32, offers: Seq<ProposalView>, v: Seq<u8>)
        requires
            offers.len() == self.n(),
            !self.made(i, s),
            forall|m: int| 0 <= m < self.n() ==> (#[trigger] offers[m]).value == v,
        ensures
            forall|w: Seq<u8>| #[trigger]
                self.with_proposal(i, s, offers).has_value(w) ==> self.has_value(w) || w == v,
    {
        let b = self.with_proposal(i, s, offers);
        assert forall|w: Seq<u8>| #[trigger] b.has_value(w) implies self.has_value(w) || w == v by {
            let (j, t, m) = choose|j: int, t: u32, m: int|
                b.made(j, t) && 0 <= m < b.n() && (#[trigger] b.offer(j, t, m)).value == w;
            if !(j == i && t == s) {
                assert(self.made(j, t));
                assert(self.offer(j, t, m).value == w);
            } else {
                assert(b.offer(j, t, m) == offers[m]);
            }
        }
    }

    /// Every recorder accepted in step order.
    pub open spec fn ordered(self) -> bool {
        forall|m: int| 0 <= m < self.n() ==> in_order(#[trigger] self.recorded[m])
    }

    proof fn lemma_carried_persists(
        self,
        b: SlotHistory,
        k: Seq<bool>,
        s: u32,
        p: ProposalView,
    )
        requires
            self.leads_to(b),
            b.ordered(),
            self.carried(k, s, p),
            s >= 1,
        ensures
            b.carried(k, s, p),
    {
        let t = (s - 1) as u32;
        assert forall|m: int| 0 <= m < b.n() && k[m] implies reached(#[trigger] b.recorded[m], s)
            && max_at(b.recorded[m], t) == max_at(self.recorded[m], t) by {
            lemma_continues(self.recorded[m], b.recorded[m]);
            assert(reached(self.recorded[m], s));
            assert((t + 1) as u32 == s);
        }
        assert forall|m: int| 0 <= m < b.n() && k[m] implies (max_at(
            #[trigger] b.recorded[m],
            t,
        ) matches Some(a) ==> a.le(p)) by {
            assert(max_at(b.recorded[m], t) == max_at(self.recorded[m], t));
            assert(reached(self.recorded[m], s));
        }
        let w = choose|w: int|
            0 <= w < self.n() && k[w] && max_at(#[trigger] self.recorded[w], t) == Some(p);
        assert(max_at(b.recorded[w], t) == Some(p));
    }

    proof fn lemma_won_persists(self, b: SlotHistory, k: Seq<bool>, s: u32, p: ProposalView)
        requires
            self.leads_to(b),
            b.ordered(),
            self.won(k, s, p),
        ensures
            b.won(k, s, p),
    {
        assert forall|m: int| 0 <= m < b.n() && k[m] implies first_at(
            #[trigger] b.recorded[m],
            s,
        ) == first_at(self.recorded[m], s) by {
            lemma_continues(self.recorded[m], b.recorded[m]);
            assert(first_at(self.recorded[m], s) is Some);
        }
        let w = choose|w: int|
            0 <= w < self.n() && k[w] && first_at(#[trigger] self.recorded[w], s) == Some(p);
        assert(first_at(b.recorded[w], s) == Some(p));
        assert forall|m: int| 0 <= m < b.n() && k[m] implies first_at(
            #[trigger] b.recorded[m],
            s,
        ) is Some && first_at(b.recorded[m], s)->0.le(p) by {
            assert(first_at(self.recorded[m], s) is Some);
        }
    }

    proof fn lemma_spread_persists(self, b: SlotHistory, k: Seq<bool>, s: u32, p: ProposalView)
        requires
            self.leads_to(b),
            b.ordered(),
            self.spread(k, s, p),
        ensures
            b.spread(k, s, p),
    {
        assert forall|m: int| 0 <= m < b.n() && k[m] implies has(
            #[trigger] b.recorded[m],
            s,
            p,
        ) by {
            lemma_continues(self.recorded[m], b.recorded[m]);
            assert(has(self.recorded[m], s, p));
        }
    }

    proof fn lemma_answered_persists(self, b: SlotHistory, k: Seq<bool>, s: u32)
        requires
            self.leads_to(b),
            b.ordered(),
            self.answered(k, s),
        ensures
            b.answered(k, s),
    {
        assert forall|m: int| 0 <= m < b.n() && k[m] implies first_at(
            #[trigger] b.recorded[m],
            s,
        ) is Some by {
            lemma_continues(self.recorded[m], b.recorded[m]);
            assert(first_at(self.recorded[m], s) is Some);
        }
    }

    proof fn lemma_uniform_persists(self, b: SlotHistory, j: int, s: u32, p: ProposalView)
        requires
            self.leads_to(b),
            self.made(j, s),
            self.uniform(j, s, p),
        ensures
            b.uniform(j, s, p),
    {
        assert forall|m: int| 0 <= m < b.n() implies #[trigger] b.offer(j, s, m) == p by {
            assert(self.offer(j, s, m) == p);
        }
    }

    /// A justified proposal stays justified.
    proof fn lemma_justified_persists(self, b: SlotHistory, j: int, s: u32)
        requires
            self.leads_to(b),
            b.ordered(),
            self.made(j, s),
            self.justified(j, s),
            s >= 4,
        ensures
            b.justified(j, s),
    {
        assert forall|m: int| 0 <= m < b.n() implies #[trigger] b.offer(j, s, m) == self.offer(
            j,
            s,
            m,
        ) by {}
        if s == 4 {
            if j == 0 {
                let p = choose|p: ProposalView| #[trigger]
                    self.uniform(j, 4, p) && p.priority == PRIORITY_H;
                self.lemma_uniform_persists(b, j, 4, p);
            }
        } else if s % 4 == 0 {
            let (k, p) = choose|k: Seq<bool>, p: ProposalView| #[trigger]
                self.carried(k, (s - 1) as u32, p) && forall|m: int|
                    0 <= m < self.n() ==> (#[trigger] self.offer(j, s, m)).value == p.value;
            self.lemma_carried_persists(b, k, (s - 1) as u32, p);
        } else if s % 4 == 1 {
            let (k, p) = choose|k: Seq<bool>, p: ProposalView| #[trigger]
                self.won(k, (s - 1) as u32, p) && self.uniform(j, s, p);
            self.lemma_won_persists(b, k, (s - 1) as u32, p);
            self.lemma_uniform_persists(b, j, s, p);
        } else if s % 4 == 2 {
            let (k, p) = choose|k: Seq<bool>, p: ProposalView| #[trigger]
                self.spread(k, (s - 1) as u32, p) && self.uniform(j, s, p);
            self.lemma_spread_persists(b, k, (s - 1) as u32, p);
            self.lemma_uniform_persists(b, j, s, p);
        } else {
            let k = choose|k: Seq<bool>| #[trigger] self.answered(k, (s - 1) as u32);
            self.lemma_answered_persists(b, k, (s - 1) as u32);
        }
    }

    /// A chosen value stays chosen.
    pub proof fn lemma_chosen_persists(self, b: SlotHistory, v: Seq<u8>)
        requires
            self.leads_to(b),
            b.ordered(),
            self.chosen(v),
        ensures
            b.chosen(v),
    {
        if exists|k: Seq<bool>| #[trigger] self.chosen_fast(k, v) {
            let k = choose|k: Seq<bool>| #[trigger] self.chosen_fast(k, v);
            assert forall|m: int| 0 <= m < b.n() && k[m] implies first_at(
                #[trigger] b.recorded[m],
                4,
            ) == first_at(self.recorded[m], 4) by {
                lemma_continues(self.recorded[m], b.recorded[m]);
                assert(first_at(self.recorded[m], 4) is Some);
            }
            let w = choose|w: int|
                0 <= w < self.n() && k[w] && (first_at(#[trigger] self.recorded[w], 4) matches Some(
                    f,
                ) && f.value == v);
            assert(first_at(b.recorded[w], 4) == first_at(self.recorded[w], 4));
            assert forall|m: int| 0 <= m < b.n() && k[m] implies (first_at(
                #[trigger] b.recorded[m],
                4,
            ) matches Some(f) && f.priority == PRIORITY_H) by {
                assert(first_at(self.recorded[m], 4) is Some);
            }
            assert(b.chosen_fast(k, v));
        } else {
            let (k, s, p) = choose|k: Seq<bool>, s: u32, p: ProposalView| #[trigger]
                self.chosen_slow(k, s, p) && p.value == v;
            let t = (s - 1) as u32;
            assert forall|m: int| 0 <= m < b.n() && k[m] implies has(#[trigger] b.recorded[m], s, p)
                && (max_at(b.recorded[m], t) matches Some(a) ==> a.le(p)) by {
                let q = self.recorded[m];
                lemma_continues(q, b.recorded[m]);
                assert(has(q, s, p));
                let x = choose|x: int| 0 <= x < q.len() && q[x] == (Recorded { step: s, p });
                assert(in_order(q));
                assert(q[x].step <= q[q.len() - 1].step);
                assert(reached(q, s));
                assert((t + 1) as u32 == s);
                assert(max_at(b.recorded[m], t) == max_at(q, t));
                assert(max_at(self.recorded[m], t) matches Some(a) ==> a.le(p));
            }
            assert(b.chosen_slow(k, s, p));
        }
    }

    // ---- the two ways in which a history grows ----

    /// Recorder `m` accepts a proposal.
    pub open spec fn with_record(self, m: int, e: Recorded) -> SlotHistory {
        SlotHistory { recorded: self.recorded.update(m, self.recorded[m].push(e)), ..self }
    }

    /// Proposer `i` makes a proposal.
    pub open spec fn with_proposal(self, i: int, s: u32, offers: Seq<ProposalView>) -> SlotHistory {
        SlotHistory { proposed: self.proposed.insert((i, s), offers), ..self }
    }

    pub proof fn lemma_with_record(self, m: int, e: Recorded)
        requires
            self.sound(),
            0 <= m < self.n(),
            self.offered(m, e.step, e.p),
            self.recorded[m].len() > 0 ==> self.recorded[m].last().step <= e.step,
        ensures
            self.with_record(m, e).sound(),
            self.grew(self.with_record(m, e), m),
    {
        let b = self.with_record(m, e);
        let j0 = choose|j: int| #[trigger] self.made(j, e.step) && self.offer(j, e.step, m) == e.p;
        assert(e.step >= 4);
        lemma_push(self.recorded[m], e);
        assert(b.ordered());
        assert forall|x: int| 0 <= x < self.n() implies continues(
            #[trigger] self.recorded[x],
            b.recorded[x],
        ) by {
            assert(b.recorded[x].take(self.recorded[x].len() as int) =~= self.recorded[x]);
        }
        assert(self.leads_to(b));
        assert forall|x: int, s: u32, p: ProposalView|
            0 <= x < b.n() && #[trigger] has(b.recorded[x], s, p) implies b.offered(x, s, p) by {
            if x == m {
                lemma_has_push(self.recorded[m], e, s, p);
            }
            if has(self.recorded[x], s, p) {
                assert(self.offered(x, s, p));
                let j = choose|j: int| #[trigger] self.made(j, s) && self.offer(j, s, x) == p;
                assert(b.made(j, s) && b.offer(j, s, x) == p);
            } else {
                assert(b.made(j0, s) && b.offer(j0, s, x) == p);
            }
        }
        assert forall|j: int, s: u32| #[trigger] b.made(j, s) implies 0 <= j < b.n() && s >= 4
            && b.proposed[(j, s)].len() == b.n() && b.justified(j, s) && well_shaped(
            b.proposed[(j, s)],
        ) by {
            assert(self.made(j, s));
            self.lemma_justified_persists(b, j, s);
        }
        assert forall|j: int, s: u32| j != m && #[trigger] b.made(j, s) implies self.made(
            j,
            s,
        ) by {}
    }

    pub proof fn lemma_with_proposal(self, i: int, s: u32, offers: Seq<ProposalView>)
        requires
            self.sound(),
            0 <= i < self.n(),
            s >= 4,
            offers.len() == self.n(),
            well_shaped(offers),
            !self.made(i, s),
            self.with_proposal(i, s, offers).justified(i, s),
        ensures
            self.with_proposal(i, s, offers).sound(),
            self.grew(self.with_proposal(i, s, offers), i),
    {
        let b = self.with_proposal(i, s, offers);
        assert(b.ordered());
        assert forall|x: int| 0 <= x < self.n() implies continues(
            #[trigger] self.recorded[x],
            b.recorded[x],
        ) by {
            assert(b.recorded[x].take(self.recorded[x].len() as int) =~= self.recorded[x]);
        }
        assert forall|j: int, t: u32| #[trigger] self.made(j, t) implies b.made(j, t)
            && b.proposed[(j, t)] == self.proposed[(j, t)] by {}
        assert(self.leads_to(b));
        assert forall|x: int, t: u32, p: ProposalView|
            0 <= x < b.n() && #[trigger] has(b.recorded[x], t, p) implies b.offered(x, t, p) by {
            assert(has(self.recorded[x], t, p));
            assert(self.offered(x, t, p));
            let j = choose|j: int| #[trigger] self.made(j, t) && self.offer(j, t, x) == p;
            assert(b.made(j, t) && b.offer(j, t, x) == p);
        }
        assert forall|j: int, t: u32| #[trigger] b.made(j, t) implies 0 <= j < b.n() && t >= 4
            && b.proposed[(j, t)].len() == b.n() && b.justified(j, t) && well_shaped(
            b.proposed[(j, t)],
        ) by {
            if !(j == i && t == s) {
                assert(self.made(j, t));
                self.lemma_justified_persists(b, j, t);
            }
        }
        assert forall|j: int, t: u32| j != i && #[trigger] b.made(j, t) implies self.made(
            j,
            t,
        ) by {}
    }

    // ---- what a proposer knows ----

    /// Proposer `i` has not proposed anything.
    pub open spec fn untouched(self, i: int) -> bool {
        forall|s: u32| !#[trigger] self.made(i, s)
    }

    /// The running proposer `i` is in the latest step that it proposed in,
    /// and its tally of that step is right.
    pub open spec fn tallies(self, i: int, run: RunView) -> bool {
        &&& run.wf(self.n())
        &&& self.made(i, run.step)
        &&& forall|m: int|
            0 <= m < self.n() ==> #[trigger] self.offer(i, run.step, m) == run.proposal_for(m)
        &&& forall|s: u32| s > run.step ==> !#[trigger] self.made(i, s)
        &&& run.priorities.len() > 0 ==> run.step % 4 == 0
        &&& forall|m: int|
            0 <= m < self.n() && run.replied[m] ==> has(
                #[trigger] self.recorded[m],
                run.step,
                self.offer(i, run.step, m),
            )
        &&& self.tallies_first(run)
        &&& self.tallies_agg(run)
    }

    pub open spec fn tallies_first(self, run: RunView) -> bool {
        &&& forall|m: int|
            0 <= m < self.n() && run.replied[m] ==> {
                let first = first_at(#[trigger] self.recorded[m], run.step);
                &&& first is Some
                &&& run.best_first is Some
                &&& first->0.le(run.best_first->0)
                &&& run.all_first_high ==> first->0.priority == PRIORITY_H
            }
        &&& run.best_first is Some ==> exists|m: int|
            0 <= m < self.n() && run.replied[m] && first_at(#[trigger] self.recorded[m], run.step)
                == run.best_first
    }

    pub open spec fn tallies_agg(self, run: RunView) -> bool {
        &&& forall|m: int|
            0 <= m < self.n() && run.replied[m] ==> (max_at(
                #[trigger] self.recorded[m],
                (run.step - 1) as u32,
            ) matches Some(a) ==> run.best_agg is Some && a.le(run.best_agg->0))
        &&& run.best_agg is Some ==> exists|m: int|
            0 <= m < self.n() && run.replied[m] && max_at(
                #[trigger] self.recorded[m],
                (run.step - 1) as u32,
            ) == run.best_agg
    }

    /// What recorder `m` answers proposer `i` is true of the history.
    pub open spec fn answer_ok(
        self,
        i: int,
        m: int,
        req_step: u32,
        reply_step: u32,
        first: ProposalView,
        prior_agg: Option<ProposalView>,
    ) -> bool {
        &&& reply_step >= 4
        &&& reached(self.recorded[m], reply_step)
        &&& first_at(self.recorded[m], reply_step) == Some(first)
        &&& max_at(self.recorded[m], (reply_step - 1) as u32) == prior_agg
        &&& req_step == reply_step ==> self.made(i, req_step) && has(
            self.recorded[m],
            req_step,
            self.offer(i, req_step, m),
        )
    }

    /// Counting a true answer keeps the tally right.
    pub proof fn lemma_folded(
        self,
        i: int,
        run: RunView,
        m: int,
        req_step: u32,
        reply_step: u32,
        first: ProposalView,
        prior_agg: Option<ProposalView>,
    )
        requires
            self.tallies(i, run),
            0 <= m < self.n(),
            self.answer_ok(i, m, req_step, reply_step, first, prior_agg),
        ensures
            self.tallies(i, run.folded(m, req_step, reply_step, first, prior_agg)),
    {
        if run.counts(m, req_step, reply_step) {
            let after = run.folded(m, req_step, reply_step, first, prior_agg);
            lemma_set_count_update(run.replied, m);
            assert(after.wf(self.n()));
            assert forall|x: int| 0 <= x < self.n() implies #[trigger] self.offer(i, after.step, x)
                == after.proposal_for(x) by {
                assert(self.offer(i, run.step, x) == run.proposal_for(x));
            }
            assert forall|x: int| 0 <= x < self.n() && after.replied[x] implies has(
                #[trigger] self.recorded[x],
                after.step,
                self.offer(i, after.step, x),
            ) by {
                if x != m {
                    assert(run.replied[x]);
                }
            }
            let s = run.step;
            let t = (run.step - 1) as u32;
            // firsts
            assert forall|x: int| 0 <= x < self.n() && after.replied[x] implies {
                let f = first_at(#[trigger] self.recorded[x], after.step);
                &&& f is Some
                &&& after.best_first is Some
                &&& f->0.le(after.best_first->0)
                &&& after.all_first_high ==> f->0.priority == PRIORITY_H
            } by {
                let f = first_at(self.recorded[x], s);
                proposal_order_is_total(first, first, first);
                if let Some(b) = run.best_first {
                    proposal_order_is_total(b, first, b);
                    if x != m {
                        assert(run.replied[x]);
                        assert(f->0.le(b));
                        proposal_order_is_total(f->0, b, first);
                    }
                } else if x != m {
                    assert(run.replied[x]);
                }
            }
            if after.best_first == Some(first) {
                assert(first_at(self.recorded[m], s) == after.best_first);
            } else {
                let w = choose|w: int|
                    0 <= w < self.n() && run.replied[w] && first_at(#[trigger] self.recorded[w], s)
                        == run.best_first;
                assert(after.replied[w]);
                assert(first_at(self.recorded[w], s) == after.best_first);
            }
            // aggregates
            assert forall|x: int| 0 <= x < self.n() && after.replied[x] implies (max_at(
                #[trigger] self.recorded[x],
                t,
            ) matches Some(a) ==> after.best_agg is Some && a.le(after.best_agg->0)) by {
                if let Some(a) = max_at(self.recorded[x], t) {
                    if x != m {
                        assert(run.replied[x]);
                        assert(a.le(run.best_agg->0));
                        if let Some(g) = prior_agg {
                            proposal_order_is_total(a, run.best_agg->0, g);
                        }
                    } else {
                        proposal_order_is_total(a, a, a);
                        if let Some(b) = run.best_agg {
                            proposal_order_is_total(b, a, b);
                        }
                    }
                }
            }
            if after.best_agg is Some {
                if prior_agg is Some && after.best_agg == prior_agg {
                    assert(max_at(self.recorded[m], t) == after.best_agg);
                } else {
                    assert(after.best_agg == run.best_agg);
                    let w = choose|w: int|
                        0 <= w < self.n() && run.replied[w] && max_at(
                            #[trigger] self.recorded[w],
                            t,
                        ) == run.best_agg;
                    assert(after.replied[w]);
                    assert(max_at(self.recorded[w], t) == after.best_agg);
                }
            }
        }
    }

    /// A run that decides has a chosen value.
    proof fn lemma_decides(self, i: int, run: RunView)
        requires
            self.sound(),
            self.tallies(i, run),
            is_quorum(run.replied, self.n()),
            run.outcome() is Decided,
        ensures
            self.chosen(run.outcome()->Decided_0),
    {
        let k = run.replied;
        let s = run.step;
        if s % 4 == 0 {
            let w = choose|w: int|
                0 <= w < self.n() && run.replied[w] && first_at(#[trigger] self.recorded[w], s)
                    == run.best_first;
            let x = crate::history::lemma_quorum_member(k, self.n());
            assert(first_at(self.recorded[x], s) is Some);
            let f = first_at(self.recorded[x], s)->0;
            lemma_extremes(self.recorded[x], s);
            assert(self.offered(x, s, f));
            let j = choose|j: int| #[trigger] self.made(j, s) && self.offer(j, s, x) == f;
            assert(self.justified(j, s));
            if s > 4 {
                assert(self.offer(j, s, x).priority < PRIORITY_H);
            }
            assert(s == 4);
            assert forall|m: int| 0 <= m < self.n() && k[m] implies (first_at(
                #[trigger] self.recorded[m],
                4,
            ) matches Some(g) && g.priority == PRIORITY_H) by {
                assert(first_at(self.recorded[m], s) is Some);
            }
            assert(first_at(self.recorded[w], 4) is Some);
            assert(self.chosen_fast(k, run.outcome()->Decided_0));
        } else {
            let p = run.proposal;
            assert forall|m: int| 0 <= m < self.n() && k[m] implies has(
                #[trigger] self.recorded[m],
                s,
                p,
            ) by {
                assert(self.offer(i, s, m) == run.proposal_for(m));
            }
            assert(self.chosen_slow(k, s, p));
        }
    }

    /// Why a run may go on to the state `t`, about to begin its step.
    pub open spec fn may_enter(self, t: RunView) -> bool {
        &&& t.step % 4 == 0 ==> exists|k: Seq<bool>, b: ProposalView| #[trigger]
            self.carried(k, (t.step - 1) as u32, b) && b.value == t.proposal.value
        &&& t.step % 4 == 1 ==> exists|k: Seq<bool>| #[trigger]
            self.won(k, (t.step - 1) as u32, t.proposal)
        &&& t.step % 4 == 2 ==> exists|k: Seq<bool>| #[trigger]
            self.spread(k, (t.step - 1) as u32, t.proposal)
        &&& t.step % 4 == 3 ==> exists|k: Seq<bool>| #[trigger]
            self.answered(k, (t.step - 1) as u32)
    }

    /// A quorum of answers gives reason to go on.
    proof fn lemma_advances(self, i: int, run: RunView)
        requires
            self.ordered(),
            self.tallies(i, run),
            is_quorum(run.replied, self.n()),
            run.outcome() is Advance,
        ensures
            self.may_enter(run.completed()),
            run.completed().step == run.step + 1,
    {
        let k = run.replied;
        let s = run.step;
        let t = run.completed();
        assert((t.step - 1) as u32 == s);
        if s % 4 == 0 {
            let w = choose|w: int|
                0 <= w < self.n() && run.replied[w] && first_at(#[trigger] self.recorded[w], s)
                    == run.best_first;
            assert(self.won(k, s, t.proposal)) by {
                assert(first_at(self.recorded[w], s) == Some(t.proposal));
            }
        } else if s % 4 == 1 {
            assert forall|m: int| 0 <= m < self.n() && k[m] implies has(
                #[trigger] self.recorded[m],
                s,
                t.proposal,
            ) by {
                assert(self.offer(i, s, m) == run.proposal_for(m));
            }
            assert(self.spread(k, s, t.proposal));
        } else if s % 4 == 2 {
            assert forall|m: int| 0 <= m < self.n() && k[m] implies first_at(
                #[trigger] self.recorded[m],
                s,
            ) is Some by {
                lemma_extremes(self.recorded[m], s);
                assert(has(self.recorded[m], s, self.offer(i, s, m)));
            }
            assert(self.answered(k, s));
        } else if s % 4 == 3 {
            let w = choose|w: int|
                0 <= w < self.n() && run.replied[w] && max_at(
                    #[trigger] self.recorded[w],
                    (s - 1) as u32,
                ) == run.best_agg;
            assert forall|m: int| 0 <= m < self.n() && k[m] implies reached(
                #[trigger] self.recorded[m],
                s,
            ) by {
                self.lemma_has_reached(m, s, self.offer(i, s, m));
            }
            assert(self.carried(k, s, t.proposal)) by {
                assert(max_at(self.recorded[w], (s - 1) as u32) == Some(t.proposal));
            }
        }
    }

    /// A recorder that accepted a proposal in a step has reached the step.
    proof fn lemma_has_reached(self, m: int, s: u32, p: ProposalView)
        requires
            self.ordered(),
            0 <= m < self.n(),
            has(self.recorded[m], s, p),
        ensures
            reached(self.recorded[m], s),
    {
        let q = self.recorded[m];
        let x = choose|x: int| 0 <= x < q.len() && q[x] == (Recorded { step: s, p });
        assert(in_order(q));
        assert(q[x].step <= q[q.len() - 1].step);
    }

    /// A recorder that is ahead gives reason to join it.
    proof fn lemma_catches_up(self, m: int, s: u32, first: ProposalView, t: RunView)
        requires
            self.sound(),
            0 <= m < self.n(),
            s > 4,
            first_at(self.recorded[m], s) == Some(first),
            t.step == s,
            t.proposal == first,
        ensures
            self.may_enter(t),
    {
        lemma_extremes(self.recorded[m], s);
        assert(self.offered(m, s, first));
        let j = choose|j: int| #[trigger] self.made(j, s) && self.offer(j, s, m) == first;
        assert(self.justified(j, s));
        if s % 4 == 0 {
            let (k, b) = choose|k: Seq<bool>, b: ProposalView| #[trigger]
                self.carried(k, (s - 1) as u32, b) && forall|m: int|
                    0 <= m < self.n() ==> (#[trigger] self.offer(j, s, m)).value == b.value;
            assert(self.offer(j, s, m).value == b.value);
            assert(self.carried(k, (t.step - 1) as u32, b));
        } else if s % 4 == 1 {
            let (k, p) = choose|k: Seq<bool>, p: ProposalView| #[trigger]
                self.won(k, (s - 1) as u32, p) && self.uniform(j, s, p);
            assert(self.offer(j, s, m) == p);
            assert(self.won(k, (t.step - 1) as u32, t.proposal));
        } else if s % 4 == 2 {
            let (k, p) = choose|k: Seq<bool>, p: ProposalView| #[trigger]
                self.spread(k, (s - 1) as u32, p) && self.uniform(j, s, p);
            assert(self.offer(j, s, m) == p);
            assert(self.spread(k, (t.step - 1) as u32, t.proposal));
        } else {
            let k = choose|k: Seq<bool>| #[trigger] self.answered(k, (s - 1) as u32);
            assert(self.answered(k, (t.step - 1) as u32));
        }
    }

    /// A quorum in phase 3 always has an aggregate of phase 2 to offer: it
    /// shares a recorder with the quorum that answered phase 2.
    pub proof fn phase_3_finds_an_aggregate(self, i: int, run: RunView)
        requires
            self.sound(),
            self.tallies(i, run),
            is_quorum(run.replied, self.n()),
            run.step % 4 == 3,
        ensures
            run.best_agg is Some,
    {
        let s = run.step;
        let t = (s - 1) as u32;
        assert(self.made(i, s));
        assert(self.justified(i, s));
        let k = choose|k: Seq<bool>| #[trigger] self.answered(k, (s - 1) as u32);
        let x = crate::history::quorums_intersect(k, run.replied, self.n());
        lemma_extremes(self.recorded[x], t);
        assert(first_at(self.recorded[x], t) is Some);
        assert(has(self.recorded[x], t, first_at(self.recorded[x], t)->0));
        assert(max_at(self.recorded[x], t) is Some);
    }

    /// The history after the run `run` of proposer `i` began its step.
    pub open spec fn begin(self, i: int, run: RunView) -> SlotHistory {
        self.with_proposal(i, run.step, Seq::new(self.n(), |m: int| run.proposal_for(m)))
    }

    /// A fresh step's tally is right.
    proof fn lemma_fresh_tally(self, i: int, run: RunView)
        requires
            self.n() == run.replied.len(),
            run.wf(self.n()),
            run.replied == crate::proposer::none_set(self.n()),
            run.best_first is None,
            run.best_agg is None,
            run.priorities.len() > 0 ==> run.step % 4 == 0,
            forall|s: u32| s >= run.step ==> !#[trigger] self.made(i, s),
        ensures
            self.begin(i, run).tallies(i, run),
    {
        let b = self.begin(i, run);
        assert forall|s: u32| s > run.step implies !#[trigger] b.made(i, s) by {
            assert(!self.made(i, s));
        }
        assert forall|m: int| 0 <= m < b.n() implies #[trigger] b.offer(i, run.step, m)
            == run.proposal_for(m) by {}
    }

    /// Beginning a step that there is reason for.
    proof fn lemma_begins(
        self,
        i: int,
        me: Member,
        run: RunView,
        t: RunView,
        now: u64,
        rng: Rng,
    )
        requires
            self.sound(),
            me.wf(),
            me.n == self.n(),
            me.me_idx == i,
            self.tallies(i, run),
            t.step > run.step,
            t.replied.len() == self.n(),
            self.may_enter(t),
            self.has_value(t.proposal.value),
            shaped(t.proposal),
            me.me.0 != 0,
        ensures
            ({
                let next = t.begun(me, me.leads(), now, rng);
                let b = self.begin(i, next);
                &&& b.sound()
                &&& self.grew(b, i)
                &&& self.covers(b)
                &&& b.tallies(i, next)
            }),
    {
        let next = t.begun(me, me.leads(), now, rng);
        let s = next.step;
        let b = self.begin(i, next);
        let offers = Seq::new(self.n(), |m: int| next.proposal_for(m));
        lemma_none_set(self.n());
        lemma_drawn(rng, me.n as nat);
        assert(next.wf(self.n()));
        assert(!self.made(i, s));
        assert(b.ordered());
        assert(self.leads_to(b)) by {
            assert forall|x: int| 0 <= x < self.n() implies continues(
                #[trigger] self.recorded[x],
                b.recorded[x],
            ) by {
                assert(b.recorded[x].take(self.recorded[x].len() as int) =~= self.recorded[x]);
            }
        }
        assert forall|m: int| 0 <= m < b.n() implies #[trigger] b.offer(i, s, m)
            == next.proposal_for(m) by {}
        if s % 4 == 0 {
            let (k, p) = choose|k: Seq<bool>, p: ProposalView| #[trigger]
                self.carried(k, (t.step - 1) as u32, p) && p.value == t.proposal.value;
            self.lemma_carried_persists(b, k, (s - 1) as u32, p);
            assert forall|m: int| 0 <= m < b.n() implies (#[trigger] b.offer(i, s, m)).priority
                < PRIORITY_H && b.offer(i, s, m).value == p.value by {
                assert(next.priorities == drawn_of(rng, me));
                assert(next.proposal_for(m).priority == next.priorities[m]);
            }
            assert(b.reopens(i, s));
        } else if s % 4 == 1 {
            let k = choose|k: Seq<bool>| #[trigger] self.won(k, (t.step - 1) as u32, t.proposal);
            self.lemma_won_persists(b, k, (s - 1) as u32, t.proposal);
            assert(b.uniform(i, s, t.proposal));
        } else if s % 4 == 2 {
            let k = choose|k: Seq<bool>| #[trigger]
                self.spread(k, (t.step - 1) as u32, t.proposal);
            self.lemma_spread_persists(b, k, (s - 1) as u32, t.proposal);
            assert(b.uniform(i, s, t.proposal));
        } else {
            let k = choose|k: Seq<bool>| #[trigger] self.answered(k, (t.step - 1) as u32);
            self.lemma_answered_persists(b, k, (s - 1) as u32);
        }
        assert(b.justified(i, s));
        assert(well_shaped(offers)) by {
            assert forall|m: int| 0 <= m < offers.len() implies shaped(#[trigger] offers[m]) by {
                if s % 4 == 0 {
                    assert(next.priorities == drawn_of(rng, me));
                    assert(next.proposal_for(m).priority == next.priorities[m]);
                }
            }
        }
        self.lemma_with_proposal(i, s, offers);
        assert forall|m: int| 0 <= m < self.n() implies (#[trigger] offers[m]).value
            == t.proposal.value by {}
        self.lemma_proposal_values(i, s, offers, t.proposal.value);
        self.lemma_fresh_tally(i, next);
    }

    /// A run goes on with a value that was proposed.
    proof fn lemma_carries_value(self, i: int, run: RunView)
        requires
            self.sound(),
            0 <= i < self.n(),
            self.tallies(i, run),
            run.outcome() is Advance,
            is_quorum(run.replied, self.n()),
        ensures
            self.has_value(run.completed().proposal.value),
            shaped(run.completed().proposal),
    {
        let s = run.step;
        if s % 4 == 0 {
            let x = crate::history::lemma_quorum_member(run.replied, self.n());
            assert(first_at(self.recorded[x], s) is Some);
            let w = choose|w: int|
                0 <= w < self.n() && run.replied[w] && first_at(#[trigger] self.recorded[w], s)
                    == run.best_first;
            lemma_extremes(self.recorded[w], s);
            self.lemma_accepted_has_value(w, s, run.best_first->0);
        } else if s % 4 == 3 {
            let t = (s - 1) as u32;
            let w = choose|w: int|
                0 <= w < self.n() && run.replied[w] && max_at(#[trigger] self.recorded[w], t)
                    == run.best_agg;
            lemma_extremes(self.recorded[w], t);
            self.lemma_accepted_has_value(w, t, run.best_agg->0);
        } else {
            assert(self.offer(i, s, i) == run.proposal_for(i));
            assert(self.offer(i, s, i).value == run.proposal.value);
            assert(shaped(self.proposed[(i, s)][i]));
        }
    }

    /// The history after proposer `i` took in an answer.
    pub open spec fn absorb(
        self,
        i: int,
        me: Member,
        run: RunView,
        now: u64,
        rng: Rng,
        m: int,
        req_step: u32,
        reply_step: u32,
        first: ProposalView,
        prior_agg: Option<ProposalView>,
    ) -> SlotHistory {
        if run.progress(me, m, req_step, reply_step, first, prior_agg) is Send {
            self.begin(
                i,
                run.absorbed(me, now, rng, m, req_step, reply_step, first, prior_agg),
            )
        } else {
            self
        }
    }

    /// Taking in a true answer extends the history soundly, keeps the tally
    /// right, and decides only a chosen value.
    pub proof fn lemma_absorb(
        self,
        i: int,
        me: Member,
        run: RunView,
        now: u64,
        rng: Rng,
        m: int,
        req_step: u32,
        reply_step: u32,
        first: ProposalView,
        prior_agg: Option<ProposalView>,
    )
        requires
            self.sound(),
            me.wf(),
            me.me.0 != 0,
            me.n == self.n(),
            me.me_idx == i,
            self.tallies(i, run),
            0 <= m < self.n(),
            self.answer_ok(i, m, req_step, reply_step, first, prior_agg),
        ensures
            ({
                let b = self.absorb(
                    i,
                    me,
                    run,
                    now,
                    rng,
                    m,
                    req_step,
                    reply_step,
                    first,
                    prior_agg,
                );
                let after = run.absorbed(
                    me,
                    now,
                    rng,
                    m,
                    req_step,
                    reply_step,
                    first,
                    prior_agg,
                );
                &&& b.sound()
                &&& self.grew(b, i)
                &&& self.covers(b)
                &&& b.tallies(i, after)
                &&& run.progress(me, m, req_step, reply_step, first, prior_agg)
                    matches ProgressView::Decided(v) ==> b.chosen(v)
            }),
    {
        let folded = run.folded(m, req_step, reply_step, first, prior_agg);
        self.lemma_folded(i, run, m, req_step, reply_step, first, prior_agg);
        self.lemma_grew_refl(i);
        match run.fold_result(m, req_step, reply_step, first, me.quorum as nat) {
            FoldedView::Ignored => {},
            FoldedView::CatchUp { step, adopt } => {
                let t = RunView { step, proposal: adopt, ..run };
                self.lemma_catches_up(m, step, adopt, t);
                lemma_extremes(self.recorded[m], step);
                self.lemma_accepted_has_value(m, step, adopt);
                self.lemma_begins(i, me, run, t, now, rng);
            },
            FoldedView::Quorum => {
                lemma_set_count_update(run.replied, m);
                assert(is_quorum(folded.replied, self.n()));
                match folded.outcome() {
                    OutcomeView::Decided(v) => {
                        self.lemma_decides(i, folded);
                    },
                    OutcomeView::Advance => {
                        self.lemma_advances(i, folded);
                        self.lemma_carries_value(i, folded);
                        self.lemma_begins(i, me, folded, folded.completed(), now, rng);
                    },
                    OutcomeView::Retry => {
                        lemma_none_set(self.n());
                        let after = folded.untracked();
                        assert(after.wf(self.n()));
                        assert forall|x: int| 0 <= x < self.n() implies #[trigger] self.offer(
                            i,
                            after.step,
                            x,
                        ) == after.proposal_for(x) by {
                            assert(self.offer(i, folded.step, x) == folded.proposal_for(x));
                        }
                        assert(self.tallies(i, after));
                    },
                }
            },
        }
    }
}

spec fn drawn_of(rng: Rng, me: Member) -> Seq<u32> {
    crate::proposer::drawn(rng, me.n as nat)
}

impl SlotHistory {
    // ---- what a replica holds for the slot ----

    /// What replica `i` holds for the slot is true of the history: an open
    /// register is what its accepted proposals make it, a decided value is
    /// chosen, and its proposer's tally is right.
    pub open spec fn holds(self, i: int, slot: SlotView) -> bool {
        &&& match slot.recorder {
            RecorderView::Open(isr) => isr == replay(self.recorded[i]),
            RecorderView::Decided(v) => self.chosen(v),
        }
        &&& match slot.proposer {
            ProposerView::Idle => self.untouched(i),
            ProposerView::Running(run) => self.tallies(i, run),
            ProposerView::Done => true,
        }
    }

    /// Replica `i` has no part in the history.
    pub open spec fn absent(self, i: int) -> bool {
        self.recorded[i].len() == 0 && self.untouched(i)
    }

    /// What another replica holds stays true.
    pub proof fn lemma_others_hold(self, b: SlotHistory, i: int, j: int, slot: SlotView)
        requires
            self.grew(b, i),
            b.sound(),
            i != j,
            0 <= j < self.n(),
            self.holds(j, slot),
        ensures
            b.holds(j, slot),
    {
        match slot.recorder {
            RecorderView::Open(isr) => {
                assert(b.recorded[j] == self.recorded[j]);
            },
            RecorderView::Decided(v) => {
                self.lemma_chosen_persists(b, v);
            },
        }
        match slot.proposer {
            ProposerView::Idle => {
                assert forall|s: u32| !#[trigger] b.made(j, s) by {
                    assert(!self.made(j, s));
                }
            },
            ProposerView::Running(run) => {
                self.lemma_tally_persists(b, j, run);
            },
            ProposerView::Done => {},
        }
    }

    proof fn lemma_tally_persists(self, b: SlotHistory, j: int, run: RunView)
        requires
            self.leads_to(b),
            forall|s: u32| #[trigger] b.made(j, s) ==> self.made(j, s),
            b.ordered(),
            self.tallies(j, run),
        ensures
            b.tallies(j, run),
    {
        let s = run.step;
        let t = (s - 1) as u32;
        assert forall|m: int| 0 <= m < b.n() implies #[trigger] b.offer(j, s, m)
            == run.proposal_for(m) by {
            assert(self.offer(j, s, m) == run.proposal_for(m));
        }
        assert forall|x: u32| x > s implies !#[trigger] b.made(j, x) by {
            assert(!self.made(j, x));
        }
        assert(self.ordered()) by {
            assert forall|m: int| 0 <= m < self.n() implies in_order(
                #[trigger] self.recorded[m],
            ) by {
                lemma_continues(self.recorded[m], b.recorded[m]);
            }
        }
        assert forall|m: int| 0 <= m < b.n() && run.replied[m] implies {
            &&& has(#[trigger] b.recorded[m], s, b.offer(j, s, m))
            &&& first_at(b.recorded[m], s) == first_at(self.recorded[m], s)
            &&& max_at(b.recorded[m], t) == max_at(self.recorded[m], t)
        } by {
            lemma_continues(self.recorded[m], b.recorded[m]);
            assert(has(self.recorded[m], s, self.offer(j, s, m)));
            self.lemma_has_reached(m, s, self.offer(j, s, m));
            assert((t + 1) as u32 == s);
            assert(first_at(self.recorded[m], s) is Some);
        }
        assert(b.tallies_first(run)) by {
            assert forall|m: int| 0 <= m < b.n() && run.replied[m] implies {
                let first = first_at(#[trigger] b.recorded[m], run.step);
                &&& first is Some
                &&& run.best_first is Some
                &&& first->0.le(run.best_first->0)
                &&& run.all_first_high ==> first->0.priority == PRIORITY_H
            } by {
                assert(first_at(self.recorded[m], s) is Some);
            }
            if run.best_first is Some {
                let w = choose|w: int|
                    0 <= w < self.n() && run.replied[w] && first_at(#[trigger] self.recorded[w], s)
                        == run.best_first;
                assert(first_at(b.recorded[w], s) == run.best_first);
            }
        }
        assert(b.tallies_agg(run)) by {
            assert forall|m: int| 0 <= m < b.n() && run.replied[m] implies (max_at(
                #[trigger] b.recorded[m],
                t,
            ) matches Some(a) ==> run.best_agg is Some && a.le(run.best_agg->0)) by {
                assert(max_at(self.recorded[m], t) == max_at(b.recorded[m], t));
            }
            if run.best_agg is Some {
                let w = choose|w: int|
                    0 <= w < self.n() && run.replied[w] && max_at(#[trigger] self.recorded[w], t)
                        == run.best_agg;
                assert(max_at(b.recorded[w], t) == run.best_agg);
            }
        }
    }

    pub proof fn lemma_others_absent(self, b: SlotHistory, i: int, j: int)
        requires
            self.grew(b, i),
            i != j,
            0 <= j < self.n(),
            self.absent(j),
        ensures
            b.absent(j),
    {
        assert(b.recorded[j] == self.recorded[j]);
        assert forall|s: u32| !#[trigger] b.made(j, s) by {
            assert(!self.made(j, s));
        }
    }

    // ---- what messages say ----

    /// A `Record` from proposer `j` to recorder `m` says what `j` proposed.
    pub open spec fn record_ok(self, j: int, m: int, step: u32, p: ProposalView) -> bool {
        self.made(j, step) && self.offer(j, step, m) == p
    }

    /// A `RecordReply` from recorder `m` to proposer `i` is true of the
    /// history.
    pub open spec fn reply_ok(
        self,
        m: int,
        i: int,
        req_step: u32,
        step: u32,
        first: ReplyFirstView,
        prior_agg: Option<ProposalView>,
    ) -> bool {
        match first {
            ReplyFirstView::Full(p) => self.answer_ok(i, m, req_step, step, p, prior_agg),
            ReplyFirstView::Echo => self.made(i, req_step) && self.answer_ok(
                i,
                m,
                req_step,
                step,
                self.offer(i, req_step, m),
                prior_agg,
            ),
        }
    }

    proof fn lemma_answer_persists(
        self,
        b: SlotHistory,
        i: int,
        m: int,
        req_step: u32,
        step: u32,
        first: ProposalView,
        prior_agg: Option<ProposalView>,
    )
        requires
            self.leads_to(b),
            b.ordered(),
            0 <= m < self.n(),
            self.answer_ok(i, m, req_step, step, first, prior_agg),
        ensures
            b.answer_ok(i, m, req_step, step, first, prior_agg),
    {
        lemma_continues(self.recorded[m], b.recorded[m]);
        let t = (step - 1) as u32;
        assert((t + 1) as u32 == step);
        assert(max_at(b.recorded[m], t) == max_at(self.recorded[m], t));
        assert(first_at(self.recorded[m], step) is Some);
    }

    pub proof fn lemma_reply_persists(
        self,
        b: SlotHistory,
        m: int,
        i: int,
        req_step: u32,
        step: u32,
        first: ReplyFirstView,
        prior_agg: Option<ProposalView>,
    )
        requires
            self.leads_to(b),
            b.ordered(),
            0 <= m < self.n(),
            self.reply_ok(m, i, req_step, step, first, prior_agg),
        ensures
            b.reply_ok(m, i, req_step, step, first, prior_agg),
    {
        match first {
            ReplyFirstView::Full(p) => {
                self.lemma_answer_persists(b, i, m, req_step, step, p, prior_agg);
            },
            ReplyFirstView::Echo => {
                let p = self.offer(i, req_step, m);
                self.lemma_answer_persists(b, i, m, req_step, step, p, prior_agg);
            },
        }
    }

    // ---- a replica's steps ----

    /// The history after recorder `i` handled `record(step, p)`.
    pub open spec fn record(self, i: int, step: u32, p: ProposalView) -> SlotHistory {
        if step >= replay(self.recorded[i]).step {
            self.with_record(i, Recorded { step, p })
        } else {
            self
        }
    }

    /// Handling `record` with what was proposed extends the history soundly,
    /// and the register's summary is a true answer.
    proof fn lemma_record(self, i: int, j: int, step: u32, p: ProposalView)
        requires
            self.sound(),
            0 <= i < self.n(),
            self.record_ok(j, i, step, p),
        ensures
            ({
                let b = self.record(i, step, p);
                let isr = replay(self.recorded[i]).record(step, p);
                &&& b.sound()
                &&& self.grew(b, i)
                &&& isr == replay(b.recorded[i])
                &&& isr.first is Some
                &&& b.answer_ok(j, i, step, isr.step, isr.first->0, isr.prior_agg)
                &&& b.proposed == self.proposed
                &&& self.covers(b)
            }),
    {
        let q = self.recorded[i];
        let b = self.record(i, step, p);
        let e = Recorded { step, p };
        self.lemma_grew_refl(i);
        lemma_replay(q);
        assert(step >= 4);
        assert forall|v: Seq<u8>| #[trigger] b.has_value(v) implies self.has_value(v) by {
            let (x, t, m) = choose|x: int, t: u32, m: int|
                b.made(x, t) && 0 <= m < b.n() && (#[trigger] b.offer(x, t, m)).value == v;
            assert(self.made(x, t));
            assert(self.offer(x, t, m).value == v);
        }
        if step >= replay(q).step {
            assert(self.offered(i, step, p));
            self.lemma_with_record(i, e);
            lemma_push(q, e);
            assert(b.recorded[i] == q.push(e));
            lemma_replay(q.push(e));
        } else {
            assert(q.len() > 0);
            assert(q[q.len() - 1].step >= 4);
        }
    }

    /// Handling a `Record` message: what the recorder then holds is true, and
    /// so is its reply.
    pub proof fn lemma_on_record(
        self,
        i: int,
        slot: SlotView,
        now: u64,
        j: int,
        step: u32,
        p: ProposalView,
        id: Slot,
    ) -> (b: SlotHistory)
        requires
            self.sound(),
            0 <= i < self.n(),
            self.holds(i, slot),
            self.record_ok(j, i, step, p),
        ensures
            b.sound(),
            self.grew(b, i),
            self.covers(b),
            b.holds(i, slot.recorded(now, step, p)),
            match slot.record_reply(id, step, p) {
                PayloadView::Decide { slot: k, value } => k == id && b.chosen(value),
                PayloadView::RecordReply { slot: k, req_step, step: reply, first, prior_agg } => k
                    == id && b.reply_ok(i, j, req_step, reply, first, prior_agg),
                _ => false,
            },
    {
        match slot.recorder {
            RecorderView::Decided(v) => {
                self.lemma_grew_refl(i);
                self
            },
            RecorderView::Open(isr) => {
                self.lemma_record(i, j, step, p);
                let b = self.record(i, step, p);
                match slot.proposer {
                    ProposerView::Idle => {
                        assert forall|s: u32| !#[trigger] b.made(i, s) by {
                            assert(!self.made(i, s));
                        }
                    },
                    ProposerView::Running(run) => {
                        self.lemma_own_tally_persists(b, i, run);
                    },
                    ProposerView::Done => {},
                }
                b
            },
        }
    }

    proof fn lemma_own_tally_persists(self, b: SlotHistory, i: int, run: RunView)
        requires
            self.leads_to(b),
            b.proposed == self.proposed,
            b.ordered(),
            self.tallies(i, run),
        ensures
            b.tallies(i, run),
    {
        assert forall|s: u32| #[trigger] b.made(i, s) implies self.made(i, s) by {}
        self.lemma_tally_persists(b, i, run);
    }

    /// One local transmission.
    proof fn lemma_self_recorded(self, i: int, me: Member, slot: SlotView, now: u64, rng: Rng) -> (b:
        SlotHistory)
        requires
            self.sound(),
            me.wf(),
            me.me.0 != 0,
            me.n == self.n(),
            me.me_idx == i,
            self.holds(i, slot),
            slot.is_running(),
            !slot.is_decided(),
        ensures
            b.sound(),
            self.grew(b, i),
            self.covers(b),
            b.holds(i, slot.self_recorded(me, now, rng).slot),
            slot.self_recorded(me, now, rng).next matches ProgressView::Decided(v) ==> b.chosen(v),
    {
        let run = slot.proposer->Running_0;
        let isr = slot.recorder->Open_0;
        let sent = RunView { needs_send: false, sent_at: now, ..run };
        let p = sent.proposal_for(i);
        assert forall|m: int| 0 <= m < self.n() implies #[trigger] self.offer(i, sent.step, m)
            == sent.proposal_for(m) by {
            assert(self.offer(i, run.step, m) == run.proposal_for(m));
        }
        assert(self.tallies(i, sent)) by {
            assert(self.tallies_first(run));
            assert(self.tallies_agg(run));
            assert(self.tallies_first(sent));
            assert(self.tallies_agg(sent));
        }
        assert(self.offer(i, run.step, i) == p);
        assert(self.record_ok(i, i, run.step, p));
        self.lemma_record(i, i, run.step, p);
        let a = self.record(i, run.step, p);
        let isr1 = isr.record(run.step, p);
        self.lemma_own_tally_persists(a, i, sent);
        a.lemma_absorb(
            i,
            me,
            sent,
            now,
            rng,
            i,
            run.step,
            isr1.step,
            isr1.first->0,
            isr1.prior_agg,
        );
        let b = a.absorb(
            i,
            me,
            sent,
            now,
            rng,
            i,
            run.step,
            isr1.step,
            isr1.first->0,
            isr1.prior_agg,
        );
        self.lemma_grew_trans(a, b, i);
        b
    }

    /// Driving a slot extends the history soundly, and decides only a chosen
    /// value.
    pub proof fn lemma_driven(self, i: int, me: Member, slot: SlotView, now: u64, rng: Rng) -> (b:
        SlotHistory)
        requires
            self.sound(),
            me.wf(),
            me.me.0 != 0,
            me.n == self.n(),
            me.me_idx == i,
            self.holds(i, slot),
        ensures
            b.sound(),
            self.grew(b, i),
            self.covers(b),
            b.holds(i, slot.driven(me, now, rng).slot),
            slot.driven(me, now, rng).next matches ProgressView::Decided(v) ==> b.chosen(v),
        decreases slot.steps_left(),
    {
        self.lemma_grew_refl(i);
        match slot.proposer {
            ProposerView::Running(run) => if !run.needs_send || slot.is_decided() {
                self
            } else {
                let a = self.lemma_self_recorded(i, me, slot, now, rng);
                let d = slot.self_recorded(me, now, rng);
                match d.next {
                    ProgressView::Send => {
                        let sent = RunView { needs_send: false, sent_at: now, ..run };
                        let isr1 = slot.recorder->Open_0.record(run.step, sent.proposal_for(i));
                        sent.lemma_absorbed_wf(
                            me,
                            now,
                            rng,
                            i,
                            run.step,
                            isr1.step,
                            isr1.first->0,
                            isr1.prior_agg,
                        );
                        let b = a.lemma_driven(i, me, d.slot, now, d.rng);
                        self.lemma_grew_trans(a, b, i);
                        b
                    },
                    _ => a,
                }
            },
            _ => self,
        }
    }

    /// Taking in a `RecordReply` extends the history soundly, and decides
    /// only a chosen value.
    pub proof fn lemma_answered(
        self,
        i: int,
        me: Member,
        slot: SlotView,
        now: u64,
        rng: Rng,
        m: int,
        req_step: u32,
        step: u32,
        first: ReplyFirstView,
        prior_agg: Option<ProposalView>,
    ) -> (b: SlotHistory)
        requires
            self.sound(),
            me.wf(),
            me.me.0 != 0,
            me.n == self.n(),
            me.me_idx == i,
            0 <= m < self.n(),
            self.holds(i, slot),
            self.reply_ok(m, i, req_step, step, first, prior_agg),
        ensures
            b.sound(),
            self.grew(b, i),
            self.covers(b),
            b.holds(i, slot.answered(me, now, rng, m, req_step, step, first, prior_agg)),
            slot.answer_progress(me, m, req_step, step, first, prior_agg) matches ProgressView::Decided(
                v,
            ) ==> b.chosen(v),
    {
        self.lemma_grew_refl(i);
        match slot.proposer {
            ProposerView::Running(run) => match SlotView::resolved(run, m, req_step, first) {
                Some(f) => {
                    if first is Echo {
                        assert(self.offer(i, run.step, m) == run.proposal_for(m));
                    }
                    self.lemma_absorb(i, me, run, now, rng, m, req_step, step, f, prior_agg);
                    let b = self.absorb(i, me, run, now, rng, m, req_step, step, f, prior_agg);
                    if let RecorderView::Decided(v) = slot.recorder {
                        self.lemma_chosen_persists(b, v);
                    }
                    b
                },
                None => self,
            },
            _ => self,
        }
    }

    /// Starting a proposer extends the history soundly.
    pub proof fn lemma_started(
        self,
        i: int,
        me: Member,
        slot: SlotView,
        value: Seq<u8>,
        now: u64,
        rng: Rng,
    ) -> (b: SlotHistory)
        requires
            self.sound(),
            me.wf(),
            me.me.0 != 0,
            me.n == self.n(),
            me.me_idx == i,
            self.holds(i, slot),
            slot.proposer is Idle,
        ensures
            b.sound(),
            self.grew(b, i),
            forall|v: Seq<u8>| #[trigger] b.has_value(v) ==> self.has_value(v) || v == value,
            b.holds(
                i,
                SlotView {
                    proposer: ProposerView::Running(
                        RunView::started(value, me, me.leads(), now, rng),
                    ),
                    ..slot
                },
            ),
    {
        let run = RunView::started(value, me, me.leads(), now, rng);
        let b = self.begin(i, run);
        lemma_none_set(self.n());
        lemma_drawn(rng, me.n as nat);
        assert(!self.made(i, 4));
        assert forall|m: int| 0 <= m < b.n() implies #[trigger] b.offer(i, 4, m)
            == run.proposal_for(m) by {}
        if i == 0 {
            assert(b.uniform(i, 4, run.proposal));
        } else {
            assert forall|m: int| 0 <= m < b.n() implies (#[trigger] b.offer(i, 4, m)).priority
                < PRIORITY_H by {
                assert(run.priorities == drawn_of(rng, me));
                assert(run.proposal_for(m).priority == run.priorities[m]);
            }
        }
        assert(b.justified(i, 4));
        let offers = Seq::new(self.n(), |m: int| run.proposal_for(m));
        assert(well_shaped(offers)) by {
            assert forall|m: int| 0 <= m < offers.len() implies shaped(#[trigger] offers[m]) by {
                if i != 0 {
                    assert(run.priorities == drawn_of(rng, me));
                    assert(run.proposal_for(m).priority == run.priorities[m]);
                }
            }
        }
        self.lemma_with_proposal(i, 4, offers);
        assert forall|m: int| 0 <= m < self.n() implies (#[trigger] offers[m]).value == value by {}
        self.lemma_proposal_values(i, 4, offers, value);
        assert forall|s: u32| s >= run.step implies !#[trigger] self.made(i, s) by {}
        self.lemma_fresh_tally(i, run);
        if let RecorderView::Decided(v) = slot.recorder {
            self.lemma_chosen_persists(b, v);
        }
        b
    }
}

} // verus!
