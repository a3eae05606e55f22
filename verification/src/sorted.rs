//! An ordered map on a sorted vector.

use vstd::prelude::*;

use crate::types::{CommandId, Origin};

verus! {

/// Keys that are ordered by an integer rank.
pub trait Key: Copy + Sized {
    spec fn rank(self) -> int;

    /// Different keys have different ranks.
    proof fn rank_is_injective(a: Self, b: Self)
        requires
            a.rank() == b.rank(),
        ensures
            a == b,
    ;

    /// Whether `self` comes before `other`.
    fn precedes(&self, other: &Self) -> (r: bool)
        ensures
            r == (self.rank() < other.rank()),
    ;
}

impl Key for u64 {
    open spec fn rank(self) -> int {
        self as int
    }

    proof fn rank_is_injective(a: u64, b: u64) {
    }

    fn precedes(&self, other: &u64) -> (r: bool) {
        *self < *other
    }
}

impl Key for Origin {
    open spec fn rank(self) -> int {
        self.replica.0 * 0x1_0000_0000_0000_0000 + self.boot
    }

    proof fn rank_is_injective(a: Origin, b: Origin) {
        assert(a.replica.0 == b.replica.0 && a.boot == b.boot);
    }

    fn precedes(&self, other: &Origin) -> (r: bool) {
        if self.replica.0 != other.replica.0 {
            self.replica.0 < other.replica.0
        } else {
            self.boot < other.boot
        }
    }
}

impl Key for CommandId {
    open spec fn rank(self) -> int {
        (self.origin.0 * 0x1_0000_0000_0000_0000 + self.boot) * 0x1_0000_0000_0000_0000 + self.seq
    }

    proof fn rank_is_injective(a: CommandId, b: CommandId) {
        assert(a.origin.0 == b.origin.0 && a.boot == b.boot && a.seq == b.seq);
    }

    fn precedes(&self, other: &CommandId) -> (r: bool) {
        if self.origin.0 != other.origin.0 {
            self.origin.0 < other.origin.0
        } else if self.boot != other.boot {
            self.boot < other.boot
        } else {
            self.seq < other.seq
        }
    }
}

/// Whether `q` is strictly ascending.
pub open spec fn ascends<K: Key>(q: Seq<K>) -> bool {
    forall|i: int, j: int| 0 <= i < j < q.len() ==> (#[trigger] q[i]).rank() < (#[trigger] q[j]).rank()
}

/// The elements of a finite set in ascending order.
pub open spec fn ascending<K: Key>(s: Set<K>) -> Seq<K> {
    choose|q: Seq<K>| ascends(q) && q.to_set() == s
}

proof fn lemma_same_elements<K: Key>(a: Seq<K>, b: Seq<K>)
    requires
        ascends(a),
        ascends(b),
        forall|k: K| a.contains(k) <==> b.contains(k),
    ensures
        a == b,
    decreases a.len(),
{
    if a.len() == 0 {
        if b.len() > 0 {
            assert(b.contains(b[0]));
        }
        assert(a =~= b);
    } else {
        assert(a.contains(a.last()));
        assert(b.len() > 0);
        assert(b.contains(b.last()));
        let i = choose|i: int| 0 <= i < b.len() && b[i] == a.last();
        let j = choose|j: int| 0 <= j < a.len() && a[j] == b.last();
        assert(a.last() == b.last()) by {
            if i != b.len() - 1 {
                assert(b[i].rank() < b.last().rank());
                if j != a.len() - 1 {
                    assert(a[j].rank() < a.last().rank());
                }
            }
        }
        let a1 = a.drop_last();
        let b1 = b.drop_last();
        assert forall|k: K| a1.contains(k) implies b1.contains(k) by {
            let x = choose|x: int| 0 <= x < a1.len() && a1[x] == k;
            assert(a[x] == k);
            assert(a.contains(k));
            let y = choose|y: int| 0 <= y < b.len() && b[y] == k;
            assert(a[x].rank() < a.last().rank());
            assert(y != b.len() - 1);
            assert(b1[y] == k);
        }
        assert forall|k: K| b1.contains(k) implies a1.contains(k) by {
            let x = choose|x: int| 0 <= x < b1.len() && b1[x] == k;
            assert(b[x] == k);
            assert(b.contains(k));
            let y = choose|y: int| 0 <= y < a.len() && a[y] == k;
            assert(b[x].rank() < b.last().rank());
            assert(y != a.len() - 1);
            assert(a1[y] == k);
        }
        lemma_same_elements(a1, b1);
        assert(a =~= a1.push(a.last()));
        assert(b =~= b1.push(b.last()));
    }
}

/// A set has only one ascending enumeration.
pub proof fn ascending_is_unique<K: Key>(q: Seq<K>)
    requires
        ascends(q),
    ensures
        ascending(q.to_set()) == q,
{
    let s = q.to_set();
    assert(ascends(q) && q.to_set() == s);
    let p = ascending(s);
    assert(ascends(p) && p.to_set() == s);
    assert forall|k: K| p.contains(k) <==> q.contains(k) by {
        assert(p.to_set().contains(k) <==> q.to_set().contains(k));
    }
    lemma_same_elements(p, q);
}

/// The ascending sequence `q` with `x` put in its place.
spec fn put_in<K: Key>(q: Seq<K>, x: K) -> Seq<K>
    decreases q.len(),
{
    if q.len() == 0 || q.last().rank() < x.rank() {
        q.push(x)
    } else {
        put_in(q.drop_last(), x).push(q.last())
    }
}

proof fn lemma_put_in<K: Key>(q: Seq<K>, x: K)
    requires
        ascends(q),
        !q.contains(x),
    ensures
        ascends(put_in(q, x)),
        forall|k: K| #[trigger] put_in(q, x).contains(k) <==> q.contains(k) || k == x,
    decreases q.len(),
{
    let r = put_in(q, x);
    if q.len() == 0 || q.last().rank() < x.rank() {
        assert forall|k: K| #[trigger] r.contains(k) <==> q.contains(k) || k == x by {
            vstd::seq_lib::lemma_seq_contains_after_push(q, x, k);
        }
        assert forall|i: int, j: int| 0 <= i < j < r.len() implies (#[trigger] r[i]).rank() < (
        #[trigger] r[j]).rank() by {
            if j == q.len() && i < q.len() - 1 {
                assert(q[i].rank() < q[q.len() - 1].rank());
            }
        }
    } else {
        let init = q.drop_last();
        let l = q.last();
        assert(q =~= init.push(l));
        assert forall|k: K| #[trigger] q.contains(k) <==> init.contains(k) || k == l by {
            vstd::seq_lib::lemma_seq_contains_after_push(init, l, k);
        }
        assert forall|i: int, j: int| 0 <= i < j < init.len() implies (#[trigger] init[i]).rank() < (
        #[trigger] init[j]).rank() by {
            assert(q[i].rank() < q[j].rank());
        }
        lemma_put_in(init, x);
        let p = put_in(init, x);
        assert forall|k: K| #[trigger] r.contains(k) <==> q.contains(k) || k == x by {
            vstd::seq_lib::lemma_seq_contains_after_push(p, l, k);
        }
        assert(l.rank() != x.rank()) by {
            if l.rank() == x.rank() {
                K::rank_is_injective(l, x);
                assert(q[q.len() - 1] == x);
            }
        }
        assert forall|i: int, j: int| 0 <= i < j < r.len() implies (#[trigger] r[i]).rank() < (
        #[trigger] r[j]).rank() by {
            if j == p.len() {
                assert(p.contains(p[i]));
                if p[i] != x {
                    assert(init.contains(p[i]));
                    let y = choose|y: int| 0 <= y < init.len() && init[y] == p[i];
                    assert(q[y].rank() < q[q.len() - 1].rank());
                }
            }
        }
    }
}

/// Every finite set has an ascending enumeration.
pub proof fn lemma_ascending<K: Key>(s: Set<K>)
    requires
        s.finite(),
    ensures
        ascends(ascending(s)),
        ascending(s).to_set() == s,
    decreases s.len(),
{
    if s.len() == 0 {
        let q = Seq::<K>::empty();
        assert(q.to_set() =~= s);
        assert(ascends(q));
        ascending_is_unique(q);
    } else {
        let x = s.choose();
        let t = s.remove(x);
        lemma_ascending(t);
        let q = ascending(t);
        assert(!q.contains(x)) by {
            if q.contains(x) {
                assert(q.to_set().contains(x));
            }
        }
        lemma_put_in(q, x);
        let r = put_in(q, x);
        assert(r.to_set() =~= s) by {
            assert forall|k: K| r.to_set().contains(k) <==> s.contains(k) by {
                assert(r.contains(k) <==> q.contains(k) || k == x);
                assert(q.to_set().contains(k) <==> t.contains(k));
            }
        }
        ascending_is_unique(r);
    }
}

/// Filtering keeps the order.
pub proof fn lemma_filter_ascends<K: Key>(q: Seq<K>, pred: spec_fn(K) -> bool)
    requires
        ascends(q),
    ensures
        ascends(q.filter(pred)),
        forall|k: K| #[trigger] q.filter(pred).contains(k) <==> q.contains(k) && pred(k),
    decreases q.len(),
{
    reveal(Seq::filter);
    if q.len() > 0 {
        let init = q.drop_last();
        let sub = init.filter(pred);
        let all = q.filter(pred);
        lemma_filter_ascends(init, pred);
        assert forall|k: K| #[trigger] all.contains(k) <==> q.contains(k) && pred(k) by {
            if q.contains(k) && pred(k) {
                let i = choose|i: int| 0 <= i < q.len() && q[i] == k;
                if i < q.len() - 1 {
                    assert(init[i] == k);
                    assert(init.contains(k));
                    assert(sub.contains(k));
                    let j = choose|j: int| 0 <= j < sub.len() && sub[j] == k;
                    assert(all[j] == k);
                } else {
                    assert(all[all.len() - 1] == k);
                }
            }
            if all.contains(k) {
                let i = choose|i: int| 0 <= i < all.len() && all[i] == k;
                if i < sub.len() {
                    assert(sub[i] == k);
                    assert(sub.contains(k));
                    let j = choose|j: int| 0 <= j < init.len() && init[j] == k;
                    assert(q[j] == k);
                } else {
                    assert(q[q.len() - 1] == k);
                }
            }
        }
        assert forall|i: int, j: int| 0 <= i < j < all.len() implies (#[trigger] all[i]).rank() < (
        #[trigger] all[j]).rank() by {
            if j < sub.len() {
                assert(sub[i].rank() < sub[j].rank());
            } else {
                assert(sub.contains(sub[i]));
                let x = choose|x: int| 0 <= x < init.len() && init[x] == sub[i];
                assert(q[x].rank() < q[q.len() - 1].rank());
            }
        }
    }
}

/// An ascending sequence has no duplicates.
pub proof fn lemma_ascends_distinct<K: Key>(q: Seq<K>)
    requires
        ascends(q),
    ensures
        q.no_duplicates(),
{
    assert forall|i: int, j: int| 0 <= i < q.len() && 0 <= j < q.len() && i != j implies q[i]
        != q[j] by {
        if i < j {
            assert(q[i].rank() < q[j].rank());
        } else {
            assert(q[j].rank() < q[i].rank());
        }
    }
}

/// A map whose entries are kept in ascending key order.
pub struct SortedMap<K: Key, V> {
    pub entries: Vec<(K, V)>,
}

impl<K: Key, V> SortedMap<K, V> {
    /// The keys in order.
    pub open spec fn keys(&self) -> Seq<K> {
        self.entries@.map_values(|e: (K, V)| e.0)
    }

    /// The keys are strictly ascending.
    pub open spec fn wf(&self) -> bool {
        ascends(self.keys())
    }
}

impl<K: Key, V> View for SortedMap<K, V> {
    type V = Map<K, V>;

    open spec fn view(&self) -> Map<K, V> {
        Map::new(
            |k: K| self.keys().contains(k),
            |k: K| self.entries@[self.keys().index_of(k)].1,
        )
    }
}

impl<K: Key, V> SortedMap<K, V> {
    /// The map's keys and entries, position by position.
    pub proof fn lemma_entries(&self)
        requires
            self.wf(),
        ensures
            self.keys().len() == self.entries@.len(),
            self@.dom() == self.keys().to_set(),
            self@.dom().finite(),
            ascending(self@.dom()) == self.keys(),
            forall|i: int| #![trigger self.entries@[i]] #![trigger self.keys()[i]]
                0 <= i < self.entries@.len() ==> {
                &&& self.keys()[i] == self.entries@[i].0
                &&& self@.contains_key(self.keys()[i])
                &&& self@[self.keys()[i]] == self.entries@[i].1
            },
    {
        assert(self@.dom() =~= self.keys().to_set());
        ascending_is_unique(self.keys());
        self.keys().lemma_cardinality_of_set();
        assert forall|i: int| #![trigger self.entries@[i]] #![trigger self.keys()[i]]
            0 <= i < self.entries@.len() implies {
            &&& self.keys()[i] == self.entries@[i].0
            &&& self@.contains_key(self.keys()[i])
            &&& self@[self.keys()[i]] == self.entries@[i].1
        } by {
            let k = self.keys()[i];
            assert(self.keys().contains(k));
            let j = self.keys().index_of(k);
            assert(j == i) by {
                if j < i {
                    assert(self.keys()[j].rank() < self.keys()[i].rank());
                } else if i < j {
                    assert(self.keys()[i].rank() < self.keys()[j].rank());
                }
            }
        }
    }

    pub fn new() -> (r: SortedMap<K, V>)
        ensures
            r.wf(),
            r@ == Map::<K, V>::empty(),
    {
        let r = SortedMap { entries: Vec::new() };
        assert(r@.dom() =~= Set::empty());
        assert(r@ =~= Map::empty());
        r
    }

    pub fn len(&self) -> (r: usize)
        ensures
            r == self.keys().len(),
            r == self.entries@.len(),
    {
        self.entries.len()
    }

    /// Where `key` stands: the number of smaller keys, and whether it is
    /// there.
    pub fn find(&self, key: &K) -> (r: (usize, bool))
        requires
            self.wf(),
        ensures
            r.0 <= self.keys().len(),
            forall|i: int| 0 <= i < r.0 ==> (#[trigger] self.keys()[i]).rank() < key.rank(),
            forall|i: int| r.0 <= i < self.keys().len() ==> (#[trigger] self.keys()[i]).rank()
                >= key.rank(),
            r.1 == self@.contains_key(*key),
            r.1 ==> r.0 < self.keys().len() && self.keys()[r.0 as int] == *key,
    {
        let mut lo: usize = 0;
        let mut hi: usize = self.entries.len();
        while lo < hi
            invariant
                self.wf(),
                lo <= hi <= self.entries@.len(),
                forall|i: int| 0 <= i < lo ==> (#[trigger] self.keys()[i]).rank() < key.rank(),
                forall|i: int| hi <= i < self.keys().len() ==> (#[trigger] self.keys()[i]).rank()
                    >= key.rank(),
            decreases hi - lo,
        {
            let mid = lo + (hi - lo) / 2;
            assert(self.keys()[mid as int] == self.entries@[mid as int].0);
            if self.entries[mid].0.precedes(key) {
                lo = mid + 1;
            } else {
                hi = mid;
            }
        }
        let found = lo < self.entries.len() && !key.precedes(&self.entries[lo].0);
        proof {
            self.lemma_entries();
            if found {
                assert(self.keys()[lo as int] == self.entries@[lo as int].0);
                K::rank_is_injective(self.keys()[lo as int], *key);
            } else if self@.contains_key(*key) {
                let i = self.keys().index_of(*key);
                assert(self.keys()[i] == *key);
                if i > lo {
                    assert(self.keys()[lo as int].rank() < self.keys()[i].rank());
                }
                assert(self.keys()[lo as int] == self.entries@[lo as int].0);
            }
        }
        (lo, found)
    }

    pub fn contains_key(&self, key: &K) -> (r: bool)
        requires
            self.wf(),
        ensures
            r == self@.contains_key(*key),
    {
        self.find(key).1
    }

    pub fn get(&self, key: &K) -> (r: Option<&V>)
        requires
            self.wf(),
        ensures
            match r {
                Some(v) => self@.contains_key(*key) && *v == self@[*key],
                None => !self@.contains_key(*key),
            },
    {
        let (i, found) = self.find(key);
        if found {
            proof {
                self.lemma_entries();
            }
            Some(&self.entries[i].1)
        } else {
            None
        }
    }

    /// The value under `key`, to be changed in place.
    pub fn get_mut(&mut self, key: &K) -> (r: Option<&mut V>)
        requires
            old(self).wf(),
        ensures
            final(self).wf(),
            final(self).keys() == old(self).keys(),
            match r {
                Some(v) => old(self)@.contains_key(*key) && *v == old(self)@[*key]
                    && final(self)@ == old(self)@.insert(*key, *final(v)),
                None => !old(self)@.contains_key(*key) && final(self)@ == old(self)@,
            },
    {
        let (i, found) = self.find(key);
        if found {
            Some(self.value_at_mut(i))
        } else {
            None
        }
    }

    /// The key at position `i`.
    pub fn key_at(&self, i: usize) -> (r: K)
        requires
            self.wf(),
            i < self.entries@.len(),
        ensures
            r == self.keys()[i as int],
            r == self.entries@[i as int].0,
    {
        self.entries[i].0
    }

    /// The value at position `i`.
    pub fn value_at(&self, i: usize) -> (r: &V)
        requires
            self.wf(),
            i < self.entries@.len(),
        ensures
            *r == self@[self.keys()[i as int]],
            *r == self.entries@[i as int].1,
    {
        proof {
            self.lemma_entries();
        }
        &self.entries[i].1
    }

    /// The value at position `i`, to be changed in place.
    pub fn value_at_mut(&mut self, i: usize) -> (r: &mut V)
        requires
            old(self).wf(),
            i < old(self).entries@.len(),
        ensures
            final(self).wf(),
            final(self).keys() == old(self).keys(),
            *r == old(self).entries@[i as int].1,
            *r == old(self)@[old(self).keys()[i as int]],
            final(self).entries@ == old(self).entries@.update(
                i as int,
                (old(self).keys()[i as int], *final(r)),
            ),
            final(self)@ == old(self)@.insert(old(self).keys()[i as int], *final(r)),
    {
        proof {
            self.lemma_entries();
        }
        &mut self.entries[i].1
    }

    /// Puts `value` under `key`, replacing what was there.
    pub fn insert(&mut self, key: K, value: V) -> (r: Option<V>)
        requires
            old(self).wf(),
        ensures
            final(self).wf(),
            final(self)@ == old(self)@.insert(key, value),
            match r {
                Some(v) => old(self)@.contains_key(key) && v == old(self)@[key],
                None => !old(self)@.contains_key(key),
            },
    {
        let (i, found) = self.find(&key);
        proof {
            self.lemma_entries();
        }
        if found {
            let mut v = value;
            std::mem::swap(self.value_at_mut(i), &mut v);
            Some(v)
        } else {
            let ghost before = *self;
            self.entries.insert(i, (key, value));
            proof {
                assert(self.keys() =~= before.keys().insert(i as int, key));
                assert forall|a: int, b: int| 0 <= a < b < self.keys().len() implies (
                #[trigger] self.keys()[a]).rank() < (#[trigger] self.keys()[b]).rank() by {
                    if a == i {
                        let x = before.keys()[b - 1];
                        assert(x.rank() >= key.rank());
                        if x.rank() == key.rank() {
                            K::rank_is_injective(x, key);
                            assert(before@.contains_key(key));
                        }
                    } else if b == i {
                        assert(before.keys()[a].rank() < key.rank());
                    } else {
                        let a1 = if a < i { a } else { a - 1 };
                        let b1 = if b < i { b } else { b - 1 };
                        assert(before.keys()[a1].rank() < before.keys()[b1].rank());
                    }
                }
                self.lemma_entries();
                assert forall|k: K| self@.contains_key(k) <==> before@.insert(key, value).contains_key(
                    k,
                ) by {
                    if self.keys().contains(k) {
                        let x = self.keys().index_of(k);
                        if x < i {
                            assert(before.keys()[x] == k);
                        } else if x > i {
                            assert(before.keys()[x - 1] == k);
                        }
                    }
                    if before.keys().contains(k) {
                        let x = before.keys().index_of(k);
                        assert(self.keys()[if x < i { x } else { x + 1 }] == k);
                    }
                    assert(self.keys()[i as int] == key);
                }
                assert forall|k: K| self@.contains_key(k) implies #[trigger] self@[k]
                    == before@.insert(key, value)[k] by {
                    let x = self.keys().index_of(k);
                    assert(self.keys()[x] == k);
                    if x < i {
                        assert(before.keys()[x] == k);
                        assert(before.entries@[x] == self.entries@[x]);
                    } else if x > i {
                        assert(before.keys()[x - 1] == k);
                        assert(before.entries@[x - 1] == self.entries@[x]);
                    }
                }
                assert(self@ =~= before@.insert(key, value));
            }
            None
        }
    }

    /// Takes out what is under `key`.
    pub fn remove(&mut self, key: &K) -> (r: Option<V>)
        requires
            old(self).wf(),
        ensures
            final(self).wf(),
            final(self)@ == old(self)@.remove(*key),
            match r {
                Some(v) => old(self)@.contains_key(*key) && v == old(self)@[*key],
                None => !old(self)@.contains_key(*key),
            },
    {
        let (i, found) = self.find(key);
        if !found {
            assert(self@.remove(*key) =~= self@);
            return None;
        }
        proof {
            self.lemma_entries();
        }
        let ghost before = *self;
        let (_, value) = self.entries.remove(i);
        proof {
            assert(self.keys() =~= before.keys().remove(i as int));
            assert forall|a: int, b: int| 0 <= a < b < self.keys().len() implies (
            #[trigger] self.keys()[a]).rank() < (#[trigger] self.keys()[b]).rank() by {
                let a1 = if a < i { a } else { a + 1 };
                let b1 = if b < i { b } else { b + 1 };
                assert(before.keys()[a1].rank() < before.keys()[b1].rank());
            }
            self.lemma_entries();
            assert forall|k: K| self@.contains_key(k) <==> before@.remove(*key).contains_key(k) by {
                if self.keys().contains(k) {
                    let x = self.keys().index_of(k);
                    let x1 = if x < i { x } else { x + 1 };
                    assert(before.keys()[x1] == k);
                    if x1 < i {
                        assert(before.keys()[x1].rank() < before.keys()[i as int].rank());
                    } else {
                        assert(before.keys()[i as int].rank() < before.keys()[x1].rank());
                    }
                }
                if before.keys().contains(k) && k != *key {
                    let x = before.keys().index_of(k);
                    assert(x != i);
                    assert(self.keys()[if x < i { x } else { x - 1 }] == k);
                }
            }
            assert forall|k: K| self@.contains_key(k) implies #[trigger] self@[k]
                == before@.remove(*key)[k] by {
                let x = self.keys().index_of(k);
                assert(self.keys()[x] == k);
                let x1 = if x < i { x } else { x + 1 };
                assert(before.keys()[x1] == k);
                assert(before.entries@[x1] == self.entries@[x]);
            }
            assert(self@ =~= before@.remove(*key));
        }
        Some(value)
    }
}

} // verus!
