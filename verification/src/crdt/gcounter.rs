//! Grow-only counter (state-based CRDT).
use std::collections::HashMap;

use vstd::prelude::*;
use vstd::std_specs::iter::IteratorSpec;

use crate::PeerId;

verus! {

/// A grow-only counter: one slot per peer, the value is the sum of the slots.
#[derive(Debug, Clone, PartialEq, Eq)]
pub struct GCounter {
    counts: HashMap<PeerId, u64>,
}

impl View for GCounter {
    type V = Map<PeerId, u64>;

    closed spec fn view(&self) -> Map<PeerId, u64> {
        self.counts@
    }
}

/// The value a slot holds, 0 for a peer that has no slot.
pub open spec fn slot(m: Map<PeerId, u64>, peer: PeerId) -> nat {
    if m.contains_key(peer) { m[peer] as nat } else { 0 }
}

/// Folding step of the sum: add the slot of one peer.
pub open spec fn add_slot(m: Map<PeerId, u64>) -> spec_fn(nat, PeerId) -> nat {
    |acc: nat, k: PeerId| acc + slot(m, k)
}

/// Element-wise maximum of two slot maps over the union of their peers.
pub open spec fn join(a: Map<PeerId, u64>, b: Map<PeerId, u64>) -> Map<PeerId, u64> {
    Map::new(
        |k: PeerId| a.contains_key(k) || b.contains_key(k),
        |k: PeerId| if slot(a, k) >= slot(b, k) { slot(a, k) as u64 } else { slot(b, k) as u64 },
    )
}

/// Sum of the slots of the peers in `peers`.
pub open spec fn sum_over(m: Map<PeerId, u64>, peers: Set<PeerId>) -> nat {
    peers.fold(0nat, add_slot(m))
}

/// Sum of all slots.
pub open spec fn slot_sum(m: Map<PeerId, u64>) -> nat {
    sum_over(m, m.dom())
}

proof fn lemma_add_slot_commutative(m: Map<PeerId, u64>)
    ensures
        vstd::set::fold::is_fun_commutative(add_slot(m)),
{
}

proof fn lemma_sum_over_insert(m: Map<PeerId, u64>, peers: Set<PeerId>, p: PeerId)
    requires
        peers.finite(),
        !peers.contains(p),
    ensures
        sum_over(m, peers.insert(p)) == sum_over(m, peers) + slot(m, p),
{
    lemma_add_slot_commutative(m);
    vstd::set::fold::lemma_fold_insert(peers, 0nat, add_slot(m), p);
}

proof fn lemma_sum_over_empty(m: Map<PeerId, u64>)
    ensures
        sum_over(m, Set::empty()) == 0,
{
    vstd::set::fold::lemma_fold_empty(0nat, add_slot(m));
}

proof fn lemma_sum_over_remove(m: Map<PeerId, u64>, peers: Set<PeerId>, p: PeerId)
    requires
        peers.finite(),
        peers.contains(p),
    ensures
        sum_over(m, peers) == sum_over(m, peers.remove(p)) + slot(m, p),
{
    lemma_sum_over_insert(m, peers.remove(p), p);
    assert(peers.remove(p).insert(p) =~= peers);
}

/// The sum over a subset is at most the sum over the whole set.
proof fn lemma_sum_over_subset(m: Map<PeerId, u64>, small: Set<PeerId>, large: Set<PeerId>)
    requires
        large.finite(),
        small.subset_of(large),
    ensures
        sum_over(m, small) <= sum_over(m, large),
    decreases large.len(),
{
    if small =~= large {
    } else {
        let a = choose|a: PeerId| large.contains(a) && !small.contains(a);
        lemma_sum_over_remove(m, large, a);
        lemma_sum_over_subset(m, small, large.remove(a));
    }
}

impl GCounter {
    /// An empty counter: no slots, value 0.
    pub fn new() -> (g: Self)
        ensures
            g@ == Map::<PeerId, u64>::empty(),
            g@.dom().finite(),
    {
        GCounter { counts: HashMap::new() }
    }

    /// The slot of `peer`, 0 when it has none.
    pub fn count_of(&self, peer: PeerId) -> (c: u64)
        ensures
            c == slot(self@, peer),
    {
        match self.counts.get(&peer) {
            Some(v) => *v,
            None => 0,
        }
    }

    /// Every slot as a `(peer, count)` pair, each once, in no particular order.
    pub fn slots(&self) -> (r: Vec<(PeerId, u64)>)
        ensures
            r@.to_set() == self@.kv_pairs(),
            r@.no_duplicates(),
            r@.len() == self@.dom().len(),
    {
        let mut r: Vec<(PeerId, u64)> = Vec::new();
        let ghost sq = vstd::std_specs::hash::spec_hash_map_iter(&self.counts).remaining();
        for (peer, v) in it: self.counts.iter()
            invariant
                sq == vstd::std_specs::hash::spec_hash_map_iter(&self.counts).remaining(),
                it.seq() == sq,
                r@ == sq.unref().take(it.index()),
        {
            proof {
                assert(sq[it.index()] == (peer, v));
                assert(sq.unref().take(it.index() + 1) =~= sq.unref().take(it.index()).push(
                    (*peer, *v),
                ));
            }
            r.push((*peer, *v));
        }
        proof {
            assert(sq.unref().take(sq.len() as int) =~= sq.unref());
            assert(sq.no_duplicates());
            assert forall|i: int, j: int| 0 <= i < j < r@.len() implies r@[i] != r@[j] by {
                assert(sq[i] != sq[j]);
            }
        }
        r
    }

    /// Increment this peer's slot. Only the owning peer should call this.
    pub fn increment(&mut self, peer: PeerId, by: u64)
        requires
            slot(old(self)@, peer) + by <= u64::MAX,
        ensures
            final(self)@ == old(self)@.insert(peer, (slot(old(self)@, peer) + by) as u64),
            final(self)@.dom().finite(),
    {
        let cur: u64 = match self.counts.get(&peer) {
            Some(v) => *v,
            None => 0,
        };
        self.counts.insert(peer, cur + by);
        proof {
            vstd::std_specs::hash::axiom_hashmap_view_finite_dom(self.counts);
        }
    }

    /// Element-wise max merge: commutative, associative, idempotent.
    pub fn merge(&mut self, other: &GCounter)
        ensures
            final(self)@ == join(old(self)@, other@),
            final(self)@.dom().finite(),
    {
        let ghost start = self@;
        let ghost m = other@;
        let ghost sq = vstd::std_specs::hash::spec_hash_map_iter(&other.counts).remaining();
        let ghost mut idx: int = 0;
        let ghost mut seen: Set<PeerId> = Set::empty();
        proof {
            assert(join(start, m.restrict(seen)) =~= start);
        }
        for (peer, v) in it: other.counts.iter()
            invariant
                m == other@,
                sq == vstd::std_specs::hash::spec_hash_map_iter(&other.counts).remaining(),
                it.seq() == sq,
                sq.no_duplicates(),
                idx == it.index(),
                seen.subset_of(m.dom()),
                forall|k: PeerId|
                    seen.contains(k) <==> exists|j: int| 0 <= j < idx && *(#[trigger] sq[j]).0 == k,
                self@ == join(start, m.restrict(seen)),
        {
            let ghost i = idx;
            proof {
                assert(sq[i] == (peer, v));
                assert(m.contains_key(*sq[i].0) && m[*sq[i].0] == *sq[i].1);
            }
            let cur: u64 = match self.counts.get(peer) {
                Some(c) => *c,
                None => 0,
            };
            if *v > cur {
                self.counts.insert(*peer, *v);
            } else {
                self.counts.insert(*peer, cur);
            }
            proof {
                seen = seen.insert(*peer);
                idx = idx + 1;
                assert forall|k: PeerId|
                    seen.contains(k) <==> exists|j: int| 0 <= j < idx && *(#[trigger] sq[j]).0 == k by {
                    if k == *peer {
                        assert(*sq[i].0 == k);
                    }
                }
                assert(self@ =~= join(start, m.restrict(seen)));
            }
        }
        proof {
            assert forall|k: PeerId| m.dom().contains(k) implies seen.contains(k) by {
                assert(idx == sq.len());
                assert(m.contains_key(k));
                assert(sq.contains((&k, &m[k])));
                let j = choose|j: int| 0 <= j < sq.len() && sq[j] == (&k, &m[k]);
                assert(*sq[j].0 == k);
            }
            assert(m.restrict(seen) =~= m);
            vstd::std_specs::hash::axiom_hashmap_view_finite_dom(self.counts);
        }
    }

    /// Total value across all replicas observed so far: the sum of the slots.
    pub fn value(&self) -> (total: u64)
        requires
            slot_sum(self@) <= u64::MAX,
        ensures
            total == slot_sum(self@),
    {
        let mut total: u64 = 0;
        let ghost mut seen: Set<PeerId> = Set::empty();
        let ghost m = self@;
        let ghost sq = vstd::std_specs::hash::spec_hash_map_iter(&self.counts).remaining();
        let ghost mut idx: int = 0;
        proof {
            lemma_sum_over_empty(m);
        }
        for (peer, v) in it: self.counts.iter()
            invariant
                m == self@,
                sq == vstd::std_specs::hash::spec_hash_map_iter(&self.counts).remaining(),
                it.seq() == sq,
                sq.no_duplicates(),
                idx == it.index(),
                seen.finite(),
                seen.subset_of(m.dom()),
                forall|k: PeerId|
                    seen.contains(k) <==> exists|j: int|
                        0 <= j < idx && *(#[trigger] sq[j]).0 == k,
                total == sum_over(m, seen),
                slot_sum(m) <= u64::MAX,
        {
            let ghost i = idx;
            proof {
                assert(sq[i] == (peer, v));
                assert(m.contains_key(*sq[i].0) && m[*sq[i].0] == *sq[i].1);
                if seen.contains(*peer) {
                    let j = choose|j: int| 0 <= j < i && *(#[trigger] sq[j]).0 == *peer;
                    assert(m.contains_key(*sq[j].0) && m[*sq[j].0] == *sq[j].1);
                    assert(sq[j] == sq[i]);
                    assert(false);
                }
                lemma_sum_over_insert(m, seen, *peer);
                lemma_sum_over_subset(m, seen.insert(*peer), m.dom());
            }
            total = total + *v;
            proof {
                seen = seen.insert(*peer);
                idx = idx + 1;
                assert forall|k: PeerId|
                    seen.contains(k) <==> exists|j: int|
                        0 <= j < idx && *(#[trigger] sq[j]).0 == k by {
                    if k == *peer {
                        assert(*sq[i].0 == k);
                    }
                }
            }
        }
        proof {
            assert forall|k: PeerId| m.dom().contains(k) implies seen.contains(k) by {
                assert(idx == sq.len());
                assert(m.contains_key(k));
                assert(sq.contains((&k, &m[k])));
                let j = choose|j: int| 0 <= j < sq.len() && sq[j] == (&k, &m[k]);
                assert(*sq[j].0 == k);
            }
            assert(seen =~= m.dom());
        }
        total
    }
}

impl Default for GCounter {
    fn default() -> (g: Self)
        ensures
            g@ == Map::<PeerId, u64>::empty(),
            g@.dom().finite(),
    {
        GCounter::new()
    }
}

/// Two slot maps that agree on `peers` have the same sum over `peers`.
proof fn lemma_sum_over_congruent(a: Map<PeerId, u64>, b: Map<PeerId, u64>, peers: Set<PeerId>)
    requires
        peers.finite(),
        forall|k: PeerId| peers.contains(k) ==> slot(a, k) == slot(b, k),
    ensures
        sum_over(a, peers) == sum_over(b, peers),
    decreases peers.len(),
{
    if peers.len() == 0 {
        assert(peers =~= Set::empty());
        lemma_sum_over_empty(a);
        lemma_sum_over_empty(b);
    } else {
        let p = peers.choose();
        lemma_sum_over_remove(a, peers, p);
        lemma_sum_over_remove(b, peers, p);
        lemma_sum_over_congruent(a, b, peers.remove(p));
    }
}

/// Pointwise smaller slots give a smaller sum over the same peers.
proof fn lemma_sum_over_pointwise(a: Map<PeerId, u64>, b: Map<PeerId, u64>, peers: Set<PeerId>)
    requires
        peers.finite(),
        forall|k: PeerId| peers.contains(k) ==> slot(a, k) <= slot(b, k),
    ensures
        sum_over(a, peers) <= sum_over(b, peers),
    decreases peers.len(),
{
    if peers.len() == 0 {
        assert(peers =~= Set::empty());
        lemma_sum_over_empty(a);
        lemma_sum_over_empty(b);
    } else {
        let p = peers.choose();
        lemma_sum_over_remove(a, peers, p);
        lemma_sum_over_remove(b, peers, p);
        lemma_sum_over_pointwise(a, b, peers.remove(p));
    }
}

/// Merging is commutative: `merge(a, b) == merge(b, a)`.
pub proof fn lemma_join_commutative(a: Map<PeerId, u64>, b: Map<PeerId, u64>)
    ensures
        join(a, b) == join(b, a),
{
    assert(join(a, b) =~= join(b, a));
}

/// Merging is associative: `merge(a, merge(b, c)) == merge(merge(a, b), c)`.
pub proof fn lemma_join_associative(a: Map<PeerId, u64>, b: Map<PeerId, u64>, c: Map<PeerId, u64>)
    ensures
        join(a, join(b, c)) == join(join(a, b), c),
{
    assert(join(a, join(b, c)) =~= join(join(a, b), c));
}

/// Merging is idempotent: `merge(a, a) == a`.
pub proof fn lemma_join_idempotent(a: Map<PeerId, u64>)
    ensures
        join(a, a) == a,
{
    assert(join(a, a) =~= a);
}

/// A merge never loses a slot or lowers one: the result is an upper bound of both inputs.
pub proof fn lemma_join_upper_bound(a: Map<PeerId, u64>, b: Map<PeerId, u64>, peer: PeerId)
    ensures
        slot(a, peer) <= slot(join(a, b), peer),
        slot(b, peer) <= slot(join(a, b), peer),
        a.contains_key(peer) ==> join(a, b).contains_key(peer),
        b.contains_key(peer) ==> join(a, b).contains_key(peer),
{
}

/// Incrementing a peer's slot by `by` raises the counter's value by exactly `by`.
pub proof fn lemma_increment_value(m: Map<PeerId, u64>, peer: PeerId, by: u64)
    requires
        m.dom().finite(),
        slot(m, peer) + by <= u64::MAX,
    ensures
        slot_sum(m.insert(peer, (slot(m, peer) + by) as u64)) == slot_sum(m) + by,
{
    let m2 = m.insert(peer, (slot(m, peer) + by) as u64);
    let rest = m.dom().remove(peer);
    assert(m2.dom().remove(peer) =~= rest);
    lemma_sum_over_congruent(m, m2, rest);
    lemma_sum_over_insert(m2, rest, peer);
    assert(rest.insert(peer) =~= m2.dom());
    if m.contains_key(peer) {
        lemma_sum_over_remove(m, m.dom(), peer);
    } else {
        assert(rest =~= m.dom());
    }
}

/// The value of a merged counter is at least the value of either input.
pub proof fn lemma_join_value_monotone(a: Map<PeerId, u64>, b: Map<PeerId, u64>)
    requires
        a.dom().finite(),
        b.dom().finite(),
    ensures
        slot_sum(a) <= slot_sum(join(a, b)),
        slot_sum(b) <= slot_sum(join(a, b)),
{
    let j = join(a, b);
    assert(j.dom() =~= a.dom() + b.dom());
    lemma_sum_over_pointwise(a, j, a.dom());
    lemma_sum_over_subset(j, a.dom(), j.dom());
    lemma_sum_over_pointwise(b, j, b.dom());
    lemma_sum_over_subset(j, b.dom(), j.dom());
}

/// Every counter has finitely many slots.
pub proof fn lemma_slots_finite(g: &GCounter)
    ensures
        g@.dom().finite(),
{
    vstd::std_specs::hash::axiom_hashmap_view_finite_dom(g.counts);
}

} // verus!
