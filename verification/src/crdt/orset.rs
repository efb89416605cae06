//! Observed-Remove Set.
//!
//! Each `add(x)` attaches a fresh tag to the element. `remove(x)` records the
//! tags currently observed for `x` as tombstones. The element is in the set iff
//! it has at least one tag not yet tombstoned, so a concurrent add wins over a
//! remove that never observed its tag.
use std::collections::{HashMap, HashSet};
use std::hash::Hash;

use vstd::prelude::*;
use vstd::std_specs::hash::obeys_key_model;
use vstd::std_specs::iter::IteratorSpec;

verus! {

/// A tag that identifies one `add`.
pub type Tag = u128;

/// An observed-remove set of elements of type `T`.
///
/// Tags are the 128-bit values of random version-4 UUIDs. The operations
/// require that `T` obeys vstd's hash-key model (hashing is deterministic,
/// `==` is identity and a clone equals its original), as the integers do.
#[derive(Debug, Clone, PartialEq, Eq)]
pub struct OrSet<T: Eq + Hash + Clone> {
    /// element -> set of add tags
    adds: HashMap<T, HashSet<Tag>>,
    /// element -> set of tombstoned tags
    removes: HashMap<T, HashSet<Tag>>,
}

/// The tag sets of a map of hash sets, as mathematical sets.
pub open spec fn tag_view<T>(m: Map<T, HashSet<Tag>>) -> Map<T, Set<Tag>> {
    m.map_values(|s: HashSet<Tag>| s@)
}

/// The tags recorded for `x`, empty when there are none.
pub open spec fn tags_of<T>(m: Map<T, Set<Tag>>, x: T) -> Set<Tag> {
    if m.contains_key(x) {
        m[x]
    } else {
        Set::empty()
    }
}

/// Whether `x` has an add tag that is not tombstoned.
pub open spec fn is_live<T>(added: Map<T, Set<Tag>>, removed: Map<T, Set<Tag>>, x: T) -> bool {
    exists|t: Tag| tags_of(added, x).contains(t) && !tags_of(removed, x).contains(t)
}

/// Per-element union of two tag maps.
pub open spec fn union_tags<T>(a: Map<T, Set<Tag>>, b: Map<T, Set<Tag>>) -> Map<T, Set<Tag>> {
    Map::new(|k: T| a.contains_key(k) || b.contains_key(k), |k: T| tags_of(a, k) + tags_of(b, k))
}

/// The elements whose every add tag is tombstoned.
pub open spec fn dead_elements<T>(added: Map<T, Set<Tag>>, removed: Map<T, Set<Tag>>) -> Set<T> {
    Set::new(
        |e: T|
            added.contains_key(e) && removed.contains_key(e) && added[e].subset_of(removed[e]),
    )
}

/// Draws a fresh random tag by calling `uuid::Uuid::new_v4` and reading it as a
/// `u128` with `Uuid::as_u128`. The value is random; every outcome carries the
/// version-4 and RFC 4122 variant bits that `new_v4` sets, which is all that is stated.
#[verifier::external_body]
fn fresh_tag() -> (t: Tag)
    ensures
        t & 0x0000_0000_0000_f000_c000_0000_0000_0000u128 == 0x0000_0000_0000_4000_8000_0000_0000_0000u128,
{
    uuid::Uuid::new_v4().as_u128()
}

/// Clones an element with its own `Clone::clone`. vstd's hash-key model, which
/// every key type of a verified hash map is assumed to obey, includes that a
/// clone is identical to the original; for such types the result equals the input.
/// Nothing is stated for other types.
#[verifier::external_body]
fn clone_element<T: Clone>(x: &T) -> (r: T)
    ensures
        obeys_key_model::<T>() ==> r == *x,
{
    x.clone()
}

/// The elements the first `n` references of `sq` point to.
pub open spec fn prefix_set<A>(sq: Seq<&A>, n: int) -> Set<A> {
    Set::new(|x: A| exists|j: int| 0 <= j < n && *sq[j] == x)
}

proof fn lemma_prefix_set_step<A>(sq: Seq<&A>, n: int)
    requires
        0 <= n < sq.len(),
    ensures
        prefix_set(sq, n + 1) == prefix_set(sq, n).insert(*sq[n]),
{
    assert forall|x: A| prefix_set(sq, n + 1).contains(x) <==> prefix_set(sq, n).insert(
        *sq[n],
    ).contains(x) by {
        if prefix_set(sq, n + 1).contains(x) && x != *sq[n] {
            let j = choose|j: int| 0 <= j < n + 1 && *sq[j] == x;
            assert(j != n);
        }
    }
    assert(prefix_set(sq, n + 1) =~= prefix_set(sq, n).insert(*sq[n]));
}

proof fn lemma_prefix_set_full<A>(sq: Seq<&A>)
    ensures
        prefix_set(sq, sq.len() as int) == sq.unref().to_set(),
{
    assert forall|x: A| prefix_set(sq, sq.len() as int).contains(x) <==> sq.unref().to_set().contains(
        x,
    ) by {
        if sq.unref().to_set().contains(x) {
            assert(sq.unref().contains(x));
            let j = choose|j: int| 0 <= j < sq.unref().len() && sq.unref()[j] == x;
            assert(*sq[j] == x);
        }
        if prefix_set(sq, sq.len() as int).contains(x) {
            let j = choose|j: int| 0 <= j < sq.len() && *sq[j] == x;
            assert(sq.unref()[j] == x);
            assert(sq.unref().contains(x));
        }
    }
    assert(prefix_set(sq, sq.len() as int) =~= sq.unref().to_set());
}

/// Adds every tag of `src` to `dst`.
fn union_into(dst: &mut HashSet<Tag>, src: &HashSet<Tag>)
    ensures
        final(dst)@ == old(dst)@ + src@,
{
    let ghost start = dst@;
    let ghost sq = vstd::std_specs::hash::spec_hash_keys_iter(src).remaining();
    let ghost mut idx: int = 0;
    proof {
        assert(start + prefix_set(sq, 0) =~= start);
    }
    for t in it: src.iter()
        invariant
            sq == vstd::std_specs::hash::spec_hash_keys_iter(src).remaining(),
            it.seq() == sq,
            idx == it.index(),
            dst@ == start + prefix_set(sq, idx),
    {
        proof {
            assert(sq[idx] == t);
            lemma_prefix_set_step(sq, idx);
        }
        dst.insert(*t);
        proof {
            idx = idx + 1;
            assert(dst@ =~= start + prefix_set(sq, idx));
        }
    }
    proof {
        assert(idx == sq.len());
        lemma_prefix_set_full(sq);
    }
}

/// Whether every tag of `a` is in `b`.
fn tags_subset(a: &HashSet<Tag>, b: &HashSet<Tag>) -> (r: bool)
    ensures
        r == a@.subset_of(b@),
{
    let ghost sq = vstd::std_specs::hash::spec_hash_keys_iter(a).remaining();
    let ghost mut idx: int = 0;
    proof {
        assert(prefix_set(sq, 0) =~= Set::empty());
        lemma_prefix_set_full(sq);
    }
    for t in it: a.iter()
        invariant
            sq == vstd::std_specs::hash::spec_hash_keys_iter(a).remaining(),
            sq.unref().to_set() == a@,
            prefix_set(sq, sq.len() as int) == a@,
            it.seq() == sq,
            idx == it.index(),
            prefix_set(sq, idx).subset_of(b@),
    {
        proof {
            assert(sq[idx] == t);
            lemma_prefix_set_step(sq, idx);
        }
        if !b.contains(t) {
            proof {
                assert(prefix_set(sq, sq.len() as int).contains(*t)) by {
                    assert(0 <= idx < sq.len() && *sq[idx] == *t);
                }
            }
            return false;
        }
        proof {
            idx = idx + 1;
        }
    }
    proof {
        assert(idx == sq.len());
    }
    true
}

impl<T: Eq + Hash + Clone> View for OrSet<T> {
    /// The add tags and the tombstoned tags of each element.
    type V = (Map<T, Set<Tag>>, Map<T, Set<Tag>>);

    closed spec fn view(&self) -> (Map<T, Set<Tag>>, Map<T, Set<Tag>>) {
        (tag_view(self.adds@), tag_view(self.removes@))
    }
}

/// Adds, for every element of `src`, its tags to the element's tags in `dst`.
fn merge_tag_maps<T: Eq + Hash + Clone>(dst: &mut HashMap<T, HashSet<Tag>>, src: &HashMap<T, HashSet<Tag>>)
    requires
        obeys_key_model::<T>(),
    ensures
        tag_view(final(dst)@) == union_tags(tag_view(old(dst)@), tag_view(src@)),
{
    let ghost start = tag_view(dst@);
    let ghost m = tag_view(src@);
    let ghost sq = vstd::std_specs::hash::spec_hash_map_iter(src).remaining();
    let ghost mut idx: int = 0;
    let ghost mut seen: Set<T> = Set::empty();
    proof {
        assert forall|x: T| #[trigger] start.contains_key(x) implies union_tags(start, m.restrict(seen))[x] == start[x] by {
            assert(union_tags(start, m.restrict(seen))[x] =~= start[x]);
        }
        assert(union_tags(start, m.restrict(seen)) =~= start);
    }
    for (k, tags) in it: src.iter()
        invariant
            obeys_key_model::<T>(),
            m == tag_view(src@),
            sq == vstd::std_specs::hash::spec_hash_map_iter(src).remaining(),
            it.seq() == sq,
            idx == it.index(),
            seen.subset_of(m.dom()),
            forall|x: T| seen.contains(x) <==> exists|j: int| 0 <= j < idx && *(#[trigger] sq[j]).0 == x,
            tag_view(dst@) == union_tags(start, m.restrict(seen)),
    {
        let ghost i = idx;
        proof {
            assert(sq[i] == (k, tags));
            assert(src@.contains_key(*sq[i].0) && src@[*sq[i].0] == *sq[i].1);
        }
        let ghost old_dst = tag_view(dst@);
        let ghost old_seen = seen;
        let mut merged = match dst.remove(k) {
            Some(s) => s,
            None => HashSet::new(),
        };
        let ghost before = merged@;
        proof {
            assert(before == tags_of(old_dst, *k));
        }
        union_into(&mut merged, tags);
        dst.insert(clone_element(k), merged);
        proof {
            seen = seen.insert(*k);
            idx = idx + 1;
            assert forall|x: T| seen.contains(x) <==> exists|j: int| 0 <= j < idx && *(#[trigger] sq[j]).0 == x by {
                if x == *k {
                    assert(*sq[i].0 == x);
                }
            }
            let u = union_tags(start, m.restrict(seen));
            assert forall|x: T| #[trigger] u.contains_key(x) implies tag_view(dst@).contains_key(x) && tag_view(dst@)[x] == u[x] by {
                if x == *k {
                    assert(tag_view(dst@)[x] =~= u[x]);
                } else {
                    let uo = union_tags(start, m.restrict(old_seen));
                    assert(uo.contains_key(x));
                    assert(old_dst[x] == uo[x]);
                    assert(tags_of(m.restrict(seen), x) == tags_of(m.restrict(old_seen), x));
                    assert(tag_view(dst@)[x] == old_dst[x]);
                }
            }
            assert forall|x: T| tag_view(dst@).contains_key(x) implies #[trigger] u.contains_key(x) by {
                if x != *k {
                    assert(old_dst.contains_key(x));
                }
            }
            assert(tag_view(dst@).dom() =~= u.dom());
            assert(tag_view(dst@) =~= u);
        }
    }
    proof {
        assert forall|x: T| m.dom().contains(x) implies seen.contains(x) by {
            assert(idx == sq.len());
            assert(src@.contains_key(x));
            assert(sq.contains((&x, &src@[x])));
            let j = choose|j: int| 0 <= j < sq.len() && sq[j] == (&x, &src@[x]);
            assert(*sq[j].0 == x);
        }
        assert(m.restrict(seen) =~= m);
    }
}

impl<T: Eq + Hash + Clone> OrSet<T> {
    /// An empty set.
    pub fn new() -> (s: Self)
        ensures
            s@.0 == Map::<T, Set<Tag>>::empty(),
            s@.1 == Map::<T, Set<Tag>>::empty(),
    {
        let s = OrSet { adds: HashMap::new(), removes: HashMap::new() };
        proof {
            assert(s@.0 =~= Map::<T, Set<Tag>>::empty());
            assert(s@.1 =~= Map::<T, Set<Tag>>::empty());
        }
        s
    }

    /// Add `element` under a fresh tag, and return the tag.
    pub fn add(&mut self, element: T) -> (tag: Tag)
        requires
            obeys_key_model::<T>(),
        ensures
            final(self)@.0 == old(self)@.0.insert(element, tags_of(old(self)@.0, element).insert(tag)),
            final(self)@.1 == old(self)@.1,
            tag & 0x0000_0000_0000_f000_c000_0000_0000_0000u128 == 0x0000_0000_0000_4000_8000_0000_0000_0000u128,
    {
        let tag = fresh_tag();
        self.add_tagged(element, tag);
        tag
    }

    /// Add `element` under the given tag.
    pub fn add_tagged(&mut self, element: T, tag: Tag)
        requires
            obeys_key_model::<T>(),
        ensures
            final(self)@.0 == old(self)@.0.insert(element, tags_of(old(self)@.0, element).insert(tag)),
            final(self)@.1 == old(self)@.1,
    {
        let mut tags = match self.adds.remove(&element) {
            Some(s) => s,
            None => HashSet::new(),
        };
        tags.insert(tag);
        self.adds.insert(element, tags);
        proof {
            assert(self@.0 =~= old(self)@.0.insert(element, tags_of(old(self)@.0, element).insert(tag)));
        }
    }

    /// Tombstone every currently-observed tag of `element`.
    pub fn remove(&mut self, element: &T)
        requires
            obeys_key_model::<T>(),
        ensures
            final(self)@.0 == old(self)@.0,
            final(self)@.1 == (if old(self)@.0.contains_key(*element) {
                old(self)@.1.insert(*element, tags_of(old(self)@.1, *element) + old(self)@.0[*element])
            } else {
                old(self)@.1
            }),
    {
        match self.adds.get(element) {
            Some(tags) => {
                let mut dead = match self.removes.remove(element) {
                    Some(s) => s,
                    None => HashSet::new(),
                };
                union_into(&mut dead, tags);
                self.removes.insert(clone_element(element), dead);
                proof {
                    assert(self@.1 =~= old(self)@.1.insert(*element, tags_of(old(self)@.1, *element) + old(self)@.0[*element]));
                }
            },
            None => {},
        }
    }

    /// Whether `element` has an add tag that is not tombstoned.
    pub fn contains(&self, element: &T) -> (r: bool)
        requires
            obeys_key_model::<T>(),
        ensures
            r == is_live(self@.0, self@.1, *element),
    {
        match self.adds.get(element) {
            Some(a) => match self.removes.get(element) {
                Some(d) => {
                    let sub = tags_subset(a, d);
                    proof {
                        if !sub {
                            let t = choose|t: Tag| a@.contains(t) && !d@.contains(t);
                            assert(tags_of(self@.0, *element).contains(t));
                        }
                    }
                    !sub
                },
                None => {
                    let empty = a.is_empty();
                    proof {
                        if !empty {
                            assert(!(a@ =~= Set::empty()));
                            let t = choose|t: Tag| a@.contains(t);
                            assert(tags_of(self@.0, *element).contains(t));
                        } else {
                            assert(a@ =~= Set::empty());
                        }
                    }
                    !empty
                },
            },
            None => false,
        }
    }

    /// Merge another replica into this one: per-element union of add tags and of tombstones.
    pub fn merge(&mut self, other: &Self)
        requires
            obeys_key_model::<T>(),
        ensures
            final(self)@.0 == union_tags(old(self)@.0, other@.0),
            final(self)@.1 == union_tags(old(self)@.1, other@.1),
    {
        merge_tag_maps(&mut self.adds, &other.adds);
        merge_tag_maps(&mut self.removes, &other.removes);
    }

    /// Drop the entries of elements whose every add tag is tombstoned on this replica.
    ///
    /// Not safe during live replication: an add tag that another replica holds
    /// and this one has not seen yet would resurface the element without its tombstone.
    pub fn compact(&mut self)
        requires
            obeys_key_model::<T>(),
        ensures
            final(self)@.0 == old(self)@.0.remove_keys(dead_elements(old(self)@.0, old(self)@.1)),
            final(self)@.1 == old(self)@.1.remove_keys(dead_elements(old(self)@.0, old(self)@.1)),
    {
        let ghost start = self@;
        let ghost dead_set = dead_elements(self@.0, self@.1);
        let ghost sq = vstd::std_specs::hash::spec_hash_map_iter(&self.adds).remaining();
        let ghost mut idx: int = 0;
        let ghost mut seen: Set<T> = Set::empty();
        let mut dead: Vec<T> = Vec::new();
        for (elem, add_tags) in it: self.adds.iter()
            invariant
                obeys_key_model::<T>(),
                start == self@,
                dead_set == dead_elements(start.0, start.1),
                sq == vstd::std_specs::hash::spec_hash_map_iter(&self.adds).remaining(),
                it.seq() == sq,
                idx == it.index(),
                forall|x: T| seen.contains(x) <==> exists|j: int| 0 <= j < idx && *(#[trigger] sq[j]).0 == x,
                forall|x: T| dead@.contains(x) <==> dead_set.contains(x) && seen.contains(x),
        {
            let ghost i = idx;
            proof {
                assert(sq[i] == (elem, add_tags));
                assert(self.adds@.contains_key(*sq[i].0) && self.adds@[*sq[i].0] == *sq[i].1);
            }
            let is_dead = match self.removes.get(elem) {
                Some(removed) => tags_subset(add_tags, removed),
                None => false,
            };
            let ghost old_dead = dead@;
            if is_dead {
                dead.push(clone_element(elem));
            }
            proof {
                seen = seen.insert(*elem);
                idx = idx + 1;
                assert forall|x: T| seen.contains(x) <==> exists|j: int| 0 <= j < idx && *(#[trigger] sq[j]).0 == x by {
                    if x == *elem {
                        assert(*sq[i].0 == x);
                    }
                }
                assert forall|x: T| dead@.contains(x) <==> dead_set.contains(x) && seen.contains(x) by {
                    if is_dead && x == *elem {
                        assert(dead@[dead@.len() - 1] == x);
                    }
                    if dead@.contains(x) && x != *elem {
                        let j = choose|j: int| 0 <= j < dead@.len() && dead@[j] == x;
                        assert(old_dead[j] == x);
                        assert(old_dead.contains(x));
                    }
                    if old_dead.contains(x) {
                        let j = choose|j: int| 0 <= j < old_dead.len() && old_dead[j] == x;
                        assert(dead@[j] == x);
                    }
                }
            }
        }
        proof {
            assert forall|x: T| dead_set.contains(x) implies seen.contains(x) by {
                assert(idx == sq.len());
                assert(self.adds@.contains_key(x));
                assert(sq.contains((&x, &self.adds@[x])));
                let j = choose|j: int| 0 <= j < sq.len() && sq[j] == (&x, &self.adds@[x]);
                assert(*sq[j].0 == x);
            }
        }
        let ghost mut gone: Set<T> = Set::empty();
        let mut i: usize = 0;
        while i < dead.len()
            invariant
                obeys_key_model::<T>(),
                i <= dead.len(),
                forall|x: T| dead@.contains(x) <==> dead_set.contains(x),
                gone == Set::new(|x: T| exists|j: int| 0 <= j < i && dead@[j] == x),
                self@.0 == start.0.remove_keys(gone),
                self@.1 == start.1.remove_keys(gone),
            decreases dead.len() - i,
        {
            let ghost pre = self@;
            self.adds.remove(&dead[i]);
            self.removes.remove(&dead[i]);
            proof {
                assert(self@.0 =~= pre.0.remove(dead@[i as int]));
                assert(self@.1 =~= pre.1.remove(dead@[i as int]));
                let next = Set::new(|x: T| exists|j: int| 0 <= j < i + 1 && dead@[j] == x);
                assert(next =~= gone.insert(dead@[i as int]));
                gone = next;
                assert(self@.0 =~= start.0.remove_keys(gone));
                assert(self@.1 =~= start.1.remove_keys(gone));
            }
            i = i + 1;
        }
        proof {
            assert forall|x: T| gone.contains(x) <==> dead_set.contains(x) by {
                if dead_set.contains(x) {
                    assert(dead@.contains(x));
                    let j = choose|j: int| 0 <= j < dead@.len() && dead@[j] == x;
                }
                if gone.contains(x) {
                    let j = choose|j: int| 0 <= j < i && dead@[j] == x;
                    assert(dead@.contains(x));
                }
            }
            assert(gone =~= dead_set);
        }
    }
}

impl<T: Eq + Hash + Clone> Default for OrSet<T> {
    fn default() -> (s: Self)
        ensures
            s@.0 == Map::<T, Set<Tag>>::empty(),
            s@.1 == Map::<T, Set<Tag>>::empty(),
    {
        OrSet::new()
    }
}

/// Merging is commutative: `merge(a, b)` and `merge(b, a)` hold the same tags.
pub proof fn lemma_union_tags_commutative<T>(a: Map<T, Set<Tag>>, b: Map<T, Set<Tag>>)
    ensures
        union_tags(a, b) == union_tags(b, a),
{
    let l = union_tags(a, b);
    let r = union_tags(b, a);
    assert forall|k: T| #[trigger] l.contains_key(k) implies l[k] == r[k] by {
        assert(l[k] =~= r[k]);
    }
    assert(l =~= r);
}

/// Merging is associative.
pub proof fn lemma_union_tags_associative<T>(a: Map<T, Set<Tag>>, b: Map<T, Set<Tag>>, c: Map<T, Set<Tag>>)
    ensures
        union_tags(a, union_tags(b, c)) == union_tags(union_tags(a, b), c),
{
    let l = union_tags(a, union_tags(b, c));
    let r = union_tags(union_tags(a, b), c);
    assert forall|k: T| #[trigger] l.contains_key(k) implies l[k] == r[k] by {
        assert(l[k] =~= r[k]);
    }
    assert(l =~= r);
}

/// Merging is idempotent: `merge(a, a) == a`.
pub proof fn lemma_union_tags_idempotent<T>(a: Map<T, Set<Tag>>)
    ensures
        union_tags(a, a) == a,
{
    let l = union_tags(a, a);
    assert forall|k: T| #[trigger] l.contains_key(k) implies l[k] == a[k] by {
        assert(l[k] =~= a[k]);
    }
    assert(l =~= a);
}

/// Membership after a merge: an element is in the merged set exactly when some
/// add tag of either replica is tombstoned by neither.
pub proof fn lemma_merged_membership<T>(
    added_a: Map<T, Set<Tag>>,
    removed_a: Map<T, Set<Tag>>,
    added_b: Map<T, Set<Tag>>,
    removed_b: Map<T, Set<Tag>>,
    x: T,
)
    ensures
        is_live(union_tags(added_a, added_b), union_tags(removed_a, removed_b), x) <==> exists|t: Tag|
            (tags_of(added_a, x).contains(t) || tags_of(added_b, x).contains(t)) && !tags_of(
                removed_a,
                x,
            ).contains(t) && !tags_of(removed_b, x).contains(t),
{
    let aa = union_tags(added_a, added_b);
    let rr = union_tags(removed_a, removed_b);
    assert(tags_of(aa, x) =~= tags_of(added_a, x) + tags_of(added_b, x));
    assert(tags_of(rr, x) =~= tags_of(removed_a, x) + tags_of(removed_b, x));
    if is_live(aa, rr, x) {
        let t = choose|t: Tag| tags_of(aa, x).contains(t) && !tags_of(rr, x).contains(t);
        assert((tags_of(added_a, x).contains(t) || tags_of(added_b, x).contains(t)) && !tags_of(
            removed_a,
            x,
        ).contains(t) && !tags_of(removed_b, x).contains(t));
    }
    if exists|t: Tag|
        (tags_of(added_a, x).contains(t) || tags_of(added_b, x).contains(t)) && !tags_of(
            removed_a,
            x,
        ).contains(t) && !tags_of(removed_b, x).contains(t) {
        let t = choose|t: Tag|
            (tags_of(added_a, x).contains(t) || tags_of(added_b, x).contains(t)) && !tags_of(
                removed_a,
                x,
            ).contains(t) && !tags_of(removed_b, x).contains(t);
        assert(tags_of(aa, x).contains(t) && !tags_of(rr, x).contains(t));
    }
}

/// A concurrent add wins over a remove: if replica `b` holds an add tag for `x`
/// that neither replica has tombstoned, `x` is in the merge.
pub proof fn lemma_concurrent_add_wins<T>(
    added_a: Map<T, Set<Tag>>,
    removed_a: Map<T, Set<Tag>>,
    added_b: Map<T, Set<Tag>>,
    removed_b: Map<T, Set<Tag>>,
    x: T,
    t: Tag,
)
    requires
        tags_of(added_b, x).contains(t),
        !tags_of(removed_a, x).contains(t),
        !tags_of(removed_b, x).contains(t),
    ensures
        is_live(union_tags(added_a, added_b), union_tags(removed_a, removed_b), x),
{
    lemma_merged_membership(added_a, removed_a, added_b, removed_b, x);
}

/// After an add under a tag that is not tombstoned, the element is in the set.
pub proof fn lemma_add_then_contains<T>(added: Map<T, Set<Tag>>, removed: Map<T, Set<Tag>>, x: T, t: Tag)
    requires
        !tags_of(removed, x).contains(t),
    ensures
        is_live(added.insert(x, tags_of(added, x).insert(t)), removed, x),
{
    assert(tags_of(added.insert(x, tags_of(added, x).insert(t)), x).contains(t));
}

/// After a remove, the element is no longer in the set.
pub proof fn lemma_remove_then_not_contains<T>(added: Map<T, Set<Tag>>, removed: Map<T, Set<Tag>>, x: T)
    ensures
        !is_live(
            added,
            if added.contains_key(x) {
                removed.insert(x, tags_of(removed, x) + added[x])
            } else {
                removed
            },
            x,
        ),
{
}

/// Compaction never changes which elements are in the set.
pub proof fn lemma_compact_keeps_membership<T>(added: Map<T, Set<Tag>>, removed: Map<T, Set<Tag>>, x: T)
    ensures
        is_live(
            added.remove_keys(dead_elements(added, removed)),
            removed.remove_keys(dead_elements(added, removed)),
            x,
        ) == is_live(added, removed, x),
{
    let dead = dead_elements(added, removed);
    if dead.contains(x) {
        if is_live(added, removed, x) {
            let t = choose|t: Tag| tags_of(added, x).contains(t) && !tags_of(removed, x).contains(t);
            assert(added[x].contains(t));
            assert(added[x].subset_of(removed[x]));
            assert(removed[x].contains(t));
        }
        assert(tags_of(added.remove_keys(dead), x) =~= Set::empty());
    } else {
        assert(tags_of(added.remove_keys(dead), x) == tags_of(added, x));
        assert(tags_of(removed.remove_keys(dead), x) == tags_of(removed, x));
    }
}

} // verus!
