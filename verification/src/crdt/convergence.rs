//! Convergence of the replicated growable array: the laws that make every
//! replica reach the same document whatever order concurrent ops arrive in.
use vstd::prelude::*;

use crate::crdt::sequence::{
    apply_doc, apply_spec, ids_distinct, ids_of, id_gt, insert_start, lemma_first_is, lemma_first_props,
    lemma_skip_pos, lemma_skip_pos_unique, skip_pos, text_of, tombstone, ApplyResult, Char, Id, Op,
};

verus! {

/// The id an op inserts, if it is an insert.
pub open spec fn inserted_id(op: Op) -> Option<Id> {
    match op {
        Op::Insert { ch, .. } => Some(ch.id),
        Op::Delete { .. } => None,
    }
}

/// The id an op depends on: the anchor of an insert, or the target of a delete.
pub open spec fn referenced_id(op: Op) -> Option<Id> {
    match op {
        Op::Insert { after, .. } => after,
        Op::Delete { target } => Some(target),
    }
}

/// Two ops are concurrent: neither depends on the character the other inserts,
/// and they do not insert the same id.
pub open spec fn independent(a: Op, b: Op) -> bool {
    &&& (inserted_id(a) matches Some(x) ==> inserted_id(b) != Some(x) && referenced_id(b) != Some(x))
    &&& (inserted_id(b) matches Some(y) ==> referenced_id(a) != Some(y))
}

proof fn lemma_id_gt_order(a: Id, b: Id, c: Id)
    ensures
        !id_gt(a, a),
        id_gt(a, b) ==> !id_gt(b, a),
        a != b ==> id_gt(a, b) || id_gt(b, a),
        id_gt(a, b) && id_gt(b, c) ==> id_gt(a, c),
{
}

proof fn lemma_ids_insert(doc: Seq<Char>, p: int, c: Char)
    requires
        0 <= p <= doc.len(),
    ensures
        ids_of(doc.insert(p, c)) == ids_of(doc).insert(p, c.id),
{
    assert(ids_of(doc.insert(p, c)) =~= ids_of(doc).insert(p, c.id));
}

proof fn lemma_ids_update(doc: Seq<Char>, i: int, c: Char)
    requires
        0 <= i < doc.len(),
        c.id == doc[i].id,
    ensures
        ids_of(doc.update(i, c)) == ids_of(doc),
{
    assert(ids_of(doc.update(i, c)) =~= ids_of(doc));
}

/// The position an index moves to when an element is inserted at `p`.
pub open spec fn shifted(i: int, p: int) -> int {
    if i < p { i } else { i + 1 }
}

/// Inserting `x` at `p` moves the first occurrence of any other id by the insertion.
proof fn lemma_first_after_insert(ids: Seq<Id>, p: int, x: Id, a: Id)
    requires
        0 <= p <= ids.len(),
        a != x,
    ensures
        ids.insert(p, x).index_of_first(a) == (match ids.index_of_first(a) {
            Some(i) => Some(shifted(i, p)),
            None => None::<int>,
        }),
{
    let ids2 = ids.insert(p, x);
    lemma_first_props(ids, a);
    match ids.index_of_first(a) {
        Some(i) => {
            let j = shifted(i, p);
            assert forall|k: int| 0 <= k < j implies ids2[k] != a by {
                if k < p {
                    assert(ids2[k] == ids[k]);
                } else if k > p {
                    assert(ids2[k] == ids[k - 1]);
                }
            }
            lemma_first_is(ids2, a, j);
        },
        None => {
            lemma_first_props(ids2, a);
            if ids2.contains(a) {
                let k = choose|k: int| 0 <= k < ids2.len() && ids2[k] == a;
                if k < p {
                    assert(ids[k] == a);
                } else if k > p {
                    assert(ids[k - 1] == a);
                }
                assert(ids.contains(a));
            }
        },
    }
}

/// The scan start of an insert moves with an insertion at `p` of an id other than its anchor.
proof fn lemma_start_after_insert(ids: Seq<Id>, p: int, x: Id, after: Option<Id>)
    requires
        0 <= p <= ids.len(),
        after != Some(x),
    ensures
        insert_start(ids.insert(p, x), after) == (match insert_start(ids, after) {
            Some(s) => Some(if s <= p { s } else { s + 1 }),
            None => None::<int>,
        }),
{
    if let Some(a) = after {
        lemma_first_after_insert(ids, p, x, a);
    }
}

/// Where the second of two inserts lands once the first has been placed.
proof fn lemma_skip_after_insert(ids: Seq<Id>, s1: int, c1: Id, s2: int, c2: Id)
    requires
        0 <= s1 <= ids.len(),
        0 <= s2 <= ids.len(),
        c1 != c2,
    ensures
        ({
            let p1 = skip_pos(ids, s1, c1);
            let p2 = skip_pos(ids, s2, c2);
            let ids2 = ids.insert(p1, c1);
            let s2b = if s2 <= p1 { s2 } else { s2 + 1 };
            &&& s2 > p1 ==> skip_pos(ids2, s2b, c2) == p2 + 1 && p1 < p2
            &&& s2 <= p1 && p2 < p1 ==> skip_pos(ids2, s2b, c2) == p2
            &&& s2 <= p1 && p2 >= p1 && id_gt(c1, c2) ==> skip_pos(ids2, s2b, c2) == p2 + 1
            &&& s2 <= p1 && p2 >= p1 && !id_gt(c1, c2) ==> skip_pos(ids2, s2b, c2) == p1 && p2 == p1
        }),
{
    let p1 = skip_pos(ids, s1, c1);
    let p2 = skip_pos(ids, s2, c2);
    let ids2 = ids.insert(p1, c1);
    let s2b = if s2 <= p1 { s2 } else { s2 + 1 };
    lemma_skip_pos(ids, s1, c1);
    lemma_skip_pos(ids, s2, c2);
    lemma_id_gt_order(c1, c2, c1);
    if s2 > p1 {
        assert forall|k: int| s2b <= k < p2 + 1 implies id_gt(#[trigger] ids2[k], c2) by {
            assert(ids2[k] == ids[k - 1]);
        }
        if p2 + 1 < ids2.len() {
            assert(ids2[p2 + 1] == ids[p2]);
        }
        lemma_skip_pos_unique(ids2, s2b, c2, p2 + 1);
    } else if p2 < p1 {
        assert forall|k: int| s2b <= k < p2 implies id_gt(#[trigger] ids2[k], c2) by {
            assert(ids2[k] == ids[k]);
        }
        assert(ids2[p2] == ids[p2]);
        lemma_skip_pos_unique(ids2, s2b, c2, p2);
    } else if id_gt(c1, c2) {
        assert forall|k: int| s2b <= k < p2 + 1 implies id_gt(#[trigger] ids2[k], c2) by {
            if k < p1 {
                assert(ids2[k] == ids[k]);
            } else if k > p1 {
                assert(ids2[k] == ids[k - 1]);
            }
        }
        if p2 + 1 < ids2.len() {
            assert(ids2[p2 + 1] == ids[p2]);
        }
        lemma_skip_pos_unique(ids2, s2b, c2, p2 + 1);
    } else {
        assert(id_gt(c2, c1));
        if p2 > p1 {
            assert(id_gt(ids[p1], c2));
            lemma_id_gt_order(ids[p1], c2, c1);
            assert(false);
        }
        assert forall|k: int| s2b <= k < p1 implies id_gt(#[trigger] ids2[k], c2) by {
            assert(ids2[k] == ids[k]);
        }
        assert(ids2[p1] == c1);
        lemma_skip_pos_unique(ids2, s2b, c2, p1);
    }
}

proof fn lemma_insert_swap<A>(d: Seq<A>, i: int, x: A, j: int, y: A)
    requires
        0 <= i <= j <= d.len(),
    ensures
        d.insert(i, x).insert(j + 1, y) == d.insert(j, y).insert(i, x),
{
    assert(d.insert(i, x).insert(j + 1, y) =~= d.insert(j, y).insert(i, x));
}

proof fn lemma_start_range(ids: Seq<Id>, after: Option<Id>)
    ensures
        insert_start(ids, after) matches Some(s) ==> 0 <= s <= ids.len(),
{
    if let Some(a) = after {
        lemma_first_props(ids, a);
    }
}

/// `d` with `x` placed in gap `p1` and `y` in gap `p2`; in a shared gap the
/// greater id comes first.
pub open spec fn place_two(d: Seq<Char>, p1: int, x: Char, p2: int, y: Char) -> Seq<Char> {
    if p1 < p2 || (p1 == p2 && id_gt(x.id, y.id)) {
        d.insert(p2, y).insert(p1, x)
    } else {
        d.insert(p1, x).insert(p2, y)
    }
}

/// Two effective inserts applied in sequence place each character in the gap
/// it would take in the original document.
proof fn lemma_two_inserts(d: Seq<Char>, a1: Option<Id>, ch1: Char, a2: Option<Id>, ch2: Char)
    requires
        !ids_of(d).contains(ch1.id),
        !ids_of(d).contains(ch2.id),
        ch1.id != ch2.id,
        insert_start(ids_of(d), a1) is Some,
        insert_start(ids_of(d), a2) is Some,
        a2 != Some(ch1.id),
    ensures
        apply_doc(
            apply_doc(d, Op::Insert { after: a1, ch: ch1 }),
            Op::Insert { after: a2, ch: ch2 },
        ) == place_two(
            d,
            skip_pos(ids_of(d), insert_start(ids_of(d), a1)->0, ch1.id),
            ch1,
            skip_pos(ids_of(d), insert_start(ids_of(d), a2)->0, ch2.id),
            ch2,
        ),
{
    let ids = ids_of(d);
    let s1 = insert_start(ids, a1)->0;
    let s2 = insert_start(ids, a2)->0;
    lemma_start_range(ids, a1);
    lemma_start_range(ids, a2);
    let p1 = skip_pos(ids, s1, ch1.id);
    let p2 = skip_pos(ids, s2, ch2.id);
    lemma_skip_pos(ids, s1, ch1.id);
    lemma_skip_pos(ids, s2, ch2.id);
    let d1 = d.insert(p1, ch1);
    assert(apply_doc(d, Op::Insert { after: a1, ch: ch1 }) == d1);
    lemma_ids_insert(d, p1, ch1);
    let ids1 = ids_of(d1);
    assert(ids1 == ids.insert(p1, ch1.id));
    if ids1.contains(ch2.id) {
        let k = choose|k: int| 0 <= k < ids1.len() && ids1[k] == ch2.id;
        if k < p1 {
            assert(ids[k] == ch2.id);
        } else if k > p1 {
            assert(ids[k - 1] == ch2.id);
        }
        assert(false);
    }
    lemma_start_after_insert(ids, p1, ch1.id, a2);
    let s2b = if s2 <= p1 { s2 } else { s2 + 1 };
    assert(insert_start(ids1, a2) == Some(s2b));
    lemma_skip_after_insert(ids, s1, ch1.id, s2, ch2.id);
    let q = skip_pos(ids1, s2b, ch2.id);
    assert(apply_doc(d1, Op::Insert { after: a2, ch: ch2 }) == d1.insert(q, ch2));
    if s2 > p1 {
        lemma_insert_swap(d, p1, ch1, p2, ch2);
    } else if p2 < p1 {
    } else if id_gt(ch1.id, ch2.id) {
        lemma_insert_swap(d, p1, ch1, p2, ch2);
    } else {
    }
}

/// Placing two characters is symmetric in the pair.
proof fn lemma_place_two_symmetric(d: Seq<Char>, p1: int, x: Char, p2: int, y: Char)
    requires
        x.id != y.id,
    ensures
        place_two(d, p1, x, p2, y) == place_two(d, p2, y, p1, x),
{
    lemma_id_gt_order(x.id, y.id, x.id);
}

/// Applying a delete never changes the ids of the document.
pub proof fn lemma_delete_keeps_ids(d: Seq<Char>, t: Id)
    ensures
        ids_of(apply_doc(d, Op::Delete { target: t })) == ids_of(d),
{
    lemma_first_props(ids_of(d), t);
    if let Some(i) = ids_of(d).index_of_first(t) {
        if !d[i].deleted {
            lemma_ids_update(d, i, tombstone(d[i]));
        }
    }
}

/// The ids after any op: the old ids, plus the inserted id when an insert was applied.
pub proof fn lemma_ids_after(d: Seq<Char>, op: Op, x: Id)
    ensures
        ids_of(apply_doc(d, op)).contains(x) <==> ids_of(d).contains(x) || (apply_spec(d, op).1
            == ApplyResult::Applied && inserted_id(op) == Some(x)),
{
    match op {
        Op::Insert { after, ch } => {
            let ids = ids_of(d);
            if !ids.contains(ch.id) {
                if let Some(s) = insert_start(ids, after) {
                    lemma_start_range(ids, after);
                    let p = skip_pos(ids, s, ch.id);
                    lemma_skip_pos(ids, s, ch.id);
                    lemma_ids_insert(d, p, ch);
                    let ids2 = ids.insert(p, ch.id);
                    if ids2.contains(x) && x != ch.id {
                        let k = choose|k: int| 0 <= k < ids2.len() && ids2[k] == x;
                        if k < p {
                            assert(ids[k] == x);
                        } else {
                            assert(ids[k - 1] == x);
                        }
                    }
                    if ids.contains(x) {
                        let k = choose|k: int| 0 <= k < ids.len() && ids[k] == x;
                        if k < p {
                            assert(ids2[k] == x);
                        } else {
                            assert(ids2[k + 1] == x);
                        }
                    }
                    assert(ids2[p] == ch.id);
                }
            }
        },
        Op::Delete { target } => {
            lemma_delete_keeps_ids(d, target);
        },
    }
}

/// Whether an insert changes the document it is applied to.
pub open spec fn insert_effective(d: Seq<Char>, after: Option<Id>, ch: Char) -> bool {
    !ids_of(d).contains(ch.id) && insert_start(ids_of(d), after) is Some
}

/// An insert that is a no-op stays a no-op after an op it is independent of.
proof fn lemma_noop_insert_stays(d: Seq<Char>, after: Option<Id>, ch: Char, other: Op)
    requires
        !insert_effective(d, after, ch),
        independent(Op::Insert { after, ch }, other),
    ensures
        !insert_effective(apply_doc(d, other), after, ch),
{
    let d2 = apply_doc(d, other);
    lemma_ids_after(d, other, ch.id);
    if let Some(a) = after {
        lemma_ids_after(d, other, a);
        lemma_first_props(ids_of(d), a);
        lemma_first_props(ids_of(d2), a);
    }
}

proof fn lemma_update_insert<A>(d: Seq<A>, i: int, v: A, p: int, x: A)
    requires
        0 <= i < d.len(),
        0 <= p <= d.len(),
    ensures
        d.update(i, v).insert(p, x) == d.insert(p, x).update(shifted(i, p), v),
{
    assert(d.update(i, v).insert(p, x) =~= d.insert(p, x).update(shifted(i, p), v));
}

/// A delete and an insert of a different id commute.
proof fn lemma_delete_insert_commute(d: Seq<Char>, t: Id, after: Option<Id>, ch: Char)
    requires
        t != ch.id,
    ensures
        apply_doc(apply_doc(d, Op::Delete { target: t }), Op::Insert { after, ch }) == apply_doc(
            apply_doc(d, Op::Insert { after, ch }),
            Op::Delete { target: t },
        ),
{
    let del = Op::Delete { target: t };
    let ins = Op::Insert { after, ch };
    let ids = ids_of(d);
    let d1 = apply_doc(d, del);
    lemma_delete_keeps_ids(d, t);
    lemma_first_props(ids, t);
    if insert_effective(d, after, ch) {
        let s = insert_start(ids, after)->0;
        lemma_start_range(ids, after);
        let p = skip_pos(ids, s, ch.id);
        lemma_skip_pos(ids, s, ch.id);
        let d2 = d.insert(p, ch);
        assert(apply_doc(d1, ins) == d1.insert(p, ch));
        lemma_ids_insert(d, p, ch);
        lemma_first_after_insert(ids, p, ch.id, t);
        match ids.index_of_first(t) {
            Some(i) => {
                assert(d2[shifted(i, p)] == d[i]);
                if !d[i].deleted {
                    lemma_update_insert(d, i, tombstone(d[i]), p, ch);
                }
            },
            None => {},
        }
    }
}

/// Two deletes commute.
proof fn lemma_delete_delete_commute(d: Seq<Char>, t1: Id, t2: Id)
    ensures
        apply_doc(apply_doc(d, Op::Delete { target: t1 }), Op::Delete { target: t2 }) == apply_doc(
            apply_doc(d, Op::Delete { target: t2 }),
            Op::Delete { target: t1 },
        ),
{
    if t1 != t2 {
        let ids = ids_of(d);
        lemma_first_props(ids, t1);
        lemma_first_props(ids, t2);
        lemma_delete_keeps_ids(d, t1);
        lemma_delete_keeps_ids(d, t2);
        match (ids.index_of_first(t1), ids.index_of_first(t2)) {
            (Some(i1), Some(i2)) => {
                assert(i1 != i2);
                if !d[i1].deleted && !d[i2].deleted {
                    assert(d.update(i1, tombstone(d[i1])).update(i2, tombstone(d[i2])) =~= d.update(
                        i2,
                        tombstone(d[i2]),
                    ).update(i1, tombstone(d[i1])));
                }
            },
            _ => {},
        }
    }
}

/// Concurrent ops commute: applying two independent ops in either order
/// yields the same document.
pub proof fn lemma_independent_ops_commute(d: Seq<Char>, o1: Op, o2: Op)
    requires
        independent(o1, o2),
    ensures
        apply_doc(apply_doc(d, o1), o2) == apply_doc(apply_doc(d, o2), o1),
{
    match (o1, o2) {
        (Op::Insert { after: a1, ch: ch1 }, Op::Insert { after: a2, ch: ch2 }) => {
            if !insert_effective(d, a1, ch1) {
                lemma_noop_insert_stays(d, a1, ch1, o2);
            } else if !insert_effective(d, a2, ch2) {
                lemma_noop_insert_stays(d, a2, ch2, o1);
            } else {
                let ids = ids_of(d);
                let p1 = skip_pos(ids, insert_start(ids, a1)->0, ch1.id);
                let p2 = skip_pos(ids, insert_start(ids, a2)->0, ch2.id);
                lemma_two_inserts(d, a1, ch1, a2, ch2);
                lemma_two_inserts(d, a2, ch2, a1, ch1);
                lemma_place_two_symmetric(d, p1, ch1, p2, ch2);
            }
        },
        (Op::Delete { target }, Op::Insert { after, ch }) => {
            lemma_delete_insert_commute(d, target, after, ch);
        },
        (Op::Insert { after, ch }, Op::Delete { target }) => {
            lemma_delete_insert_commute(d, target, after, ch);
        },
        (Op::Delete { target: t1 }, Op::Delete { target: t2 }) => {
            lemma_delete_delete_commute(d, t1, t2);
        },
    }
}

/// The document after applying `ops` in order.
pub open spec fn apply_all(d: Seq<Char>, ops: Seq<Op>) -> Seq<Char>
    decreases ops.len(),
{
    if ops.len() == 0 {
        d
    } else {
        apply_all(apply_doc(d, ops[0]), ops.drop_first())
    }
}

/// The outcome of each op when `ops` are applied in order from `d`.
pub open spec fn apply_results(d: Seq<Char>, ops: Seq<Op>) -> Seq<ApplyResult>
    decreases ops.len(),
{
    if ops.len() == 0 {
        Seq::empty()
    } else {
        seq![apply_spec(d, ops[0]).1] + apply_results(apply_doc(d, ops[0]), ops.drop_first())
    }
}

/// The outcomes of one more op at the end of a sequence.
pub proof fn lemma_apply_results_push(d: Seq<Char>, ops: Seq<Op>, o: Op)
    ensures
        apply_results(d, ops.push(o)) == apply_results(d, ops).push(apply_spec(apply_all(d, ops), o).1),
    decreases ops.len(),
{
    let ps = ops.push(o);
    if ops.len() == 0 {
        assert(ps.drop_first() =~= Seq::<Op>::empty());
        assert(ps[0] == o);
        assert(apply_results(apply_doc(d, o), ps.drop_first()) == Seq::<ApplyResult>::empty());
        assert(apply_results(d, ps) =~= seq![apply_spec(d, o).1]);
    } else {
        lemma_apply_results_push(apply_doc(d, ops[0]), ops.drop_first(), o);
        assert(ps.drop_first() =~= ops.drop_first().push(o));
        assert(ps[0] == ops[0]);
        assert(apply_all(d, ops) == apply_all(apply_doc(d, ops[0]), ops.drop_first()));
        assert(apply_results(d, ps) =~= apply_results(d, ops).push(apply_spec(apply_all(d, ops), o).1));
    }
}

/// Every two ops of `ops` are either the same op (a repeated delivery) or concurrent.
pub open spec fn mutually_concurrent(ops: Seq<Op>) -> bool {
    forall|a: Op, b: Op| ops.contains(a) && ops.contains(b) ==> a == b || independent(a, b)
}

/// Any op of a mutually concurrent sequence can be applied first without changing the result.
proof fn lemma_move_to_front(d: Seq<Char>, ops: Seq<Op>, j: int)
    requires
        mutually_concurrent(ops),
        0 <= j < ops.len(),
    ensures
        apply_all(d, ops) == apply_all(d, seq![ops[j]] + ops.remove(j)),
    decreases j,
{
    if j == 0 {
        assert(seq![ops[0]] + ops.remove(0) =~= ops);
    } else {
        let x = ops[0];
        let o = ops[j];
        let t = ops.drop_first();
        assert(t[j - 1] == o);
        assert forall|a: Op, b: Op| t.contains(a) && t.contains(b) implies a == b || independent(a, b) by {
            let ia = choose|i: int| 0 <= i < t.len() && t[i] == a;
            let ib = choose|i: int| 0 <= i < t.len() && t[i] == b;
            assert(ops[ia + 1] == a);
            assert(ops[ib + 1] == b);
        }
        let d1 = apply_doc(d, x);
        lemma_move_to_front(d1, t, j - 1);
        let rest = t.remove(j - 1);
        assert((seq![o] + rest)[0] == o);
        assert((seq![o] + rest).drop_first() =~= rest);
        assert(ops.contains(x));
        assert(ops.contains(o));
        if x != o {
            lemma_independent_ops_commute(d, x, o);
        }
        let front = seq![x] + rest;
        assert(front[0] == x);
        assert(front.drop_first() =~= rest);
        assert(ops.remove(j) =~= front);
        let whole = seq![o] + ops.remove(j);
        assert(whole[0] == o);
        assert(whole.drop_first() =~= ops.remove(j));
        assert(apply_all(d, ops) == apply_all(d1, t));
        assert(apply_all(d1, seq![o] + rest) == apply_all(apply_doc(d1, o), rest));
        assert(apply_doc(d1, o) == apply_doc(apply_doc(d, o), x));
        assert(apply_all(apply_doc(d, o), front) == apply_all(apply_doc(apply_doc(d, o), x), rest));
        assert(apply_all(d, whole) == apply_all(apply_doc(d, o), ops.remove(j)));
    }
}

/// Strong eventual consistency of the document: replicas that apply the same
/// mutually concurrent ops, in any order and with any repeats that both
/// deliveries share, reach the same document.
pub proof fn lemma_concurrent_ops_converge(d: Seq<Char>, ops1: Seq<Op>, ops2: Seq<Op>)
    requires
        mutually_concurrent(ops1),
        ops1.to_multiset() == ops2.to_multiset(),
    ensures
        apply_all(d, ops1) == apply_all(d, ops2),
    decreases ops1.len(),
{
    broadcast use vstd::seq_lib::group_to_multiset_ensures;

    if ops1.len() == 0 {
        assert(ops1.to_multiset().len() == 0);
        assert(ops2.to_multiset().len() == ops2.len());
        assert(ops2.len() == 0);
    } else {
        let o = ops1[0];
        assert(ops1.contains(o));
        assert(ops2.to_multiset().count(o) > 0);
        assert(ops2.contains(o));
        let j = choose|j: int| 0 <= j < ops2.len() && ops2[j] == o;
        assert forall|a: Op, b: Op| ops2.contains(a) && ops2.contains(b) implies a == b
            || independent(a, b) by {
            assert(ops2.to_multiset().count(a) > 0);
            assert(ops2.to_multiset().count(b) > 0);
            assert(ops1.contains(a));
            assert(ops1.contains(b));
        }
        lemma_move_to_front(d, ops2, j);
        let r1 = ops1.drop_first();
        let r2 = ops2.remove(j);
        assert(ops1.remove(0) =~= r1);
        assert(r1.to_multiset() == ops1.to_multiset().remove(o));
        assert(r2.to_multiset() == ops2.to_multiset().remove(o));
        assert forall|a: Op, b: Op| r1.contains(a) && r1.contains(b) implies a == b || independent(
            a,
            b,
        ) by {
            let ia = choose|i: int| 0 <= i < r1.len() && r1[i] == a;
            let ib = choose|i: int| 0 <= i < r1.len() && r1[i] == b;
            assert(ops1[ia + 1] == a);
            assert(ops1[ib + 1] == b);
        }
        lemma_concurrent_ops_converge(apply_doc(d, o), r1, r2);
        let whole = seq![o] + r2;
        assert(whole[0] == o);
        assert(whole.drop_first() =~= r2);
    }
}

/// Applying an op a second time is a no-op reported as a duplicate.
pub proof fn lemma_apply_idempotent(d: Seq<Char>, op: Op)
    requires
        apply_spec(d, op).1 != ApplyResult::MissingAnchor,
    ensures
        apply_spec(apply_doc(d, op), op) == (apply_doc(d, op), ApplyResult::Duplicate),
{
    match op {
        Op::Insert { after, ch } => {
            lemma_ids_after(d, op, ch.id);
        },
        Op::Delete { target } => {
            lemma_delete_keeps_ids(d, target);
            lemma_first_props(ids_of(d), target);
        },
    }
}

/// Only an applied op changes the document.
pub proof fn lemma_unapplied_is_noop(d: Seq<Char>, op: Op)
    ensures
        apply_spec(d, op).1 != ApplyResult::Applied ==> apply_doc(d, op) == d,
{
}

/// Ids are never removed: an anchor stays valid after any op, deleted or not.
pub proof fn lemma_ids_persist(d: Seq<Char>, op: Op, x: Id)
    requires
        ids_of(d).contains(x),
    ensures
        ids_of(apply_doc(d, op)).contains(x),
{
    lemma_ids_after(d, op, x);
}

/// Applying ops keeps the ids of a document distinct.
pub proof fn lemma_apply_keeps_ids_distinct(d: Seq<Char>, op: Op)
    requires
        ids_distinct(d),
    ensures
        ids_distinct(apply_doc(d, op)),
{
    match op {
        Op::Insert { after, ch } => {
            let ids = ids_of(d);
            if insert_effective(d, after, ch) {
                let s = insert_start(ids, after)->0;
                lemma_start_range(ids, after);
                let p = skip_pos(ids, s, ch.id);
                lemma_skip_pos(ids, s, ch.id);
                let d2 = d.insert(p, ch);
                assert forall|i: int, j: int| 0 <= i < j < d2.len() implies d2[i].id != d2[j].id by {
                    if i == p {
                        assert(ids[j - 1] == d[j - 1].id);
                    } else if j == p {
                        assert(ids[i] == d[i].id);
                    }
                }
            }
        },
        Op::Delete { target } => {
            lemma_first_props(ids_of(d), target);
        },
    }
}

/// An op that is a duplicate on `d` stays a duplicate after any other op.
pub proof fn lemma_duplicate_persists(d: Seq<Char>, op: Op, z: Op)
    requires
        apply_spec(d, op).1 == ApplyResult::Duplicate,
    ensures
        apply_spec(apply_doc(d, z), op).1 == ApplyResult::Duplicate,
{
    match op {
        Op::Insert { after, ch } => {
            lemma_ids_after(d, z, ch.id);
        },
        Op::Delete { target } => {
            let ids = ids_of(d);
            lemma_first_props(ids, target);
            let i = ids.index_of_first(target)->0;
            let d2 = apply_doc(d, z);
            match z {
                Op::Insert { after, ch } => {
                    if insert_effective(d, after, ch) {
                        let s = insert_start(ids, after)->0;
                        lemma_start_range(ids, after);
                        let p = skip_pos(ids, s, ch.id);
                        lemma_skip_pos(ids, s, ch.id);
                        lemma_ids_insert(d, p, ch);
                        lemma_first_after_insert(ids, p, ch.id, target);
                        assert(d2[shifted(i, p)] == d[i]);
                    }
                },
                Op::Delete { target: t2 } => {
                    lemma_delete_keeps_ids(d, t2);
                    lemma_first_props(ids, t2);
                },
            }
        },
    }
}

/// An op whose anchor or target is present stays so after any other op.
proof fn lemma_not_missing_persists(d: Seq<Char>, op: Op, z: Op)
    requires
        apply_spec(d, op).1 != ApplyResult::MissingAnchor,
    ensures
        apply_spec(apply_doc(d, z), op).1 != ApplyResult::MissingAnchor,
{
    let d2 = apply_doc(d, z);
    match op {
        Op::Insert { after, ch } => {
            lemma_ids_after(d, z, ch.id);
            if let Some(a) = after {
                lemma_ids_after(d, z, a);
                lemma_first_props(ids_of(d), a);
                lemma_first_props(ids_of(d2), a);
            }
        },
        Op::Delete { target } => {
            lemma_ids_after(d, z, target);
            lemma_first_props(ids_of(d), target);
            lemma_first_props(ids_of(d2), target);
        },
    }
}

/// No two different ops of `ops` insert the same id.
pub open spec fn ids_unique(ops: Seq<Op>) -> bool {
    forall|a: Op, b: Op|
        ops.contains(a) && ops.contains(b) && inserted_id(a) is Some && inserted_id(a) == inserted_id(
            b,
        ) ==> a == b
}

/// Applying `ops` in order from `d`, no op finds its anchor or target missing:
/// every op arrives after the ops it depends on.
pub open spec fn delivered_in_order(d: Seq<Char>, ops: Seq<Op>) -> bool
    decreases ops.len(),
{
    ops.len() == 0 || (apply_spec(d, ops[0]).1 != ApplyResult::MissingAnchor && delivered_in_order(
        apply_doc(d, ops[0]),
        ops.drop_first(),
    ))
}

/// Two ops whose anchor or target is present in `d`, and which are not two
/// inserts of the same id, give the same document in either order.
pub proof fn lemma_applicable_ops_commute(d: Seq<Char>, x: Op, o: Op)
    requires
        apply_spec(d, x).1 != ApplyResult::MissingAnchor,
        apply_spec(d, o).1 != ApplyResult::MissingAnchor,
        !(inserted_id(x) is Some && inserted_id(x) == inserted_id(o)),
    ensures
        apply_doc(apply_doc(d, x), o) == apply_doc(apply_doc(d, o), x),
{
    if x == o {
    } else if independent(x, o) {
        lemma_independent_ops_commute(d, x, o);
    } else if inserted_id(x) is Some && referenced_id(o) == inserted_id(x) {
        // o depends on what x inserts, and o is applicable on d: either o is a
        // duplicate, or that id is already in d and x is a duplicate.
        let y = inserted_id(x)->0;
        if apply_spec(d, o).1 == ApplyResult::Duplicate {
            lemma_duplicate_persists(d, o, x);
        } else {
            match o {
                Op::Insert { after, ch } => {
                    lemma_first_props(ids_of(d), y);
                },
                Op::Delete { target } => {
                    lemma_first_props(ids_of(d), y);
                },
            }
            assert(ids_of(d).contains(y));
            assert(apply_spec(d, x).1 == ApplyResult::Duplicate);
            lemma_duplicate_persists(d, x, o);
        }
    } else {
        // x depends on what o inserts.
        let c = inserted_id(o)->0;
        assert(referenced_id(x) == Some(c));
        if apply_spec(d, x).1 == ApplyResult::Duplicate {
            lemma_duplicate_persists(d, x, o);
        } else {
            match x {
                Op::Insert { after, ch } => {
                    lemma_first_props(ids_of(d), c);
                },
                Op::Delete { target } => {
                    lemma_first_props(ids_of(d), c);
                },
            }
            assert(ids_of(d).contains(c));
            assert(apply_spec(d, o).1 == ApplyResult::Duplicate);
            lemma_duplicate_persists(d, o, x);
        }
    }
}

/// An op that can be applied first can be moved to the front of an in-order
/// delivery past the ops before its first occurrence.
proof fn lemma_move_applicable_to_front(d: Seq<Char>, ops: Seq<Op>, j: int)
    requires
        0 <= j < ops.len(),
        !ops.take(j).contains(ops[j]),
        apply_spec(d, ops[j]).1 != ApplyResult::MissingAnchor,
        delivered_in_order(d, ops),
        ids_unique(ops),
    ensures
        apply_all(d, ops) == apply_all(apply_doc(d, ops[j]), ops.remove(j)),
        delivered_in_order(apply_doc(d, ops[j]), ops.remove(j)),
    decreases j,
{
    let o = ops[j];
    if j == 0 {
        assert(ops.remove(0) =~= ops.drop_first());
    } else {
        let x = ops[0];
        let t = ops.drop_first();
        let d1 = apply_doc(d, x);
        assert(t[j - 1] == o);
        assert(ops.take(j)[0] == x);
        assert(ops.take(j).contains(x));
        assert(x != o);
        assert forall|a: Op, b: Op|
            t.contains(a) && t.contains(b) && inserted_id(a) is Some && inserted_id(a)
                == inserted_id(b) implies a == b by {
            let ia = choose|i: int| 0 <= i < t.len() && t[i] == a;
            let ib = choose|i: int| 0 <= i < t.len() && t[i] == b;
            assert(ops[ia + 1] == a);
            assert(ops[ib + 1] == b);
        }
        let tp = t.take(j - 1);
        if tp.contains(o) {
            let k = choose|k: int| 0 <= k < tp.len() && tp[k] == o;
            assert(ops.take(j)[k + 1] == o);
        }
        lemma_not_missing_persists(d, o, x);
        lemma_move_applicable_to_front(d1, t, j - 1);
        assert(ops.contains(x) && ops.contains(o));
        lemma_applicable_ops_commute(d, x, o);
        let rest = t.remove(j - 1);
        let d_o = apply_doc(d, o);
        lemma_not_missing_persists(d, x, o);
        let front = seq![x] + rest;
        assert(front[0] == x);
        assert(front.drop_first() =~= rest);
        assert(ops.remove(j) =~= front);
        assert(apply_doc(d1, o) == apply_doc(d_o, x));
        assert(apply_all(d, ops) == apply_all(d1, t));
        assert(apply_all(d_o, front) == apply_all(apply_doc(d_o, x), rest));
        assert(delivered_in_order(d_o, front) == (apply_spec(d_o, x).1
            != ApplyResult::MissingAnchor && delivered_in_order(apply_doc(d_o, x), rest)));
    }
}

/// Strong eventual consistency under causal delivery: replicas that apply the
/// same ops, each after the ops it depends on, reach the same document,
/// whatever the order. Ops that insert the same id must be the same op.
pub proof fn lemma_in_order_delivery_converges(d: Seq<Char>, ops1: Seq<Op>, ops2: Seq<Op>)
    requires
        ops1.to_multiset() == ops2.to_multiset(),
        ids_unique(ops1),
        delivered_in_order(d, ops1),
        delivered_in_order(d, ops2),
    ensures
        apply_all(d, ops1) == apply_all(d, ops2),
    decreases ops1.len(),
{
    broadcast use vstd::seq_lib::group_to_multiset_ensures;

    if ops1.len() == 0 {
        assert(ops1.to_multiset().len() == 0);
        assert(ops2.to_multiset().len() == ops2.len());
        assert(ops2.len() == 0);
    } else {
        let o = ops1[0];
        assert(ops1.contains(o));
        assert(ops2.to_multiset().count(o) > 0);
        assert(ops2.contains(o));
        ops2.index_of_first_ensures(o);
        let j = ops2.index_of_first(o)->0;
        let p2 = ops2.take(j);
        if p2.contains(o) {
            let k = choose|k: int| 0 <= k < p2.len() && p2[k] == o;
            assert(ops2[k] == o);
        }
        assert forall|a: Op, b: Op|
            ops2.contains(a) && ops2.contains(b) && inserted_id(a) is Some && inserted_id(a)
                == inserted_id(b) implies a == b by {
            assert(ops2.to_multiset().count(a) > 0);
            assert(ops2.to_multiset().count(b) > 0);
            assert(ops1.contains(a));
            assert(ops1.contains(b));
        }
        lemma_move_applicable_to_front(d, ops2, j);
        let r1 = ops1.drop_first();
        let r2 = ops2.remove(j);
        assert(ops1.remove(0) =~= r1);
        assert(r1.to_multiset() == ops1.to_multiset().remove(o));
        assert(r2.to_multiset() == ops2.to_multiset().remove(o));
        assert forall|a: Op, b: Op|
            r1.contains(a) && r1.contains(b) && inserted_id(a) is Some && inserted_id(a)
                == inserted_id(b) implies a == b by {
            let ia = choose|i: int| 0 <= i < r1.len() && r1[i] == a;
            let ib = choose|i: int| 0 <= i < r1.len() && r1[i] == b;
            assert(ops1[ia + 1] == a);
            assert(ops1[ib + 1] == b);
        }
        lemma_in_order_delivery_converges(apply_doc(d, o), r1, r2);
    }
}

/// Applying one more op at the end of a sequence.
pub proof fn lemma_apply_all_push(d: Seq<Char>, ops: Seq<Op>, o: Op)
    ensures
        apply_all(d, ops.push(o)) == apply_doc(apply_all(d, ops), o),
        delivered_in_order(d, ops.push(o)) == (delivered_in_order(d, ops) && apply_spec(
            apply_all(d, ops),
            o,
        ).1 != ApplyResult::MissingAnchor),
    decreases ops.len(),
{
    let ps = ops.push(o);
    if ops.len() == 0 {
        assert(ps.drop_first() =~= Seq::<Op>::empty());
        assert(ps[0] == o);
        assert(apply_all(d, ps) == apply_all(apply_doc(d, o), ps.drop_first()));
        assert(delivered_in_order(d, ps) == (apply_spec(d, o).1 != ApplyResult::MissingAnchor
            && delivered_in_order(apply_doc(d, o), ps.drop_first())));
    } else {
        lemma_apply_all_push(apply_doc(d, ops[0]), ops.drop_first(), o);
        assert(ps.drop_first() =~= ops.drop_first().push(o));
        assert(ps[0] == ops[0]);
        assert(apply_all(d, ps) == apply_all(apply_doc(d, ops[0]), ps.drop_first()));
    }
}

/// Applying an op keeps every entry of the document, in the same order, with
/// the same id and value, and never clears a tombstone: either the document
/// keeps its length and entries can only gain a tombstone, or exactly one
/// entry is inserted among the old ones.
pub proof fn lemma_apply_keeps_entries(d: Seq<Char>, op: Op)
    ensures
        ({
            let d2 = apply_doc(d, op);
            ||| (d2.len() == d.len() && forall|i: int|
                0 <= i < d.len() ==> (#[trigger] d2[i]).id == d[i].id && d2[i].value == d[i].value
                    && (d[i].deleted ==> d2[i].deleted))
            ||| (d2.len() == d.len() + 1 && exists|p: int| 0 <= p <= d.len() && #[trigger] d2.remove(p) == d)
        }),
{
    let d2 = apply_doc(d, op);
    match op {
        Op::Insert { after, ch } => {
            let ids = ids_of(d);
            if insert_effective(d, after, ch) {
                let s = insert_start(ids, after)->0;
                lemma_start_range(ids, after);
                let p = skip_pos(ids, s, ch.id);
                lemma_skip_pos(ids, s, ch.id);
                assert(d2.remove(p) =~= d);
            }
        },
        Op::Delete { target } => {
            lemma_first_props(ids_of(d), target);
        },
    }
}

/// The character an op inserts, if it is an insert.
pub open spec fn inserted_char(op: Op) -> Option<Char> {
    match op {
        Op::Insert { ch, .. } => Some(ch),
        Op::Delete { .. } => None,
    }
}

/// Whether some op of `ops` inserts the character `c`.
pub open spec fn inserts_char(ops: Seq<Op>, c: Char) -> bool {
    exists|k: int| 0 <= k < ops.len() && inserted_char(#[trigger] ops[k]) == Some(c)
}

/// An insert of a visible character at the front of the document (no anchor).
pub open spec fn root_insert(op: Op) -> bool {
    op matches Op::Insert { after: None, ch } && !ch.deleted
}

/// No two positions of `ops` insert the same id.
pub open spec fn inserted_ids_distinct(ops: Seq<Op>) -> bool {
    forall|i: int, j: int| 0 <= i < j < ops.len() ==> inserted_id(ops[i]) != inserted_id(ops[j])
}

/// Ids strictly decrease along the document.
pub open spec fn descending_ids(doc: Seq<Char>) -> bool {
    forall|i: int, j: int| 0 <= i < j < doc.len() ==> id_gt(doc[i].id, doc[j].id)
}

/// No character of the document is tombstoned.
pub open spec fn all_visible(doc: Seq<Char>) -> bool {
    forall|i: int| 0 <= i < doc.len() ==> !(#[trigger] doc[i]).deleted
}

/// Applying `ops` in order from `d`, every op reports `Applied`.
pub open spec fn all_applied(results: Seq<ApplyResult>) -> bool {
    forall|k: int| 0 <= k < results.len() ==> results[k] == ApplyResult::Applied
}

/// A front insert of a new id into a document sorted by descending id lands
/// where it keeps the document sorted.
proof fn lemma_root_insert_step(d: Seq<Char>, ch: Char)
    requires
        descending_ids(d),
        all_visible(d),
        !ch.deleted,
        !ids_of(d).contains(ch.id),
    ensures
        apply_spec(d, Op::Insert { after: None, ch }).1 == ApplyResult::Applied,
        descending_ids(apply_doc(d, Op::Insert { after: None, ch })),
        all_visible(apply_doc(d, Op::Insert { after: None, ch })),
        apply_doc(d, Op::Insert { after: None, ch }).len() == d.len() + 1,
        forall|c: Char|
            apply_doc(d, Op::Insert { after: None, ch }).contains(c) <==> (d.contains(c) || c == ch),
{
    let ids = ids_of(d);
    let p = skip_pos(ids, 0, ch.id);
    lemma_skip_pos(ids, 0, ch.id);
    let d2 = d.insert(p, ch);
    assert(apply_doc(d, Op::Insert { after: None, ch }) == d2);
    if p < d.len() {
        assert(ids[p] == d[p].id);
        lemma_id_gt_order(ch.id, ids[p], ch.id);
        assert(id_gt(ch.id, d[p].id));
    }
    assert forall|i: int, j: int| 0 <= i < j < d2.len() implies id_gt(d2[i].id, d2[j].id) by {
        if j < p {
        } else if j == p {
            assert(ids[i] == d[i].id);
        } else if i < p {
            assert(d2[j] == d[j - 1]);
        } else if i == p {
            assert(d2[j] == d[j - 1]);
            if j - 1 > p {
                lemma_id_gt_order(ch.id, d[p].id, d[j - 1].id);
            }
        } else {
            assert(d2[i] == d[i - 1]);
            assert(d2[j] == d[j - 1]);
        }
    }
    assert forall|i: int| 0 <= i < d2.len() implies !(#[trigger] d2[i]).deleted by {
        if i > p {
            assert(d2[i] == d[i - 1]);
        }
    }
    assert forall|c: Char| d2.contains(c) <==> (d.contains(c) || c == ch) by {
        if d2.contains(c) {
            let k = choose|k: int| 0 <= k < d2.len() && d2[k] == c;
            if k < p {
                assert(d[k] == c);
            } else if k > p {
                assert(d[k - 1] == c);
            }
        }
        if d.contains(c) {
            let k = choose|k: int| 0 <= k < d.len() && d[k] == c;
            if k < p {
                assert(d2[k] == c);
            } else {
                assert(d2[k + 1] == c);
            }
        }
        if c == ch {
            assert(d2[p] == c);
        }
    }
}

/// Front inserts of new, distinct ids applied in turn to a sorted document:
/// each is applied, and the result is sorted and holds exactly the old
/// characters and the inserted ones.
proof fn lemma_root_inserts_from(d: Seq<Char>, ops: Seq<Op>)
    requires
        descending_ids(d),
        all_visible(d),
        forall|k: int| 0 <= k < ops.len() ==> root_insert(#[trigger] ops[k]),
        inserted_ids_distinct(ops),
        forall|k: int| 0 <= k < ops.len() ==> !ids_of(d).contains(#[trigger] inserted_id(ops[k])->0),
    ensures
        apply_results(d, ops).len() == ops.len(),
        all_applied(apply_results(d, ops)),
        descending_ids(apply_all(d, ops)),
        all_visible(apply_all(d, ops)),
        apply_all(d, ops).len() == d.len() + ops.len(),
        forall|c: Char|
            apply_all(d, ops).contains(c) <==> (d.contains(c) || inserts_char(ops, c)),
    decreases ops.len(),
{
    if ops.len() > 0 {
        let o = ops[0];
        assert(root_insert(o));
        let ch = inserted_char(o)->0;
        assert(o == Op::Insert { after: None, ch });
        assert(!ids_of(d).contains(inserted_id(ops[0])->0));
        lemma_root_insert_step(d, ch);
        let d1 = apply_doc(d, o);
        let rest = ops.drop_first();
        assert forall|k: int| 0 <= k < rest.len() implies root_insert(#[trigger] rest[k]) by {
            assert(rest[k] == ops[k + 1]);
        }
        assert forall|i: int, j: int| 0 <= i < j < rest.len() implies inserted_id(rest[i])
            != inserted_id(rest[j]) by {
            assert(rest[i] == ops[i + 1]);
            assert(rest[j] == ops[j + 1]);
        }
        assert forall|k: int| 0 <= k < rest.len() implies !ids_of(d1).contains(
            #[trigger] inserted_id(rest[k])->0,
        ) by {
            assert(rest[k] == ops[k + 1]);
            assert(root_insert(ops[k + 1]));
            assert(!ids_of(d).contains(inserted_id(ops[k + 1])->0));
            assert(inserted_id(ops[0]) != inserted_id(ops[k + 1]));
            lemma_ids_after(d, o, inserted_id(rest[k])->0);
        }
        lemma_root_inserts_from(d1, rest);
        assert(apply_all(d, ops) == apply_all(d1, rest));
        let rs = apply_results(d, ops);
        assert(rs == seq![apply_spec(d, o).1] + apply_results(d1, rest));
        assert forall|k: int| 0 <= k < rs.len() implies rs[k] == ApplyResult::Applied by {
            if k > 0 {
                assert(rs[k] == apply_results(d1, rest)[k - 1]);
            }
        }
        assert forall|c: Char|
            apply_all(d, ops).contains(c) <==> (d.contains(c) || inserts_char(ops, c)) by {
            assert(d1.contains(c) <==> (d.contains(c) || c == ch));
            if c == ch {
                assert(inserted_char(ops[0]) == Some(c));
            }
            if inserts_char(rest, c) {
                let k = choose|k: int| 0 <= k < rest.len() && inserted_char(#[trigger] rest[k]) == Some(c);
                assert(ops[k + 1] == rest[k]);
            }
            if inserts_char(ops, c) {
                let k = choose|k: int| 0 <= k < ops.len() && inserted_char(#[trigger] ops[k]) == Some(c);
                if k > 0 {
                    assert(rest[k - 1] == ops[k]);
                }
            }
        }
    } else {
        assert(apply_all(d, ops) == d);
    }
}

/// The text of a document without tombstones is the values of all its characters.
pub proof fn lemma_text_all_visible(doc: Seq<Char>)
    requires
        all_visible(doc),
    ensures
        text_of(doc) == doc.map_values(|c: Char| c.value),
    decreases doc.len(),
{
    if doc.len() > 0 {
        let init = doc.drop_last();
        assert(!doc[doc.len() - 1].deleted);
        assert forall|i: int| 0 <= i < init.len() implies !(#[trigger] init[i]).deleted by {
            assert(init[i] == doc[i]);
        }
        lemma_text_all_visible(init);
        assert(doc.map_values(|c: Char| c.value) =~= init.map_values(|c: Char| c.value).push(
            doc.last().value,
        ));
    }
}

/// Inserts of visible characters with distinct ids, all at the front of the
/// document, applied to an empty document in any order: every one is
/// applied, every order gives the same document, and that document holds
/// exactly the inserted characters ordered by descending id, so the text is
/// their values in that order.
pub proof fn lemma_root_inserts_any_order(ops: Seq<Op>, perm: Seq<Op>)
    requires
        forall|k: int| 0 <= k < ops.len() ==> root_insert(#[trigger] ops[k]),
        inserted_ids_distinct(ops),
        perm.to_multiset() == ops.to_multiset(),
    ensures
        apply_results(Seq::empty(), perm).len() == perm.len(),
        all_applied(apply_results(Seq::empty(), perm)),
        apply_all(Seq::empty(), perm) == apply_all(Seq::empty(), ops),
        apply_all(Seq::empty(), ops).len() == ops.len(),
        descending_ids(apply_all(Seq::empty(), ops)),
        forall|c: Char|
            apply_all(Seq::empty(), ops).contains(c) <==> inserts_char(ops, c),
        text_of(apply_all(Seq::empty(), ops)) == apply_all(Seq::empty(), ops).map_values(
            |c: Char| c.value,
        ),
{
    broadcast use vstd::seq_lib::group_to_multiset_ensures;

    let e = Seq::<Char>::empty();
    lemma_root_inserts_from(e, ops);
    assert forall|c: Char| !e.contains(c) by {}
    lemma_text_all_visible(apply_all(e, ops));
    // The ops are pairwise concurrent, so every order converges.
    assert forall|a: Op, b: Op| ops.contains(a) && ops.contains(b) implies a == b || independent(
        a,
        b,
    ) by {
        let i = choose|i: int| 0 <= i < ops.len() && ops[i] == a;
        let j = choose|j: int| 0 <= j < ops.len() && ops[j] == b;
        assert(root_insert(ops[i]) && root_insert(ops[j]));
        if i < j {
            assert(inserted_id(ops[i]) != inserted_id(ops[j]));
        } else if j < i {
            assert(inserted_id(ops[j]) != inserted_id(ops[i]));
        }
    }
    lemma_concurrent_ops_converge(e, ops, perm);
    // The reordering carries over the premises.
    assert(ops.no_duplicates()) by {
        assert forall|i: int, j: int| 0 <= i < ops.len() && 0 <= j < ops.len() && i != j implies ops[i]
            != ops[j] by {
            if i < j {
                assert(inserted_id(ops[i]) != inserted_id(ops[j]));
            } else {
                assert(inserted_id(ops[j]) != inserted_id(ops[i]));
            }
        }
    }
    ops.lemma_multiset_has_no_duplicates();
    perm.lemma_multiset_has_no_duplicates_conv();
    assert forall|k: int| 0 <= k < perm.len() implies root_insert(#[trigger] perm[k]) by {
        assert(perm.to_multiset().count(perm[k]) > 0);
        assert(ops.contains(perm[k]));
        let i = choose|i: int| 0 <= i < ops.len() && ops[i] == perm[k];
        assert(root_insert(ops[i]));
    }
    assert forall|i: int, j: int| 0 <= i < j < perm.len() implies inserted_id(perm[i]) != inserted_id(
        perm[j],
    ) by {
        assert(perm[i] != perm[j]);
        assert(perm.to_multiset().count(perm[i]) > 0);
        assert(perm.to_multiset().count(perm[j]) > 0);
        assert(ops.contains(perm[i]));
        assert(ops.contains(perm[j]));
        let a = choose|a: int| 0 <= a < ops.len() && ops[a] == perm[i];
        let b = choose|b: int| 0 <= b < ops.len() && ops[b] == perm[j];
        if a < b {
            assert(inserted_id(ops[a]) != inserted_id(ops[b]));
        } else {
            assert(inserted_id(ops[b]) != inserted_id(ops[a]));
        }
    }
    lemma_root_inserts_from(e, perm);
}

} // verus!
