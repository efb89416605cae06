//! G-Counter: the three CRDT axioms on hand-made examples, and the value.

use rustcrdt::crdt::gcounter::GCounter;

fn counter(slots: &[(u64, u64)]) -> GCounter {
    let mut g = GCounter::new();
    for &(p, v) in slots {
        g.increment(p, v);
    }
    g
}

#[test]
fn merge_is_commutative() {
    let mut a = counter(&[(1, 3), (2, 1)]);
    let mut b = counter(&[(1, 2), (3, 7)]);
    let a0 = a.clone();
    let b0 = b.clone();
    a.merge(&b0);
    b.merge(&a0);
    assert_eq!(a, b);
}

#[test]
fn gcounter_tests_merge_is_idempotent() {
    let a = counter(&[(1, 3), (2, 1)]);
    let mut b = a.clone();
    b.merge(&a);
    assert_eq!(a, b);
}

#[test]
fn merge_is_associative() {
    let a = counter(&[(1, 3)]);
    let b = counter(&[(2, 5)]);
    let c = counter(&[(1, 7), (3, 2)]);

    let mut left = a.clone();
    {
        let mut bc = b.clone();
        bc.merge(&c);
        left.merge(&bc);
    }

    let mut right = a.clone();
    right.merge(&b);
    right.merge(&c);

    assert_eq!(left, right);
}

#[test]
fn value_is_sum_of_slots() {
    let g = counter(&[(1, 3), (2, 5), (3, 2)]);
    assert_eq!(g.value(), 10);
}

#[test]
fn new_counter_is_zero() {
    let g = GCounter::new();
    assert_eq!(g.value(), 0);
    assert_eq!(g.count_of(7), 0);
    assert!(g.slots().is_empty());
    assert_eq!(GCounter::default(), g);
}

#[test]
fn increment_adds_to_own_slot_only() {
    let mut g = counter(&[(1, 3), (2, 5)]);
    g.increment(1, 4);
    assert_eq!(g.count_of(1), 7);
    assert_eq!(g.count_of(2), 5);
    assert_eq!(g.value(), 12);
}

#[test]
fn increment_raises_value_by_amount() {
    let mut g = counter(&[(4, 9)]);
    let before = g.value();
    g.increment(6, 11);
    assert_eq!(g.value(), before + 11);
}

#[test]
fn merge_takes_elementwise_max() {
    let mut a = counter(&[(1, 3), (2, 9)]);
    let b = counter(&[(1, 8), (3, 4)]);
    a.merge(&b);
    assert_eq!(a.count_of(1), 8);
    assert_eq!(a.count_of(2), 9);
    assert_eq!(a.count_of(3), 4);
    assert_eq!(a.value(), 21);
}

#[test]
fn merge_never_lowers_value() {
    let mut a = counter(&[(1, 30)]);
    let b = counter(&[(1, 2), (2, 2)]);
    let before = a.value();
    a.merge(&b);
    assert!(a.value() >= before);
    assert_eq!(a.value(), 32);
}

#[test]
fn zero_increment_creates_a_slot() {
    let mut a = GCounter::new();
    a.increment(5, 0);
    assert_eq!(a.slots(), vec![(5, 0)]);
    assert_ne!(a, GCounter::new());
}

#[test]
fn slots_lists_every_peer_once() {
    let g = counter(&[(1, 3), (2, 5), (3, 2), (1, 1)]);
    let mut s = g.slots();
    s.sort();
    assert_eq!(s, vec![(1, 4), (2, 5), (3, 2)]);
}
