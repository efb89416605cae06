//! OR-Set: add/remove semantics, add-wins merge and the merge axioms.

use proptest::arbitrary::any;
use proptest::collection::vec as vec_of;
use proptest::test_runner::{TestCaseError, TestRunner};
use rustcrdt::crdt::orset::OrSet;

/// Build an `OrSet<u8>` by replaying a sequence of (add?, value) operations.
fn build(ops: &[(bool, u8)]) -> OrSet<u8> {
    let mut s = OrSet::new();
    for &(is_add, val) in ops {
        if is_add {
            s.add(val);
        } else {
            s.remove(&val);
        }
    }
    s
}

#[test]
fn add_then_contains() {
    let mut s: OrSet<&'static str> = OrSet::new();
    s.add("a");
    assert!(s.contains(&"a"));
}

#[test]
fn concurrent_add_wins_over_remove() {
    let mut a: OrSet<&'static str> = OrSet::new();
    a.add("x");
    a.remove(&"x");
    assert!(!a.contains(&"x"));

    let mut b: OrSet<&'static str> = OrSet::new();
    b.add("x");

    a.merge(&b);
    assert!(a.contains(&"x"));
}

#[test]
fn orset_tests_merge_is_idempotent() {
    let mut a: OrSet<&'static str> = OrSet::new();
    a.add("a");
    a.add("b");
    a.remove(&"a");
    let snapshot = a.clone();
    a.merge(&snapshot);
    assert_eq!(a.contains(&"a"), snapshot.contains(&"a"));
    assert_eq!(a.contains(&"b"), snapshot.contains(&"b"));
}

#[test]
fn empty_set_contains_nothing() {
    let s: OrSet<u8> = OrSet::new();
    assert!(!s.contains(&0));
}

#[test]
fn remove_of_absent_element_changes_nothing() {
    let mut s: OrSet<u8> = OrSet::new();
    s.add(1);
    let before = s.clone();
    s.remove(&2);
    assert_eq!(s, before);
}

#[test]
fn remove_then_readd_contains() {
    let mut s: OrSet<u8> = OrSet::new();
    s.add(4);
    s.remove(&4);
    assert!(!s.contains(&4));
    s.add(4);
    assert!(s.contains(&4));
}

#[test]
fn add_returns_distinct_version_4_tags() {
    let mut s: OrSet<u8> = OrSet::new();
    let t1 = s.add(9);
    let t2 = s.add(9);
    assert_ne!(t1, t2);
    let mask: u128 = 0x0000_0000_0000_f000_c000_0000_0000_0000;
    assert_eq!(t1 & mask, 0x0000_0000_0000_4000_8000_0000_0000_0000);
    assert_eq!(t2 & mask, 0x0000_0000_0000_4000_8000_0000_0000_0000);
}

#[test]
fn remove_tombstones_observed_tags_only() {
    // b's tag for "y" reaches a after a removed "y": it survives the merge.
    let mut a: OrSet<&'static str> = OrSet::new();
    let mut b: OrSet<&'static str> = OrSet::new();
    a.add("y");
    b.add("y");
    a.remove(&"y");
    b.merge(&a);
    assert!(b.contains(&"y"));
    b.remove(&"y");
    assert!(!b.contains(&"y"));
}

#[test]
fn compact_keeps_membership() {
    let mut s: OrSet<u8> = OrSet::new();
    s.add(1);
    s.add(2);
    s.add(3);
    s.remove(&2);
    s.remove(&3);
    s.add(3);
    s.compact();
    assert!(s.contains(&1));
    assert!(!s.contains(&2));
    assert!(s.contains(&3));
    // 2 was dropped entirely: re-adding it starts from nothing.
    s.add(2);
    assert!(s.contains(&2));
}

#[test]
fn compact_drops_dead_entries() {
    let mut s: OrSet<u8> = OrSet::new();
    s.add(5);
    s.remove(&5);
    s.compact();
    assert_eq!(s, OrSet::new());
}

#[test]
fn prop_merge_is_commutative() {
    let mut runner = TestRunner::default();
    let ops = vec_of((any::<bool>(), any::<u8>()), 0..=5);
    runner
        .run(&(ops.clone(), ops), |(ops_a, ops_b)| {
            let a = build(&ops_a);
            let b = build(&ops_b);
            let mut ab = a.clone();
            ab.merge(&b);
            let mut ba = b.clone();
            ba.merge(&a);
            if ab != ba {
                return Err(TestCaseError::fail("merge is not commutative"));
            }
            Ok(())
        })
        .unwrap();
}

#[test]
fn prop_merge_is_associative() {
    let mut runner = TestRunner::default();
    let ops = vec_of((any::<bool>(), any::<u8>()), 0..=5);
    runner
        .run(&(ops.clone(), ops.clone(), ops), |(ops_a, ops_b, ops_c)| {
            let a = build(&ops_a);
            let b = build(&ops_b);
            let c = build(&ops_c);
            let mut bc = b.clone();
            bc.merge(&c);
            let mut left = a.clone();
            left.merge(&bc);
            let mut ab = a.clone();
            ab.merge(&b);
            ab.merge(&c);
            if left != ab {
                return Err(TestCaseError::fail("merge is not associative"));
            }
            Ok(())
        })
        .unwrap();
}

#[test]
fn prop_merge_is_idempotent() {
    let mut runner = TestRunner::default();
    runner
        .run(&vec_of((any::<bool>(), any::<u8>()), 0..=5), |ops| {
            let a = build(&ops);
            let mut merged = a.clone();
            merged.merge(&a);
            if merged != a {
                return Err(TestCaseError::fail("merge is not idempotent"));
            }
            Ok(())
        })
        .unwrap();
}

#[test]
fn add_returns_a_version_four_tag() {
    let mut s: OrSet<u8> = OrSet::new();
    for v in 0..8u8 {
        let tag = s.add(v);
        assert_eq!(
            tag & 0x0000_0000_0000_f000_c000_0000_0000_0000u128,
            0x0000_0000_0000_4000_8000_0000_0000_0000u128
        );
    }
}

#[test]
fn add_tagged_records_the_given_tag() {
    let mut a: OrSet<u8> = OrSet::new();
    let mut b: OrSet<u8> = OrSet::new();
    a.add_tagged(7, 1);
    b.add_tagged(7, 1);
    b.remove(&7);
    a.add_tagged(7, 2);
    a.merge(&b);
    // The tag 2 add was never observed by the remove: add wins.
    assert!(a.contains(&7));
    let mut c: OrSet<u8> = OrSet::new();
    c.add_tagged(7, 1);
    c.merge(&b);
    assert!(!c.contains(&7));
}
