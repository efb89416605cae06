//! RGA sequence: inserts, tombstones, convergence, and missing anchors.

use proptest::char::range as char_range;
use proptest::test_runner::{TestCaseError, TestRunner};
use rustcrdt::crdt::sequence::{ApplyResult, Char, Id, Op, Rga};

fn id(peer_id: u64, counter: u64) -> Id {
    Id { peer_id, counter }
}

fn mk_insert(after: Option<Id>, peer_id: u64, counter: u64, value: char) -> Op {
    Op::Insert {
        after,
        ch: Char { id: id(peer_id, counter), value, deleted: false },
    }
}

fn mk_delete(peer_id: u64, counter: u64) -> Op {
    Op::Delete { target: id(peer_id, counter) }
}

fn apply_all(ops: &[Op]) -> Rga {
    let mut r = Rga::new();
    for op in ops {
        r.apply(op);
    }
    r
}

#[test]
fn empty_doc_renders_as_empty_string() {
    assert_eq!(Rga::new().text(), "");
}

#[test]
fn single_insert_at_start() {
    let r = apply_all(&[mk_insert(None, 1, 1, 'a')]);
    assert_eq!(r.text(), "a");
}

#[test]
fn sequential_inserts_build_string() {
    let ops = [
        mk_insert(None, 1, 1, 'a'),
        mk_insert(Some(id(1, 1)), 1, 2, 'b'),
        mk_insert(Some(id(1, 2)), 1, 3, 'c'),
    ];
    assert_eq!(apply_all(&ops).text(), "abc");
}

#[test]
fn delete_tombstones_char_and_hides_it() {
    let ops = [
        mk_insert(None, 1, 1, 'a'),
        mk_insert(Some(id(1, 1)), 1, 2, 'b'),
        mk_delete(1, 1),
    ];
    assert_eq!(apply_all(&ops).text(), "b");
}

#[test]
fn insert_is_idempotent() {
    let op = mk_insert(None, 1, 1, 'a');
    let mut r = Rga::new();
    r.apply(&op);
    r.apply(&op);
    assert_eq!(r.text(), "a");
}

#[test]
fn delete_is_idempotent() {
    let del = mk_delete(1, 1);
    let mut r = apply_all(&[mk_insert(None, 1, 1, 'a')]);
    r.apply(&del);
    r.apply(&del);
    assert_eq!(r.text(), "");
}

#[test]
fn tombstone_anchor_remains_valid_for_later_insert() {
    let ops = [
        mk_insert(None, 1, 1, 'a'),
        mk_insert(Some(id(1, 1)), 1, 2, 'b'),
        mk_delete(1, 1),
        mk_insert(Some(id(1, 1)), 1, 3, 'c'),
    ];
    // Sequence: [a(deleted), c(1,3), b(1,2)]; (1,3) > (1,2) so c comes first.
    assert_eq!(apply_all(&ops).text(), "cb");
}

#[test]
fn concurrent_inserts_at_same_anchor_converge() {
    let anchor = mk_insert(None, 1, 1, 'x');
    let op_a = mk_insert(Some(id(1, 1)), 1, 2, 'a');
    let op_b = mk_insert(Some(id(1, 1)), 2, 1, 'b');

    let r1 = apply_all(&[anchor.clone(), op_a.clone(), op_b.clone()]);
    let r2 = apply_all(&[anchor.clone(), op_b.clone(), op_a.clone()]);

    assert_eq!(r1.text(), r2.text());
    assert_eq!(r1.text(), "xba");
}

#[test]
fn three_concurrent_inserts_converge_in_all_orderings() {
    let op1 = mk_insert(None, 1, 1, 'a');
    let op2 = mk_insert(None, 2, 1, 'b');
    let op3 = mk_insert(None, 3, 1, 'c');

    let orderings: [&[&Op]; 6] = [
        &[&op1, &op2, &op3],
        &[&op1, &op3, &op2],
        &[&op2, &op1, &op3],
        &[&op2, &op3, &op1],
        &[&op3, &op1, &op2],
        &[&op3, &op2, &op1],
    ];

    let texts: Vec<String> = orderings
        .iter()
        .map(|order| {
            let mut r = Rga::new();
            for op in *order {
                r.apply(op);
            }
            r.text()
        })
        .collect();

    for t in &texts {
        assert_eq!(t, &texts[0]);
    }
    assert_eq!(texts[0], "cba");
}

#[test]
fn missing_anchor_is_reported_and_changes_nothing() {
    let mut r = apply_all(&[mk_insert(None, 1, 1, 'a')]);
    assert_eq!(r.apply(&mk_insert(Some(id(9, 9)), 1, 2, 'b')), ApplyResult::MissingAnchor);
    assert_eq!(r.apply(&mk_delete(9, 9)), ApplyResult::MissingAnchor);
    assert_eq!(r.text(), "a");
    // Once the anchor arrives the insert applies.
    assert_eq!(r.apply(&mk_insert(None, 9, 9, 'z')), ApplyResult::Applied);
    assert_eq!(r.apply(&mk_insert(Some(id(9, 9)), 1, 2, 'b')), ApplyResult::Applied);
    assert_eq!(r.text(), "zba");
}

#[test]
fn second_application_is_reported_as_duplicate() {
    let mut r = Rga::new();
    let ins = mk_insert(None, 1, 1, 'a');
    assert_eq!(r.apply(&ins), ApplyResult::Applied);
    assert_eq!(r.apply(&ins), ApplyResult::Duplicate);
    let del = mk_delete(1, 1);
    assert_eq!(r.apply(&del), ApplyResult::Applied);
    assert_eq!(r.apply(&del), ApplyResult::Duplicate);
    // A different op with an id already present is a duplicate too.
    assert_eq!(r.apply(&mk_insert(None, 1, 1, 'q')), ApplyResult::Duplicate);
    assert_eq!(r.text(), "");
}

#[test]
fn insert_skips_past_greater_ids_only() {
    // x(1,1) then b(5,1) after x, then a(3,1) after x: a lands after b.
    let ops = [
        mk_insert(None, 1, 1, 'x'),
        mk_insert(Some(id(1, 1)), 5, 1, 'b'),
        mk_insert(Some(id(1, 1)), 3, 1, 'a'),
        mk_insert(Some(id(1, 1)), 7, 1, 'c'),
    ];
    assert_eq!(apply_all(&ops).text(), "xcba");
}

#[test]
fn id_at_visible_skips_tombstones() {
    let ops = [
        mk_insert(None, 1, 1, 'a'),
        mk_insert(Some(id(1, 1)), 1, 2, 'b'),
        mk_insert(Some(id(1, 2)), 1, 3, 'c'),
        mk_delete(1, 2),
    ];
    let r = apply_all(&ops);
    assert_eq!(r.id_at_visible(0), Some(id(1, 1)));
    assert_eq!(r.id_at_visible(1), Some(id(1, 3)));
    assert_eq!(r.id_at_visible(2), None);
}

#[test]
fn inserted_tombstone_stays_hidden() {
    let op = Op::Insert { after: None, ch: Char { id: id(2, 2), value: 'h', deleted: true } };
    let mut r = Rga::new();
    assert_eq!(r.apply(&op), ApplyResult::Applied);
    assert_eq!(r.text(), "");
    assert_eq!(r.id_at_visible(0), None);
}

#[test]
fn concurrent_delete_and_insert_commute() {
    let base = [mk_insert(None, 1, 1, 'a'), mk_insert(Some(id(1, 1)), 1, 2, 'b')];
    let del = mk_delete(1, 1);
    let ins = mk_insert(Some(id(1, 1)), 2, 1, 'z');
    let mut r1 = apply_all(&base);
    r1.apply(&del);
    r1.apply(&ins);
    let mut r2 = apply_all(&base);
    r2.apply(&ins);
    r2.apply(&del);
    assert_eq!(r1.text(), r2.text());
    assert_eq!(r1.text(), "zb");
}

#[test]
fn non_ascii_text_round_trips() {
    let ops = [mk_insert(None, 1, 1, 'é'), mk_insert(Some(id(1, 1)), 1, 2, '✓')];
    assert_eq!(apply_all(&ops).text(), "é✓");
}

#[test]
fn prop_insert_idempotent() {
    let mut runner = TestRunner::default();
    runner
        .run(&(1u64..=10, 1u64..=100, char_range('a', 'z')), |(p, c, ch)| {
            let op = mk_insert(None, p, c, ch);
            let once = apply_all(&[op.clone()]);
            let mut twice = Rga::new();
            twice.apply(&op);
            twice.apply(&op);
            if once.text() != twice.text() {
                return Err(TestCaseError::fail("insert is not idempotent"));
            }
            Ok(())
        })
        .unwrap();
}

#[test]
fn prop_concurrent_inserts_commute() {
    let mut runner = TestRunner::default();
    runner
        .run(
            &(1u64..=4, 1u64..=10, char_range('a', 'm'), 5u64..=8, 1u64..=10, char_range('n', 'z')),
            |(p1, c1, ch1, p2, c2, ch2)| {
                let op1 = mk_insert(None, p1, c1, ch1);
                let op2 = mk_insert(None, p2, c2, ch2);
                let r1 = apply_all(&[op1.clone(), op2.clone()]);
                let r2 = apply_all(&[op2.clone(), op1.clone()]);
                if r1.text() != r2.text() {
                    return Err(TestCaseError::fail("inserts do not commute"));
                }
                Ok(())
            },
        )
        .unwrap();
}

#[test]
fn prop_three_concurrent_inserts_associative() {
    let mut runner = TestRunner::default();
    runner
        .run(
            &(
                (1u64..=3, 1u64..=10, char_range('a', 'i')),
                (4u64..=6, 1u64..=10, char_range('j', 'r')),
                (7u64..=9, 1u64..=10, char_range('s', 'z')),
            ),
            |((p1, c1, ch1), (p2, c2, ch2), (p3, c3, ch3))| {
                let op1 = mk_insert(None, p1, c1, ch1);
                let op2 = mk_insert(None, p2, c2, ch2);
                let op3 = mk_insert(None, p3, c3, ch3);
                let t123 = apply_all(&[op1.clone(), op2.clone(), op3.clone()]).text();
                let others = [
                    apply_all(&[op1.clone(), op3.clone(), op2.clone()]).text(),
                    apply_all(&[op2.clone(), op1.clone(), op3.clone()]).text(),
                    apply_all(&[op2.clone(), op3.clone(), op1.clone()]).text(),
                    apply_all(&[op3.clone(), op1.clone(), op2.clone()]).text(),
                    apply_all(&[op3.clone(), op2.clone(), op1.clone()]).text(),
                ];
                for t in &others {
                    if *t != t123 {
                        return Err(TestCaseError::fail("orderings diverge"));
                    }
                }
                Ok(())
            },
        )
        .unwrap();
}

#[test]
fn causal_orders_of_dependent_ops_converge() {
    let a = mk_insert(None, 1, 1, 'a');
    let b = mk_insert(Some(id(1, 1)), 2, 1, 'b');
    let c = mk_insert(Some(id(1, 1)), 3, 1, 'c');
    let d = mk_insert(Some(id(2, 1)), 1, 2, 'd');
    let e = mk_delete(1, 1);
    let orders: [[&Op; 5]; 4] = [
        [&a, &b, &c, &d, &e],
        [&a, &c, &b, &e, &d],
        [&a, &b, &d, &c, &e],
        [&a, &e, &c, &b, &d],
    ];
    let texts: Vec<String> = orders
        .iter()
        .map(|order| {
            let mut r = Rga::new();
            for op in order.iter() {
                assert_ne!(r.apply(op), ApplyResult::MissingAnchor);
            }
            r.text()
        })
        .collect();
    for t in &texts {
        assert_eq!(t, &texts[0]);
    }
    assert_eq!(texts[0], "cbd");
}

#[test]
fn id_at_visible_names_the_char_shown_at_that_offset() {
    let a = id(1, 1);
    let b = id(1, 2);
    let r = apply_all(&[
        mk_insert(None, 1, 1, 'x'),
        mk_insert(Some(a), 1, 2, 'y'),
        mk_insert(Some(b), 1, 3, 'z'),
        mk_delete(1, 2),
    ]);
    let text: Vec<char> = r.text().chars().collect();
    assert_eq!(text, vec!['x', 'z']);
    assert_eq!(r.id_at_visible(0), Some(id(1, 1)));
    assert_eq!(r.id_at_visible(1), Some(id(1, 3)));
    assert_eq!(r.id_at_visible(text.len()), None);
}

#[test]
fn two_applicable_ops_commute_on_one_document() {
    let base = apply_all(&[mk_insert(None, 1, 1, 'a'), mk_insert(Some(id(1, 1)), 1, 2, 'b')]);
    let o1 = mk_insert(Some(id(1, 1)), 2, 1, 'c');
    let o2 = mk_delete(1, 2);
    let mut r1 = base.clone();
    r1.apply(&o1);
    r1.apply(&o2);
    let mut r2 = base.clone();
    r2.apply(&o2);
    r2.apply(&o1);
    assert_eq!(r1.text(), "ac");
    assert_eq!(r1.text(), r2.text());
    for k in 0..4 {
        assert_eq!(r1.id_at_visible(k), r2.id_at_visible(k));
    }
}

#[test]
fn entries_stay_in_order_and_tombstones_stay_set() {
    let mut r = apply_all(&[
        mk_insert(None, 1, 1, 'a'),
        mk_insert(Some(id(1, 1)), 1, 2, 'b'),
        mk_insert(Some(id(1, 2)), 1, 3, 'c'),
    ]);
    assert_eq!(r.apply(&mk_delete(1, 2)), ApplyResult::Applied);
    // Re-sending the original insert does not bring the character back.
    assert_eq!(r.apply(&mk_insert(Some(id(1, 1)), 1, 2, 'b')), ApplyResult::Duplicate);
    assert_eq!(r.text(), "ac");
    // A later insert lands among the old entries without reordering them.
    assert_eq!(r.apply(&mk_insert(Some(id(1, 1)), 2, 9, 'q')), ApplyResult::Applied);
    assert_eq!(r.text(), "aqc");
    assert_eq!(r.id_at_visible(0), Some(id(1, 1)));
    assert_eq!(r.id_at_visible(2), Some(id(1, 3)));
}

#[test]
fn front_inserts_read_in_descending_id_order() {
    let ops = [
        mk_insert(None, 2, 5, 'm'),
        mk_insert(None, 7, 1, 'h'),
        mk_insert(None, 2, 9, 'i'),
        mk_insert(None, 1, 40, 'e'),
    ];
    let mut r = Rga::new();
    for op in &ops {
        assert_eq!(r.apply(op), ApplyResult::Applied);
    }
    // Ids descending: (7,1) (2,9) (2,5) (1,40).
    assert_eq!(r.text(), "hime");
}

#[test]
fn apply_ops_reports_each_outcome_in_order() {
    let ops = vec![
        mk_insert(None, 3, 1, 'c'),
        mk_insert(None, 1, 1, 'a'),
        mk_insert(None, 3, 1, 'c'),
        mk_delete(9, 9),
        mk_insert(None, 2, 1, 'b'),
    ];
    let mut r = Rga::new();
    let results = r.apply_ops(&ops);
    assert_eq!(
        results,
        vec![
            ApplyResult::Applied,
            ApplyResult::Applied,
            ApplyResult::Duplicate,
            ApplyResult::MissingAnchor,
            ApplyResult::Applied,
        ]
    );
    assert_eq!(r.text(), "cba");
}
