//! Browser edits: text offsets become CRDT ops on the replica.

use rustcrdt::crdt::sequence::{Char, Id, Op};
use rustcrdt::network::peer::Peer;

#[test]
fn browser_insert_appends_char() {
    let mut p = Peer::new(1);
    p.browser_insert(0, 'a');
    assert_eq!(p.text(), "a");
}

#[test]
fn browser_insert_at_offset_uses_correct_anchor() {
    let mut p = Peer::new(1);
    p.browser_insert(0, 'a');
    p.browser_insert(1, 'c');
    p.browser_insert(1, 'b');
    assert_eq!(p.text(), "abc");
}

#[test]
fn browser_delete_removes_char() {
    let mut p = Peer::new(1);
    p.browser_insert(0, 'a');
    p.browser_insert(1, 'b');
    p.browser_delete(0);
    assert_eq!(p.text(), "b");
}

#[test]
fn browser_delete_out_of_range_is_noop() {
    let mut p = Peer::new(1);
    p.browser_insert(0, 'x');
    assert!(p.browser_delete(99).is_none());
    assert_eq!(p.text(), "x");
}

#[test]
fn browser_insert_returns_the_op_it_applied() {
    let mut p = Peer::new(4);
    let first = p.browser_insert(0, 'a').unwrap();
    assert_eq!(
        first,
        Op::Insert { after: None, ch: Char { id: Id { peer_id: 4, counter: 1 }, value: 'a', deleted: false } }
    );
    let second = p.browser_insert(1, 'b').unwrap();
    assert_eq!(
        second,
        Op::Insert {
            after: Some(Id { peer_id: 4, counter: 1 }),
            ch: Char { id: Id { peer_id: 4, counter: 2 }, value: 'b', deleted: false },
        }
    );
    assert_eq!(p.browser_delete(0), Some(Op::Delete { target: Id { peer_id: 4, counter: 1 } }));
    assert_eq!(p.text(), "b");
}

#[test]
fn browser_insert_past_the_end_is_noop() {
    let mut p = Peer::new(1);
    p.browser_insert(0, 'x');
    assert!(p.browser_insert(5, 'y').is_none());
    assert_eq!(p.text(), "x");
    assert_eq!(p.held_ops().len(), 1);
}
