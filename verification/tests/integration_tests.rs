//! Multi-replica convergence, in process: messages are handed over directly.

use rustcrdt::crdt::sequence::{Char, Id, Op};
use rustcrdt::network::peer::Peer;
use rustcrdt::network::protocol::Message;

fn ins(peer_id: u64, counter: u64, value: char) -> Op {
    Op::Insert {
        after: None,
        ch: Char { id: Id { peer_id, counter }, value, deleted: false },
    }
}

fn ins_after(after: Id, peer_id: u64, counter: u64, value: char) -> Op {
    Op::Insert {
        after: Some(after),
        ch: Char { id: Id { peer_id, counter }, value, deleted: false },
    }
}

#[test]
fn three_peers_converge_after_concurrent_edits() {
    let mut p1 = Peer::new(1);
    let mut p2 = Peer::new(2);
    let mut p3 = Peer::new(3);

    let a = ins(1, 1, 'a');
    let b = ins(2, 1, 'b');
    let c = ins(3, 1, 'c');

    p1.local_op(a.clone());
    p2.local_op(b.clone());
    p3.local_op(c.clone());

    p1.remote_op(Message::Op { from: 2, seq: 0, op: b.clone() });
    p1.remote_op(Message::Op { from: 3, seq: 0, op: c.clone() });

    p2.remote_op(Message::Op { from: 3, seq: 0, op: c.clone() });
    p2.remote_op(Message::Op { from: 1, seq: 0, op: a.clone() });

    p3.remote_op(Message::Op { from: 2, seq: 0, op: b.clone() });
    p3.remote_op(Message::Op { from: 1, seq: 0, op: a.clone() });

    let t1 = p1.text();
    let t2 = p2.text();
    let t3 = p3.text();

    assert_eq!(t1, t2, "p1 and p2 diverged: {t1:?} vs {t2:?}");
    assert_eq!(t2, t3, "p2 and p3 diverged: {t2:?} vs {t3:?}");
    assert_eq!(t1.len(), 3, "expected 3 chars, got: {t1:?}");
}

#[test]
fn duplicate_op_delivery_is_idempotent() {
    let mut p = Peer::new(1);
    let msg = Message::Op { from: 2, seq: 0, op: ins(2, 1, 'x') };
    p.remote_op(msg.clone());
    p.remote_op(msg);
    assert_eq!(p.text(), "x");
}

#[test]
fn offline_peer_converges_after_sync() {
    let mut online = Peer::new(1);
    let mut offline = Peer::new(2);

    let op0 = ins(1, 1, 'a');
    online.local_op(op0.clone());
    offline.remote_op(Message::Op { from: 1, seq: 0, op: op0 });

    let op1 = ins(1, 2, 'b');
    let op2 = ins(1, 3, 'c');
    online.local_op(op1.clone());
    online.local_op(op2.clone());

    offline.remote_op(Message::Sync { from: 1, ops: vec![op1, op2] });

    assert_eq!(online.text(), offline.text());
}

#[test]
fn sync_applies_ops_whose_anchor_comes_later_in_the_batch() {
    let mut p = Peer::new(1);
    let a = ins(2, 1, 'a');
    let b = ins_after(Id { peer_id: 2, counter: 1 }, 2, 2, 'b');
    let c = ins_after(Id { peer_id: 2, counter: 2 }, 2, 3, 'c');
    p.remote_op(Message::Sync { from: 2, ops: vec![c, b, a] });
    assert_eq!(p.text(), "abc");
    assert_eq!(p.waiting_count(), 0);
    assert_eq!(p.op_count(2), 3);
}

#[test]
fn op_with_missing_anchor_waits_for_it() {
    let mut p = Peer::new(1);
    let late = ins_after(Id { peer_id: 3, counter: 1 }, 3, 2, 'y');
    p.remote_op(Message::Op { from: 3, seq: 2, op: late });
    assert_eq!(p.text(), "");
    assert_eq!(p.waiting_count(), 1);
    p.remote_op(Message::Op { from: 3, seq: 1, op: ins(3, 1, 'x') });
    assert_eq!(p.text(), "xy");
    assert_eq!(p.waiting_count(), 0);
}

#[test]
fn hello_changes_nothing() {
    let mut p = Peer::new(1);
    p.browser_insert(0, 'k');
    p.remote_op(Message::Hello { peer_id: 9 });
    assert_eq!(p.text(), "k");
    assert_eq!(p.held_ops().len(), 1);
}

#[test]
fn own_ids_from_an_earlier_session_advance_the_counter() {
    // The replica restarts empty, then receives ops it made before.
    let mut p = Peer::new(5);
    p.remote_op(Message::Sync { from: 6, ops: vec![ins(5, 1, 'a'), ins(5, 7, 'b')] });
    let op = p.browser_insert(0, 'z').unwrap();
    match op {
        Op::Insert { ch, .. } => assert_eq!(ch.id, Id { peer_id: 5, counter: 8 }),
        Op::Delete { .. } => panic!("expected an insert"),
    }
    assert_eq!(p.text().chars().count(), 3);
}

#[test]
fn op_counts_follow_applied_ops_per_peer() {
    let mut p = Peer::new(1);
    p.browser_insert(0, 'a');
    p.remote_op(Message::Op { from: 2, seq: 0, op: ins(2, 1, 'b') });
    p.remote_op(Message::Op { from: 2, seq: 1, op: ins(2, 1, 'b') });
    p.remote_op(Message::Op { from: 3, seq: 0, op: ins(3, 1, 'c') });
    let mut counts = p.op_counts();
    counts.sort();
    assert_eq!(counts, vec![(1, 1), (2, 1), (3, 1)]);
}

#[test]
fn replayed_log_restores_the_document() {
    let mut first = Peer::new(1);
    first.browser_insert(0, 'h');
    first.browser_insert(1, 'i');
    first.browser_delete(0);
    let log = first.held_ops();
    let mut restarted = Peer::new(1);
    restarted.replay_ops(log);
    assert_eq!(restarted.text(), first.text());
    assert_eq!(restarted.text(), "i");
    // New local ids do not collide with the replayed ones.
    restarted.browser_insert(1, '!');
    assert_eq!(restarted.text(), "i!");
}

#[test]
fn held_ops_are_what_a_reconnecting_peer_needs() {
    let mut a = Peer::new(1);
    let mut b = Peer::new(2);
    a.browser_insert(0, 'x');
    a.browser_insert(1, 'y');
    b.browser_insert(0, 'q');
    b.remote_op(Message::Sync { from: 1, ops: a.held_ops() });
    a.remote_op(Message::Sync { from: 2, ops: b.held_ops() });
    assert_eq!(a.text(), b.text());
}
