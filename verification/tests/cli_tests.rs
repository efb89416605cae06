//! CLI commands processed against a replica.

use rustcrdt::crdt::sequence::{Char, Id, Op};
use rustcrdt::network::peer::Peer;
use rustcrdt::network::protocol::Message;
use rustcrdt::ui::cli::{process, CliOutcome};

#[test]
fn insert_appends_text_in_order() {
    let mut p = Peer::new(1);
    process(&mut p, "insert abc");
    assert_eq!(p.text(), "abc");
}

#[test]
fn insert_with_spaces_preserved() {
    let mut p = Peer::new(1);
    process(&mut p, "insert hello world");
    assert_eq!(p.text(), "hello world");
}

#[test]
fn delete_removes_range() {
    let mut p = Peer::new(1);
    process(&mut p, "insert hello");
    process(&mut p, "delete 1 3");
    assert_eq!(p.text(), "ho");
}

#[test]
fn delete_out_of_range_is_noop() {
    let mut p = Peer::new(1);
    process(&mut p, "insert hi");
    process(&mut p, "delete 99 5");
    assert_eq!(p.text(), "hi");
}

#[test]
fn text_command_does_not_quit() {
    let mut p = Peer::new(1);
    process(&mut p, "insert hi");
    let out = process(&mut p, "text");
    assert!(out.keep_going());
    assert_eq!(out, CliOutcome::PrintText("hi".to_string()));
}

#[test]
fn peers_command_does_not_quit() {
    let mut p = Peer::new(1);
    let out = process(&mut p, "peers");
    assert!(out.keep_going());
    assert_eq!(out, CliOutcome::ShowPeers);
}

#[test]
fn quit_returns_false() {
    let mut p = Peer::new(1);
    assert!(!process(&mut p, "quit").keep_going());
    assert!(!process(&mut p, "q").keep_going());
}

#[test]
fn empty_line_continues() {
    let mut p = Peer::new(1);
    assert!(process(&mut p, "   ").keep_going());
}

#[test]
fn unknown_command_continues() {
    let mut p = Peer::new(1);
    let out = process(&mut p, "frobnicate");
    assert!(out.keep_going());
    assert_eq!(out, CliOutcome::Unknown("frobnicate".to_string()));
}

#[test]
fn surrounding_whitespace_is_ignored() {
    let mut p = Peer::new(1);
    process(&mut p, "\t insert  ab \n");
    assert_eq!(p.text(), "ab");
    assert_eq!(process(&mut p, "  text  "), CliOutcome::PrintText("ab".to_string()));
}

#[test]
fn delete_with_bad_position_uses_zero() {
    let mut p = Peer::new(1);
    process(&mut p, "insert abcd");
    let out = process(&mut p, "delete x 2");
    assert_eq!(out, CliOutcome::Continue { usage_errors: 1 });
    assert_eq!(p.text(), "cd");
}

#[test]
fn delete_without_arguments_reports_two_usage_errors() {
    let mut p = Peer::new(1);
    process(&mut p, "insert ab");
    assert_eq!(process(&mut p, "delete"), CliOutcome::Continue { usage_errors: 2 });
    assert_eq!(process(&mut p, "delete 1"), CliOutcome::Continue { usage_errors: 1 });
    assert_eq!(p.text(), "ab");
}

#[test]
fn delete_arguments_follow_usize_parsing() {
    let mut p = Peer::new(1);
    process(&mut p, "insert abcdef");
    assert_eq!(process(&mut p, "delete +1 2"), CliOutcome::Continue { usage_errors: 0 });
    assert_eq!(p.text(), "adef");
    assert_eq!(process(&mut p, "delete -1 1"), CliOutcome::Continue { usage_errors: 1 });
    assert_eq!(p.text(), "def");
    assert_eq!(
        process(&mut p, "delete 0 99999999999999999999999"),
        CliOutcome::Continue { usage_errors: 1 }
    );
    assert_eq!(process(&mut p, "delete + 1"), CliOutcome::Continue { usage_errors: 1 });
    assert_eq!(p.text(), "ef");
}

#[test]
fn command_word_is_case_sensitive() {
    let mut p = Peer::new(1);
    assert_eq!(process(&mut p, "TEXT"), CliOutcome::Unknown("TEXT".to_string()));
}

#[test]
fn insert_without_text_changes_nothing() {
    let mut p = Peer::new(1);
    assert_eq!(process(&mut p, "insert"), CliOutcome::Continue { usage_errors: 0 });
    assert_eq!(p.text(), "");
}

#[test]
fn delete_past_the_end_removes_what_is_there() {
    let mut p = Peer::new(1);
    process(&mut p, "insert hello");
    process(&mut p, "delete 3 10");
    assert_eq!(p.text(), "hel");
}

#[test]
fn insert_appends_after_remote_text() {
    let mut p = Peer::new(1);
    // A character of a peer with a greater id, then a deleted one at the end.
    p.remote_op(Message::Op {
        from: 9,
        seq: 0,
        op: Op::Insert { after: None, ch: Char { id: Id { peer_id: 9, counter: 1 }, value: 'r', deleted: false } },
    });
    p.remote_op(Message::Op {
        from: 9,
        seq: 1,
        op: Op::Insert {
            after: Some(Id { peer_id: 9, counter: 1 }),
            ch: Char { id: Id { peer_id: 9, counter: 2 }, value: 's', deleted: false },
        },
    });
    p.remote_op(Message::Op { from: 9, seq: 2, op: Op::Delete { target: Id { peer_id: 9, counter: 2 } } });
    process(&mut p, "insert ab");
    assert_eq!(p.text(), "rab");
}
