//! Tests of the liveness prober's state machine: correlation by source
//! address, the silence-gap bound, and the channel drain.

use russh::net::{lookup_mark, Address, Pinger, ProbeEvent};
use std::sync::mpsc;

const A: Address = Address::V4(0x7F000001);
const B: Address = Address::V4(0x0A000001);

#[test]
fn one_reply_marks_only_its_sender() {
    let mut p = Pinger::new();
    p.add_target(A);
    p.add_target(B);
    let events = vec![ProbeEvent::Reply(A), ProbeEvent::TimedOut];
    let consumed = p.drain_events(&events);
    assert_eq!(consumed, 2);
    assert!(p.is_alive(A));
    assert!(!p.is_alive(B));
}

#[test]
fn silent_session_ends_after_one_timeout() {
    let mut p = Pinger::new();
    p.add_target(A);
    p.add_target(B);
    let events = vec![
        ProbeEvent::TimedOut,
        ProbeEvent::Reply(A), // a late burst after the gap is missed by design
        ProbeEvent::Reply(B),
    ];
    let consumed = p.drain_events(&events);
    assert_eq!(consumed, 1);
    assert!(!p.is_alive(A));
    assert!(!p.is_alive(B));
}

#[test]
fn untracked_sender_changes_nothing() {
    let mut p = Pinger::new();
    p.add_target(A);
    p.on_reply(B);
    assert!(!p.is_alive(A));
    assert!(!p.is_alive(B));
    assert_eq!(p.results().len(), 1);
}

#[test]
fn add_target_deduplicates_and_resets() {
    let mut p = Pinger::new();
    p.add_target(A);
    p.on_reply(A);
    assert!(p.is_alive(A));
    p.add_target(A); // tracking again resets the mark
    assert!(!p.is_alive(A));
    assert_eq!(p.results().len(), 1);
}

#[test]
fn begin_probe_resets_marks_and_lists_targets() {
    let mut p = Pinger::new();
    p.add_target(A);
    p.add_target(B);
    p.on_reply(B);
    let targets = p.begin_probe();
    assert_eq!(targets, vec![A, B]);
    assert!(!p.is_alive(A));
    assert!(!p.is_alive(B));
}

#[test]
fn collect_replies_drains_a_real_channel() {
    let mut p = Pinger::new();
    p.add_target(A);
    p.add_target(B);
    let (tx, rx) = mpsc::channel::<Address>();
    tx.send(A).unwrap();
    drop(tx); // after the buffered message the channel reports no more
    p.collect_replies(&rx, 50, 16);
    assert!(p.is_alive(A));
    assert!(!p.is_alive(B));
}

#[test]
fn lookup_mark_finds_tracked_addresses() {
    let results = vec![(A, true), (B, false)];
    assert_eq!(lookup_mark(&results, A), Some(true));
    assert_eq!(lookup_mark(&results, B), Some(false));
    assert_eq!(lookup_mark(&results, Address::V6(1)), None);
}

#[test]
fn empty_session_has_no_results() {
    let mut p = Pinger::new();
    assert_eq!(p.results().len(), 0);
    let targets = p.begin_probe();
    assert!(targets.is_empty());
    let consumed = p.drain_events(&vec![ProbeEvent::TimedOut]);
    assert_eq!(consumed, 1);
}
