use dht::admission::{Admission, Decision, ListenerAction, ListenerEvent};
use dht::admission::{DEFAULT_GLOBAL_CAP, DEFAULT_PER_ADDR_CAP};

#[test]
fn third_connection_from_one_address_is_rejected() {
    let mut a = Admission::new(DEFAULT_PER_ADDR_CAP, DEFAULT_GLOBAL_CAP);
    assert_eq!(a.connect(7), Decision::Serve);
    assert_eq!(a.connect(7), Decision::Serve);
    assert_eq!(a.connect(7), Decision::Rejected);
    assert_eq!(a.connect(8), Decision::Serve);
}

#[test]
fn rejection_changes_nothing() {
    let mut a = Admission::new(2, 10);
    a.connect(7);
    a.connect(7);
    let active = a.active();
    let waiting = a.waiting();
    assert_eq!(a.connect(7), Decision::Rejected);
    assert_eq!(a.active(), active);
    assert_eq!(a.waiting(), waiting);
}

#[test]
fn slot_frees_after_completion_for_same_address() {
    let mut a = Admission::new(2, 10);
    assert_eq!(a.connect(7), Decision::Serve);
    assert_eq!(a.connect(7), Decision::Serve);
    assert_eq!(a.connect(7), Decision::Rejected);
    assert!(a.served_count(7) > 0);
    a.complete(7);
    assert_eq!(a.connect(7), Decision::Serve);
}

#[test]
fn waiting_channels_count_toward_their_address() {
    let mut a = Admission::new(2, 0);
    assert_eq!(a.connect(9), Decision::Queued);
    assert_eq!(a.connect(9), Decision::Queued);
    assert_eq!(a.connect(9), Decision::Rejected);
    assert_eq!(a.active(), 0);
    assert_eq!(a.waiting(), 2);
}

#[test]
fn global_cap_queues_then_completion_promotes() {
    let mut a = Admission::new(2, 3);
    assert_eq!(a.connect(1), Decision::Serve);
    assert_eq!(a.connect(2), Decision::Serve);
    assert_eq!(a.connect(3), Decision::Serve);
    assert_eq!(a.connect(4), Decision::Queued);
    assert_eq!(a.active(), 3);
    assert_eq!(a.waiting(), 1);
    assert_eq!(a.complete(2), Some(4));
    assert_eq!(a.active(), 3);
    assert_eq!(a.waiting(), 0);
    assert!(a.served_count(4) > 0);
    assert_eq!(a.complete(4), None);
    assert_eq!(a.active(), 2);
}

#[test]
fn step_drives_the_listener_loop() {
    let mut a = Admission::new(2, 1);
    assert_eq!(a.step(ListenerEvent::AcceptFailed), ListenerAction::KeepAccepting);
    assert_eq!(a.step(ListenerEvent::Accepted(5)), ListenerAction::ServeNow);
    assert_eq!(a.step(ListenerEvent::Accepted(6)), ListenerAction::Hold);
    assert_eq!(a.step(ListenerEvent::Completed(5)), ListenerAction::StartQueued(6));
    assert_eq!(a.step(ListenerEvent::Completed(6)), ListenerAction::KeepAccepting);
    assert_eq!(a.active(), 0);
    assert_eq!(a.waiting(), 0);
}

#[test]
fn step_rejects_over_per_address_cap() {
    let mut a = Admission::new(1, 4);
    assert_eq!(a.step(ListenerEvent::Accepted(3)), ListenerAction::ServeNow);
    assert_eq!(a.step(ListenerEvent::Accepted(3)), ListenerAction::Reject);
    assert_eq!(a.step(ListenerEvent::Accepted(4)), ListenerAction::ServeNow);
}
