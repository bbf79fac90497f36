use node_net::address::SocketAddress;
use node_net::handshakes::{Completion, HandshakeTable};
use node_net::listeners::{InitAction, ListenerInit, ListenerSet};

fn addr(d: u8, port: u16) -> SocketAddress {
    SocketAddress { a: 10, b: 0, c: 0, d, port }
}

#[test]
fn init_binds_every_address_in_order() {
    let addrs = vec![addr(1, 100), addr(2, 200)];
    let mut s = ListenerInit::new(addrs.clone());
    assert_eq!(s.next_action(), InitAction::Bind(addrs[0]));
    s.report_bind(true);
    assert_eq!(s.next_action(), InitAction::Bind(addrs[1]));
    s.report_bind(true);
    assert_eq!(s.next_action(), InitAction::Ready);
    assert_eq!(s.bound, addrs);
}

#[test]
fn init_failure_releases_everything_bound() {
    let addrs = vec![addr(1, 1), addr(2, 2), addr(3, 3), addr(4, 4)];
    let mut s = ListenerInit::new(addrs.clone());
    s.report_bind(true);
    s.report_bind(true);
    assert_eq!(s.next_action(), InitAction::Bind(addrs[2]));
    s.report_bind(false);
    assert_eq!(s.next_action(), InitAction::Release(addrs[1]));
    s.report_released();
    assert_eq!(s.next_action(), InitAction::Release(addrs[0]));
    s.report_released();
    assert_eq!(s.next_action(), InitAction::Abort);
    assert!(s.bound.is_empty());
}

#[test]
fn init_failure_on_first_address_aborts_at_once() {
    let mut s = ListenerInit::new(vec![addr(1, 1)]);
    s.report_bind(false);
    assert_eq!(s.next_action(), InitAction::Abort);
}

#[test]
fn init_with_no_addresses_is_ready() {
    let s = ListenerInit::new(vec![]);
    assert_eq!(s.next_action(), InitAction::Ready);
}

#[test]
fn teardown_releases_all_and_addresses_can_be_bound_again() {
    let addrs = vec![addr(1, 1), addr(2, 2), addr(3, 3)];
    let mut s = ListenerInit::new(addrs.clone());
    for _ in 0..3 {
        s.report_bind(true);
    }
    assert_eq!(s.teardown(), vec![addrs[2], addrs[1], addrs[0]]);
    assert!(s.bound.is_empty());
    let mut fresh = ListenerInit::new(addrs.clone());
    assert_eq!(fresh.next_action(), InitAction::Bind(addrs[0]));
    fresh.report_bind(true);
    assert_eq!(fresh.bound, vec![addrs[0]]);
}

#[test]
fn completions_come_in_finishing_order() {
    let mut t = HandshakeTable::new();
    let a = t.start(7).unwrap();
    let b = t.start(9).unwrap();
    assert!(t.finish(b, true));
    assert!(t.finish(a, true));
    assert_eq!(t.next_completion(), Some(Completion { request: b, peer: 9, ok: true }));
    assert_eq!(t.next_completion(), Some(Completion { request: a, peer: 7, ok: true }));
    assert_eq!(t.next_completion(), None);
}

#[test]
fn failed_handshake_does_not_disturb_others() {
    let mut t = HandshakeTable::new();
    let bad = t.start(1).unwrap();
    let good = t.start(2).unwrap();
    assert!(t.finish(bad, false));
    assert_eq!(t.in_flight.len(), 1);
    assert!(t.finish(good, true));
    assert_eq!(t.next_completion(), Some(Completion { request: bad, peer: 1, ok: false }));
    assert_eq!(t.next_completion(), Some(Completion { request: good, peer: 2, ok: true }));
}

#[test]
fn repeated_requests_for_one_peer_stay_distinct() {
    let mut t = HandshakeTable::new();
    let r1 = t.start(5).unwrap();
    let r2 = t.start(5).unwrap();
    assert_ne!(r1, r2);
    assert!(t.finish(r1, true));
    assert!(t.finish(r2, true));
    assert!(!t.finish(r2, true));
    assert_eq!(t.completed.len(), 2);
}

#[test]
fn close_cancels_in_flight_and_stream_ends() {
    let mut t = HandshakeTable::new();
    let a = t.start(1).unwrap();
    let b = t.start(2).unwrap();
    let c = t.start(3).unwrap();
    assert!(t.finish(b, true));
    assert_eq!(t.close(), vec![a, c]);
    assert!(t.start(4).is_none());
    assert!(!t.finish(a, true));
    assert!(!t.is_terminated());
    assert_eq!(t.next_completion(), Some(Completion { request: b, peer: 2, ok: true }));
    assert!(t.is_terminated());
}

#[test]
fn listen_failure_leaves_bound_addresses() {
    let addrs = vec![addr(1, 1), addr(2, 2)];
    let mut s = ListenerInit::new(addrs.clone());
    s.report_bind(true);
    assert!(ListenerSet::from_init(ListenerInit::new(addrs.clone())).is_none());
    s.report_bind(true);
    let mut set = ListenerSet::from_init(s).unwrap();
    set.record_listen(addr(3, 3), false);
    assert_eq!(set.bound, addrs);
    set.record_listen(addr(4, 4), true);
    assert_eq!(set.bound, vec![addr(1, 1), addr(2, 2), addr(4, 4)]);
    set.record_listen(addr(1, 1), true);
    assert_eq!(set.bound.len(), 3);
    assert!(set.contains(addr(4, 4)));
    assert!(!set.contains(addr(3, 3)));
}
