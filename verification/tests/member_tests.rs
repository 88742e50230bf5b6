use phifd::member::{member_from_id, InterArrivalWindow, Member, MemberState};

#[test]
fn it_works() {
    assert_eq!(2 + 2, 4);
}

#[test]
fn test_window_of_size_rejects_small_capacities() {
    assert!(InterArrivalWindow::of_size(0).is_none());
    assert!(InterArrivalWindow::of_size(1).is_none());
    assert!(InterArrivalWindow::of_size(2).is_none());
    let w = InterArrivalWindow::of_size(3).unwrap();
    assert_eq!(w.size(), 3);
    let w10 = InterArrivalWindow::of_size(10).unwrap();
    assert_eq!(w10.size(), 10);
}

#[test]
fn test_phi_undefined_before_second_arrival() {
    let mut w = InterArrivalWindow::of_size(3).unwrap();
    // No arrival at all: undefined.
    assert_eq!(w.phi_delta(100), None);
    // First arrival only records the instant; still undefined.
    assert_eq!(w.tick(50), None);
    assert_eq!(w.phi_delta(100), None);
    // Second arrival yields the first inter-arrival duration.
    assert_eq!(w.tick(70), Some(20));
    assert_eq!(w.phi_delta(100), Some(30));
}

#[test]
fn test_phi_undefined_under_clock_skew() {
    let mut w = InterArrivalWindow::of_size(3).unwrap();
    assert_eq!(w.tick(50), None);
    assert_eq!(w.tick(70), Some(20));
    // Query instant before the last arrival: undefined, never negative.
    assert_eq!(w.phi_delta(69), None);
    assert_eq!(w.phi_delta(70), Some(0));
}

#[test]
fn test_heartbeat_merge_keeps_maximum() {
    let member = member_from_id((0x0a000001, 9000));
    let mut ms = MemberState::from_member(member, 3, 0);
    let heartbeats = [5u64, 3, 7, 7, 4];
    let nows = [10u64, 20, 30, 40, 50];
    for i in 0..heartbeats.len() {
        ms.merge(0, heartbeats[i], nows[i]);
    }
    assert_eq!(ms.member.get_heartbeat(), 7);
    // Only the merges that advanced the heartbeat (5 and 7) touched the
    // window: one recorded instant, then one observed duration.
    let w = ms.inter_arrival_window.unwrap();
    assert_eq!(w.observations, 1);
    assert_eq!(w.last_arrival_at, Some(30));
    assert_eq!(ms.timestamp, 30);
}

#[test]
fn test_heartbeat_merge_order_irrelevant_for_equal_sets() {
    let member = member_from_id((1, 1));
    let mut a = MemberState::from_member(member, 3, 0);
    let mut b = MemberState::from_member(member, 3, 0);
    a.merge(0, 5, 1);
    a.merge(0, 6, 2);
    b.merge(0, 6, 1);
    b.merge(0, 5, 2);
    assert_eq!(a.member.get_heartbeat(), 6);
    assert_eq!(b.member.get_heartbeat(), 6);
}

#[test]
fn test_member_state_phi_delegates_to_window() {
    let member = member_from_id((1, 2));
    let mut ms = MemberState::from_member(member, 4, 0);
    assert_eq!(ms.phi_delta(10), None);
    ms.merge(0, 1, 10);
    assert_eq!(ms.phi_delta(20), None);
    ms.merge(0, 2, 15);
    assert_eq!(ms.phi_delta(20), Some(5));
}

#[test]
fn test_member_accessors() {
    let mut m = Member::new();
    assert!(!m.is_initialized());
    assert!(!m.has_ip());
    assert_eq!(m.get_ip(), 0);
    m.set_ip(0x7f000001);
    m.set_port(12345);
    m.set_suspicion(f64::to_bits(0.25));
    m.set_heartbeat(9);
    assert!(m.is_initialized());
    assert!(m.has_ip() && m.has_port() && m.has_suspicion() && m.has_heartbeat());
    assert_eq!(m.get_ip(), 0x7f000001);
    assert_eq!(m.get_port(), 12345);
    assert_eq!(f64::from_bits(m.get_suspicion()), 0.25);
    assert_eq!(m.get_heartbeat(), 9);
    assert_eq!(m.id(), (0x7f000001, 12345));
    m.clear_heartbeat();
    assert!(!m.has_heartbeat());
    assert_eq!(m.get_heartbeat(), 0);
    m.clear_ip();
    m.clear_port();
    m.clear_suspicion();
    assert!(!m.is_initialized());
}

#[test]
fn test_member_from_id_key_roundtrip() {
    let m = member_from_id((0xc0a80102, 20001));
    assert_eq!(m.id(), (0xc0a80102, 20001));
    assert_eq!(m.get_heartbeat(), 0);
    assert_eq!(f64::from_bits(m.get_suspicion()), 0.0);
}
