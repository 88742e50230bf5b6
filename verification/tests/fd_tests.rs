use phifd::config::Config;
use phifd::fd::{FDEvent, FDState};
use phifd::member::member_from_id;
use phifd::util::{make_gossip, GossipType};

fn config_at(addr: (u32, u16)) -> Config {
    let mut cfg = Config::default();
    cfg.set_addr(addr);
    cfg
}

#[test]
fn test_config_defaults_and_setters() {
    let mut cfg = Config::default();
    assert_eq!(cfg.ping_interval_ms, 1000);
    assert_eq!(cfg.num_members_to_ping, 3);
    assert_eq!(cfg.window_size, 10);
    assert_eq!(cfg.addr, (0, 12345));
    assert_eq!(cfg.ticker_delay_secs, 0);
    cfg.set_ping_interval(2000);
    cfg.set_num_members_to_ping(5);
    cfg.set_window_size(4);
    cfg.set_addr((1, 2));
    cfg.set_ticker_delay(7);
    assert_eq!(cfg.ping_interval_ms, 2000);
    assert_eq!(cfg.num_members_to_ping, 5);
    assert_eq!(cfg.window_size, 4);
    assert_eq!(cfg.addr, (1, 2));
    assert_eq!(cfg.ticker_delay_secs, 7);
}

#[test]
fn test_tick_increments_heartbeat_by_one() {
    let mut st = FDState::new(None);
    assert_eq!(st.cur_heartbeat(), 0);
    let pings = st.on_tick();
    assert_eq!(pings.len(), 0);
    assert_eq!(st.cur_heartbeat(), 1);
    st.on_tick();
    assert_eq!(st.cur_heartbeat(), 2);
}

#[test]
fn test_pings_carry_pre_tick_heartbeat_and_whole_table() {
    let self_id = (1, 1000);
    let b = (2u32, 2000u16);
    let c = (3u32, 3000u16);
    let mut st = FDState::new(Some(config_at(self_id)));
    let gossip = make_gossip(
        9,
        vec![member_from_id(c)],
        GossipType::Ack,
    );
    st.on_gossip(b, &gossip, 5);
    let pings = st.on_tick();
    // Default asks for three peers; only two are known, so both are pinged.
    assert_eq!(pings.len(), 2);
    let mut targets: Vec<(u32, u16)> = pings.iter().map(|p| p.0).collect();
    targets.sort();
    assert_eq!(targets, vec![b, c]);
    for (_, g) in &pings {
        assert_eq!(g.get_heartbeat(), 0);
        assert_eq!(g.get_kind(), 0);
        assert_eq!(g.get_members().len(), 2);
    }
    assert_eq!(st.cur_heartbeat(), 1);
}

#[test]
fn test_local_id_never_enters_the_table() {
    let self_id = (0x7f000001u32, 20001u16);
    let peer = (0x7f000001u32, 20002u16);
    let mut st = FDState::new(Some(config_at(self_id)));
    // The gossip names the local node, the sender, and a third peer.
    let gossip = make_gossip(
        4,
        vec![member_from_id(self_id), member_from_id((9, 9))],
        GossipType::Syn,
    );
    st.on_gossip(peer, &gossip, 10);
    let ids: Vec<(u32, u16)> = st.members.iter().map(|ms| ms.get_id()).collect();
    assert!(!ids.contains(&self_id));
    assert!(ids.contains(&peer));
    assert!(ids.contains(&(9, 9)));
    assert_eq!(st.members.len(), 2);
}

#[test]
fn test_with_members_skips_self_and_dedups() {
    let self_id = (1u32, 1u16);
    let b = member_from_id((2, 2));
    let mut b_newer = member_from_id((2, 2));
    b_newer.set_heartbeat(8);
    let seeds = vec![member_from_id(self_id), b, member_from_id((3, 3)), b_newer];
    let st = FDState::with_members(seeds, Some(config_at(self_id)), 0);
    assert_eq!(st.members.len(), 2);
    let ids: Vec<(u32, u16)> = st.members.iter().map(|ms| ms.get_id()).collect();
    assert_eq!(ids, vec![(2, 2), (3, 3)]);
    // The later record for the same key replaced the earlier one.
    assert_eq!(st.members[0].member.get_heartbeat(), 8);
}

#[test]
fn test_merge_takes_maximum_heartbeat() {
    let mut st = FDState::new(Some(config_at((1, 1))));
    let peer = (5u32, 5u16);
    st.merge(peer, &make_gossip(5, vec![], GossipType::Syn), 10);
    assert_eq!(st.members[0].member.get_heartbeat(), 5);
    st.merge(peer, &make_gossip(3, vec![], GossipType::Syn), 20);
    assert_eq!(st.members[0].member.get_heartbeat(), 5);
    st.merge(peer, &make_gossip(7, vec![], GossipType::Syn), 30);
    assert_eq!(st.members[0].member.get_heartbeat(), 7);
    assert_eq!(st.members.len(), 1);
}

#[test]
fn test_merge_reports_inter_arrival_observations() {
    let mut st = FDState::new(Some(config_at((1, 1))));
    let peer = (5u32, 5u16);
    // Insertion records nothing; the first advance only stores the instant.
    let obs = st.merge(peer, &make_gossip(1, vec![], GossipType::Syn), 10);
    assert_eq!(obs, vec![]);
    let obs = st.merge(peer, &make_gossip(2, vec![], GossipType::Syn), 25);
    assert_eq!(obs, vec![]);
    // The next advance yields the inter-arrival duration.
    let obs = st.merge(peer, &make_gossip(3, vec![], GossipType::Syn), 40);
    assert_eq!(obs, vec![(peer, 15)]);
}

#[test]
fn test_syn_is_answered_with_ack_of_merged_state() {
    let mut st = FDState::new(Some(config_at((1, 1))));
    let peer = (5u32, 5u16);
    let syn = make_gossip(3, vec![member_from_id((6, 6))], GossipType::Syn);
    let (event, _) = st.on_gossip(peer, &syn, 10);
    match event {
        FDEvent::AckOut(to, ack) => {
            assert_eq!(to, peer);
            assert_eq!(ack.get_kind(), 1);
            assert_eq!(ack.get_heartbeat(), 0);
            // The Ack reflects the state after the merge completed.
            assert_eq!(ack.get_members().len(), 2);
        },
        _ => panic!("a Syn must be answered with an Ack"),
    }
}

#[test]
fn test_ack_and_unknown_kinds_get_no_reply() {
    let mut st = FDState::new(Some(config_at((1, 1))));
    let peer = (5u32, 5u16);
    let ack = make_gossip(3, vec![], GossipType::Ack);
    let (event, _) = st.on_gossip(peer, &ack, 10);
    assert!(matches!(event, FDEvent::StateUpdated));
    // An unknown kind tag is dropped, but the merge has still happened.
    let mut odd = make_gossip(9, vec![], GossipType::Syn);
    odd.set_kind(7);
    let (event, _) = st.on_gossip(peer, &odd, 20);
    assert!(matches!(event, FDEvent::Unexpected));
    assert_eq!(st.members[0].member.get_heartbeat(), 9);
}

#[test]
fn test_gossip_type_tags() {
    assert!(matches!(GossipType::from_u32(0), Some(GossipType::Syn)));
    assert!(matches!(GossipType::from_u32(1), Some(GossipType::Ack)));
    assert!(GossipType::from_u32(2).is_none());
    assert!(GossipType::from_u32(u32::MAX).is_none());
    assert_eq!(GossipType::Syn.to_u32(), 0);
    assert_eq!(GossipType::Ack.to_u32(), 1);
}

#[test]
fn test_two_node_exchange_converges() {
    let a_id = (0x7f000001u32, 20001u16);
    let b_id = (0x7f000001u32, 20002u16);
    let mut a = FDState::new(Some(config_at(a_id)));
    let mut b = FDState::with_members(vec![member_from_id(a_id)], Some(config_at(b_id)), 0);

    // B's first tick pings its only known peer, A, with heartbeat 0.
    let pings = b.on_tick();
    assert_eq!(pings.len(), 1);
    assert_eq!(pings[0].0, a_id);
    assert_eq!(pings[0].1.get_heartbeat(), 0);
    assert_eq!(b.cur_heartbeat(), 1);

    // A learns B from the Syn and answers with an Ack of its merged table.
    let (event, _) = a.on_gossip(b_id, &pings[0].1, 10);
    let ack = match event {
        FDEvent::AckOut(to, ack) => {
            assert_eq!(to, b_id);
            ack
        },
        _ => panic!("a Syn must be answered with an Ack"),
    };
    assert_eq!(a.members.len(), 1);
    assert_eq!(a.members[0].get_id(), b_id);

    // The Ack teaches B nothing new: it already knew A, and it skips its
    // own record in the carried view.
    let (event, _) = b.on_gossip(a_id, &ack, 20);
    assert!(matches!(event, FDEvent::StateUpdated));
    assert_eq!(b.members.len(), 1);
    assert_eq!(b.members[0].get_id(), a_id);

    // B's next tick carries heartbeat 1; merging it advances A's record
    // of B and registers the arrival.
    let pings = b.on_tick();
    assert_eq!(pings[0].1.get_heartbeat(), 1);
    a.on_gossip(b_id, &pings[0].1, 30);
    assert_eq!(a.members[0].member.get_heartbeat(), 1);
    assert_eq!(a.members[0].inter_arrival_window.unwrap().last_arrival_at, Some(30));
}
