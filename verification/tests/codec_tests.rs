use phifd::codec::GossipCodec;
use phifd::member::{member_from_id, Member};
use phifd::proto::Gossip;
use phifd::util::{ip_number_from_octets, make_gossip, octets_from_ip, GossipType};

fn make_member(ip: u32, port: u32, suspicion: f64, heartbeat: u64) -> Member {
    let mut m = Member::new();
    m.set_ip(ip);
    m.set_port(port);
    m.set_suspicion(f64::to_bits(suspicion));
    m.set_heartbeat(heartbeat);
    m
}

#[test]
fn test_ip_number_roundtrip() {
    assert_eq!(ip_number_from_octets(192, 168, 1, 2), 0xc0a80102);
    assert_eq!(octets_from_ip(0xc0a80102), (192, 168, 1, 2));
    assert_eq!(octets_from_ip(ip_number_from_octets(10, 0, 0, 7)), (10, 0, 0, 7));
    assert_eq!(ip_number_from_octets(0, 0, 0, 0), 0);
    assert_eq!(ip_number_from_octets(255, 255, 255, 255), u32::MAX);
    assert_eq!(octets_from_ip(u32::MAX), (255, 255, 255, 255));
}

#[test]
fn test_gossip_roundtrip() {
    let members = vec![
        make_member(0x7f000001, 20001, 0.5, 3),
        make_member(0x0a000002, 20002, 12.75, u64::MAX),
    ];
    let g = make_gossip(42, members, GossipType::Syn);
    let codec = GossipCodec;
    let mut buf: Vec<u8> = Vec::new();
    codec.encode(&g, &mut buf);
    let parsed = codec.decode(&buf).expect("a canonical encoding parses");
    assert_eq!(parsed, g);
    assert_eq!(parsed.get_members().len(), 2);
    assert_eq!(f64::from_bits(parsed.get_members()[1].get_suspicion()), 12.75);
}

#[test]
fn test_gossip_roundtrip_without_kind() {
    let mut g = Gossip::new();
    g.set_heartbeat(0);
    let codec = GossipCodec;
    let mut buf: Vec<u8> = Vec::new();
    codec.encode(&g, &mut buf);
    assert_eq!(buf, vec![8, 0]);
    let parsed = codec.decode(&buf).unwrap();
    assert_eq!(parsed, g);
    assert!(!parsed.has_kind());
    assert_eq!(parsed.get_kind(), 0);
}

#[test]
fn test_gossip_wire_layout() {
    // heartbeat 1; one member {ip 1, port 2, suspicion bits 0, heartbeat 3};
    // kind Syn. The member record is 15 bytes, length-delimited.
    let g = make_gossip(1, vec![make_member(1, 2, 0.0, 3)], GossipType::Syn);
    let codec = GossipCodec;
    let mut buf: Vec<u8> = Vec::new();
    codec.encode(&g, &mut buf);
    assert_eq!(
        buf,
        vec![
            0x08, 1, // heartbeat
            0x12, 15, // member record, 15 bytes
            0x08, 1, 0x10, 2, 0x19, 0, 0, 0, 0, 0, 0, 0, 0, 0x20, 3, // the record
            0x18, 0, // kind Syn
        ]
    );
}

#[test]
fn test_varint_boundaries_roundtrip() {
    for hb in [0u64, 1, 127, 128, 300, 16383, 16384, u64::MAX - 1, u64::MAX] {
        let g = make_gossip(hb, vec![], GossipType::Ack);
        let codec = GossipCodec;
        let mut buf: Vec<u8> = Vec::new();
        codec.encode(&g, &mut buf);
        let parsed = codec.decode(&buf).unwrap();
        assert_eq!(parsed.get_heartbeat(), hb);
        assert_eq!(parsed.get_kind(), 1);
    }
}

#[test]
fn test_malformed_datagrams_are_rejected() {
    let codec = GossipCodec;
    // Empty, junk, and wrong leading tag.
    assert!(codec.decode(&[]).is_none());
    assert!(codec.decode(&[1, 2, 3, 4, 5, 6, 7]).is_none());
    assert!(codec.decode(&[0x10, 1]).is_none());
    // A valid message truncated inside a field no longer parses; cut at a
    // field boundary, what is left is a complete message without the
    // optional trailing fields.
    let g = make_gossip(7, vec![make_member(1, 2, 1.5, 3)], GossipType::Syn);
    let mut buf: Vec<u8> = Vec::new();
    codec.encode(&g, &mut buf);
    assert_eq!(buf.len(), 21);
    assert!(codec.decode(&buf[..1]).is_none());
    assert_eq!(codec.decode(&buf[..2]).unwrap().get_heartbeat(), 7);
    for cut in 3..19 {
        assert!(codec.decode(&buf[..cut]).is_none());
    }
    let no_kind = codec.decode(&buf[..19]).unwrap();
    assert!(!no_kind.has_kind());
    assert_eq!(no_kind.get_members().len(), 1);
    assert!(codec.decode(&buf[..20]).is_none());
    // Trailing garbage is rejected too.
    buf.push(0);
    assert!(codec.decode(&buf).is_none());
}

#[test]
fn test_non_canonical_varint_rejected() {
    // heartbeat 1 written with a redundant continuation byte.
    assert!(GossipCodec.decode(&[0x08, 0x81, 0x00]).is_none());
    assert_eq!(GossipCodec.decode(&[0x08, 0x01]).unwrap().get_heartbeat(), 1);
}
