use vstd::prelude::*;
use crate::member::Member;
use crate::proto::Gossip;
use vstd::arithmetic::div_mod::{lemma_fundamental_div_mod, lemma_div_multiples_vanish_fancy};

verus! {

/// The two kinds of gossip exchanged on the wire: a `Syn` opens the
/// one-round-trip exchange, an `Ack` answers it.
#[derive(Clone, Copy, Debug, PartialEq, Eq, Structural)]
pub enum GossipType {
    Syn,
    Ack,
}

impl GossipType {
    /// The numeric value of this kind as carried in the gossip's `kind` field.
    pub open spec fn spec_to_u32(self) -> u32 {
        match self {
            GossipType::Syn => 0,
            GossipType::Ack => 1,
        }
    }

    /// Maps the on-wire kind tag to a gossip kind: `0` is `Syn`, `1` is `Ack`,
    /// every other value is unknown and yields `None`.
    pub fn from_u32(v: u32) -> (r: Option<GossipType>)
        ensures
            r == (if v == 0 {
                Some(GossipType::Syn)
            } else if v == 1 {
                Some(GossipType::Ack)
            } else {
                None::<GossipType>
            }),
    {
        if v == 0 {
            Some(GossipType::Syn)
        } else if v == 1 {
            Some(GossipType::Ack)
        } else {
            None
        }
    }

    /// The on-wire tag of this kind.
    pub fn to_u32(self) -> (r: u32)
        ensures
            r == self.spec_to_u32(),
    {
        match self {
            GossipType::Ack => 1,
            GossipType::Syn => 0,
        }
    }
}

/// Builds a gossip that carries `heartbeat`, the given member records in
/// order, and the tag of `typ`.
pub fn make_gossip(heartbeat: u64, members: Vec<Member>, typ: GossipType) -> (r: Gossip)
    ensures
        r.heartbeat == Some(heartbeat),
        r.members == members,
        r.kind == Some(typ.spec_to_u32()),
{
    let mut gossip = Gossip::new();
    gossip.set_kind(typ.to_u32());
    gossip.set_heartbeat(heartbeat);
    gossip.set_members(members);
    gossip
}

/// The 32-bit IPv4 number formed by packing the four octets big-endian:
/// octet `a` lands in the most significant byte.
pub open spec fn spec_ip_number(a: u8, b: u8, c: u8, d: u8) -> u32 {
    (a * 0x100_0000 + b * 0x1_0000 + c * 0x100 + d) as u32
}

/// Packs the four octets of an IPv4 address, most significant first, into
/// the single 32-bit number that identifies the address on the wire.
pub fn ip_number_from_octets(a: u8, b: u8, c: u8, d: u8) -> (r: u32)
    ensures
        r == spec_ip_number(a, b, c, d),
{
    (a as u32) * 0x100_0000 + (b as u32) * 0x1_0000 + (c as u32) * 0x100 + (d as u32)
}

/// Recovers the four octets of an IPv4 address, most significant first,
/// from its packed 32-bit number.
pub fn octets_from_ip(ip: u32) -> (r: (u8, u8, u8, u8))
    ensures
        r.0 == ip / 0x100_0000,
        r.1 == (ip / 0x1_0000) % 0x100,
        r.2 == (ip / 0x100) % 0x100,
        r.3 == ip % 0x100,
        spec_ip_number(r.0, r.1, r.2, r.3) == ip,
{
    let d = (ip % 0x100) as u8;
    let c = ((ip / 0x100) % 0x100) as u8;
    let b = ((ip / 0x1_0000) % 0x100) as u8;
    let a = (ip / 0x100_0000) as u8;
    proof {
        lemma_ip_decomposition(ip);
    }
    (a, b, c, d)
}

/// Splitting a packed IPv4 number into its four big-endian octets and
/// packing them again gives the number back.
pub proof fn lemma_ip_decomposition(ip: u32)
    ensures
        spec_ip_number(
            (ip / 0x100_0000) as u8,
            ((ip / 0x1_0000) % 0x100) as u8,
            ((ip / 0x100) % 0x100) as u8,
            (ip % 0x100) as u8,
        ) == ip,
{
    let q1 = ip / 0x100;
    let q2 = ip / 0x1_0000;
    let q3 = ip / 0x100_0000;
    lemma_fundamental_div_mod(ip as int, 0x100);
    lemma_fundamental_div_mod(q1 as int, 0x100);
    lemma_fundamental_div_mod(q2 as int, 0x100);
    assert(q1 as int / 0x100 == q2 as int) by {
        lemma_fundamental_div_mod(ip as int, 0x100);
        vstd::arithmetic::div_mod::lemma_div_denominator(ip as int, 0x100, 0x100);
    }
    assert(q2 as int / 0x100 == q3 as int) by {
        vstd::arithmetic::div_mod::lemma_div_denominator(ip as int, 0x1_0000, 0x100);
    }
}

/// Packing four octets and splitting the result gives the octets back:
/// the conversion between an IPv4 address and its 32-bit member key is
/// lossless in both directions.
pub proof fn lemma_ip_number_roundtrip(a: u8, b: u8, c: u8, d: u8)
    ensures
        spec_ip_number(a, b, c, d) / 0x100_0000 == a,
        (spec_ip_number(a, b, c, d) / 0x1_0000) % 0x100 == b,
        (spec_ip_number(a, b, c, d) / 0x100) % 0x100 == c,
        spec_ip_number(a, b, c, d) % 0x100 == d,
{
    let n = spec_ip_number(a, b, c, d) as int;
    assert(n == a * 0x100_0000 + b * 0x1_0000 + c * 0x100 + d);
    assert(n / 0x100 == a * 0x1_0000 + b * 0x100 + c) by {
        lemma_div_multiples_vanish_fancy(
            (a * 0x1_0000 + b * 0x100 + c) as int,
            d as int,
            0x100,
        );
    }
    assert(n % 0x100 == d) by {
        lemma_fundamental_div_mod(n, 0x100);
    }
    let m = n / 0x100;
    assert(m / 0x100 == a * 0x100 + b) by {
        lemma_div_multiples_vanish_fancy((a * 0x100 + b) as int, c as int, 0x100);
    }
    assert(m % 0x100 == c) by {
        lemma_fundamental_div_mod(m, 0x100);
    }
    let p = m / 0x100;
    assert(p / 0x100 == a as int) by {
        lemma_div_multiples_vanish_fancy(a as int, b as int, 0x100);
    }
    assert(p % 0x100 == b) by {
        lemma_fundamental_div_mod(p, 0x100);
    }
    assert(n / 0x1_0000 == m / 0x100) by {
        vstd::arithmetic::div_mod::lemma_div_denominator(n, 0x100, 0x100);
    }
    assert(n / 0x100_0000 == (n / 0x1_0000) / 0x100) by {
        vstd::arithmetic::div_mod::lemma_div_denominator(n, 0x1_0000, 0x100);
    }
}

} // verus!
