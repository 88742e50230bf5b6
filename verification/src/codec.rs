use vstd::prelude::*;
use vstd::arithmetic::div_mod::{
    lemma_fundamental_div_mod, lemma_div_is_ordered, lemma_div_multiples_vanish,
};
use vstd::bytes::{
    spec_u64_to_le_bytes, spec_u64_from_le_bytes, lemma_auto_spec_u64_to_from_le_bytes,
    u64_to_le_bytes, u64_from_le_bytes,
};
use crate::member::Member;
use crate::proto::Gossip;

verus! {

// ---------------------------------------------------------------------------
// Base-128 varints, least significant group first, as length-delimited
// wire encodings use them. Only the canonical (shortest) encoding of a
// value is recognized.
// ---------------------------------------------------------------------------

/// The canonical varint encoding of `v`: seven value bits per byte, least
/// significant group first, the high bit of a byte marking a continuation.
pub open spec fn vi_enc(v: u64) -> Seq<u8>
    decreases v,
{
    if v < 128 {
        seq![v as u8]
    } else {
        seq![(128 + (v % 128)) as u8] + vi_enc(v / 128)
    }
}

/// Parses a canonical varint at position `i` of `s`: the value and the
/// position just after it. Rejects encodings with a redundant trailing
/// group and values that do not fit in 64 bits.
pub open spec fn sp_vi(s: Seq<u8>, i: int) -> Option<(u64, int)>
    decreases s.len() - i,
{
    if i < 0 || i >= s.len() {
        None
    } else {
        let b = s[i];
        if b < 128 {
            Some((b as u64, i + 1))
        } else {
            match sp_vi(s, i + 1) {
                None => None,
                Some((v, j)) => {
                    if v == 0 || v > (u64::MAX - ((b - 128) as u64)) / 128 {
                        None
                    } else {
                        Some(((((b - 128) + 128 * (v as int))) as u64, j))
                    }
                },
            }
        }
    }
}

/// A parsed varint sits strictly inside the buffer: it starts before the
/// position returned, which is at most the buffer's length.
pub proof fn lemma_sp_vi_pos(s: Seq<u8>, i: int)
    ensures
        match sp_vi(s, i) {
            Some((_, j)) => i + 1 <= j <= s.len(),
            None => true,
        },
    decreases s.len() - i,
{
    if 0 <= i < s.len() && s[i] >= 128 {
        lemma_sp_vi_pos(s, i + 1);
    }
}

/// A canonical encoding is between one and ten bytes long.
pub proof fn lemma_vi_enc_len(v: u64)
    ensures
        1 <= vi_enc(v).len() <= 10,
{
    lemma_pow128_10();
    lemma_vi_enc_len_le(v, 10);
}

spec fn pow128(k: nat) -> nat
    decreases k,
{
    if k == 0 {
        1
    } else {
        128 * pow128((k - 1) as nat)
    }
}

proof fn lemma_vi_enc_len_le(v: u64, k: nat)
    requires
        k >= 1,
        (v as nat) < pow128(k),
    ensures
        1 <= vi_enc(v).len() <= k,
    decreases k,
{
    if v < 128 {
    } else {
        assert(pow128(k) == 128 * pow128((k - 1) as nat));
        assert(((v / 128) as nat) < pow128((k - 1) as nat)) by {
            lemma_fundamental_div_mod(v as int, 128);
        }
        assert(k >= 2) by {
            if k == 1 {
                assert(pow128(1nat) == 128);
            }
        }
        lemma_vi_enc_len_le(v / 128, (k - 1) as nat);
    }
}

proof fn lemma_pow128_10()
    ensures
        pow128(10) > 0xffff_ffff_ffff_ffffnat,
{
    assert(pow128(0nat) == 1);
    assert(pow128(1nat) == 128);
    assert(pow128(2nat) == 0x4000);
    assert(pow128(3nat) == 0x20_0000);
    assert(pow128(4nat) == 0x1000_0000);
    assert(pow128(5nat) == 0x8_0000_0000);
    assert(pow128(6nat) == 0x400_0000_0000);
    assert(pow128(7nat) == 0x2_0000_0000_0000);
    assert(pow128(8nat) == 0x100_0000_0000_0000);
    assert(pow128(9nat) == 0x8000_0000_0000_0000);
    assert(pow128(10nat) == 0x40_0000_0000_0000_0000);
}

/// Parsing a buffer that carries the canonical encoding of `v` at
/// position `i` yields `v` and stops right after the encoding.
pub proof fn lemma_sp_vi_of_enc(s: Seq<u8>, i: int, v: u64)
    requires
        0 <= i,
        i + vi_enc(v).len() <= s.len(),
        s.subrange(i, i + vi_enc(v).len()) == vi_enc(v),
    ensures
        sp_vi(s, i) == Some((v, i + vi_enc(v).len())),
    decreases v,
{
    let e = vi_enc(v);
    assert(s[i] == e[0]) by {
        assert(s.subrange(i, i + e.len())[0] == s[i]);
    }
    if v < 128 {
        assert(e[0] == v as u8);
    } else {
        let b = (128 + (v % 128)) as u8;
        assert(e[0] == b);
        let tail = vi_enc(v / 128);
        assert(e == seq![b] + tail);
        assert(s.subrange(i + 1, i + 1 + tail.len()) =~= tail) by {
            assert forall|k: int| 0 <= k < tail.len() implies s.subrange(
                i + 1,
                i + 1 + tail.len(),
            )[k] == tail[k] by {
                assert(s.subrange(i, i + e.len())[k + 1] == e[k + 1]);
            }
        }
        lemma_sp_vi_of_enc(s, i + 1, v / 128);
        assert(v / 128 > 0) by {
            lemma_fundamental_div_mod(v as int, 128);
        }
        assert((b - 128) as u64 == v % 128);
        assert(v == 128 * (v / 128) + v % 128) by {
            lemma_fundamental_div_mod(v as int, 128);
        }
        assert(v / 128 <= (u64::MAX - ((b - 128) as u64)) / 128) by {
            assert(128 * (v / 128) <= u64::MAX - (v % 128));
            assert((128 * (v / 128)) as int / 128 == v / 128) by {
                lemma_div_multiples_vanish((v / 128) as int, 128);
            }
            lemma_div_is_ordered((128 * (v / 128)) as int, (u64::MAX - (v % 128)) as int, 128);
        }
        assert(sp_vi(s, i) == Some((v, i + e.len())));
    }
}

/// Appends the canonical varint encoding of `v` to `out`.
pub fn push_varint(out: &mut Vec<u8>, v: u64)
    ensures
        final(out)@ == old(out)@ + vi_enc(v),
    decreases v,
{
    if v < 128 {
        out.push(v as u8);
        assert(out@ =~= old(out)@ + vi_enc(v));
    } else {
        let b = (128 + (v % 128)) as u8;
        out.push(b);
        push_varint(out, v / 128);
        assert(out@ =~= old(out)@ + vi_enc(v)) by {
            assert(vi_enc(v) == seq![b] + vi_enc(v / 128));
        }
    }
}

/// Reads a canonical varint at position `i` of `buf`, exactly as `sp_vi`
/// describes it.
pub fn decode_varint(buf: &[u8], i: usize) -> (r: Option<(u64, usize)>)
    ensures
        match sp_vi(buf@, i as int) {
            Some(p) => r is Some && r->0 == (p.0, p.1 as usize),
            None => r is None,
        },
    decreases buf@.len() - i,
{
    if i >= buf.len() {
        return None;
    }
    let b = buf[i];
    if b < 128 {
        Some((b as u64, i + 1))
    } else {
        match decode_varint(buf, i + 1) {
            None => None,
            Some((v, j)) => {
                if v == 0 || v > (u64::MAX - ((b - 128) as u64)) / 128 {
                    None
                } else {
                    Some(((b - 128) as u64 + 128 * v, j))
                }
            },
        }
    }
}

// ---------------------------------------------------------------------------
// Member records on the wire: field 1 the packed IPv4 number and field 2
// the port as varints, field 3 the suspicion as a little-endian 64-bit
// float image, field 4 the heartbeat as a varint. All four are required
// and appear in field order.
// ---------------------------------------------------------------------------

/// The wire encoding of one member record.
pub open spec fn ser_member(m: Member) -> Seq<u8> {
    seq![8u8] + vi_enc(m.spec_get_ip() as u64) + seq![16u8] + vi_enc(m.spec_get_port() as u64)
        + seq![25u8] + spec_u64_to_le_bytes(m.spec_get_suspicion()) + seq![32u8] + vi_enc(
        m.spec_get_heartbeat(),
    )
}

/// Parses one member record at position `i` of `s`: the record and the
/// position just after it, or `None` when the bytes are not a record in
/// canonical field order.
pub open spec fn sp_member(s: Seq<u8>, i: int) -> Option<(Member, int)> {
    if i < 0 || i >= s.len() || s[i] != 8 {
        None
    } else {
        match sp_vi(s, i + 1) {
            None => None,
            Some((ipv, i2)) => {
                if ipv > u32::MAX as u64 || i2 >= s.len() || s[i2] != 16 {
                    None
                } else {
                    match sp_vi(s, i2 + 1) {
                        None => None,
                        Some((pv, i3)) => {
                            if pv > u32::MAX as u64 || i3 >= s.len() || s[i3] != 25 || i3 + 9
                                > s.len() {
                                None
                            } else {
                                let susp = spec_u64_from_le_bytes(s.subrange(i3 + 1, i3 + 9));
                                let i4 = i3 + 9;
                                if i4 >= s.len() || s[i4] != 32 {
                                    None
                                } else {
                                    match sp_vi(s, i4 + 1) {
                                        None => None,
                                        Some((hb, i5)) => Some(
                                            (
                                                Member {
                                                    ip: Some(ipv as u32),
                                                    port: Some(pv as u32),
                                                    suspicion: Some(susp),
                                                    heartbeat: Some(hb),
                                                },
                                                i5,
                                            ),
                                        ),
                                    }
                                }
                            }
                        },
                    }
                }
            },
        }
    }
}

/// A parsed member record is fully initialized and ends after its start,
/// within the buffer.
pub proof fn lemma_sp_member_pos(s: Seq<u8>, i: int)
    ensures
        match sp_member(s, i) {
            Some(p) => i + 1 <= p.1 <= s.len() && p.0.wf(),
            None => true,
        },
{
    if sp_member(s, i) is Some {
        lemma_sp_vi_pos(s, i + 1);
        let (ipv, i2) = sp_vi(s, i + 1)->0;
        lemma_sp_vi_pos(s, i2 + 1);
        let (pv, i3) = sp_vi(s, i2 + 1)->0;
        lemma_sp_vi_pos(s, i3 + 9 + 1);
    }
}

/// If `s` carries the pieces `x` then `y` starting at `i`, it carries `x`
/// at `i` and `y` right after it.
proof fn lemma_split_subrange(s: Seq<u8>, i: int, x: Seq<u8>, y: Seq<u8>)
    requires
        0 <= i,
        i + x.len() + y.len() <= s.len(),
        s.subrange(i, i + x.len() + y.len()) == x + y,
    ensures
        s.subrange(i, i + x.len()) == x,
        s.subrange(i + x.len(), i + x.len() + y.len()) == y,
{
    assert(s.subrange(i, i + x.len()) =~= x) by {
        assert forall|k: int| 0 <= k < x.len() implies s.subrange(i, i + x.len())[k] == x[k] by {
            assert(s.subrange(i, i + x.len() + y.len())[k] == (x + y)[k]);
        }
    }
    assert(s.subrange(i + x.len(), i + x.len() + y.len()) =~= y) by {
        assert forall|k: int|
            0 <= k < y.len() implies s.subrange(i + x.len(), i + x.len() + y.len())[k] == y[k] by {
            assert(s.subrange(i, i + x.len() + y.len())[k + x.len()] == (x + y)[k + x.len()]);
            assert((x + y)[k + x.len()] == y[k]);
            assert(s.subrange(i, i + x.len() + y.len())[k + x.len()] == s[i + x.len() + k]);
            assert(s.subrange(i + x.len(), i + x.len() + y.len())[k] == s[i + x.len() + k]);
        }
    }
}

/// Parsing a buffer that carries the encoding of an initialized member
/// record at position `i` yields that record and stops right after it.
pub proof fn lemma_sp_member_of_ser(s: Seq<u8>, i: int, m: Member)
    requires
        m.wf(),
        0 <= i,
        i + ser_member(m).len() <= s.len(),
        s.subrange(i, i + ser_member(m).len()) == ser_member(m),
    ensures
        sp_member(s, i) == Some((m, i + ser_member(m).len())),
{
    lemma_auto_spec_u64_to_from_le_bytes();
    let ip64 = m.spec_get_ip() as u64;
    let pv64 = m.spec_get_port() as u64;
    let sus = m.spec_get_suspicion();
    let hb = m.spec_get_heartbeat();
    let p1 = seq![8u8];
    let p2 = vi_enc(ip64);
    let p3 = seq![16u8];
    let p4 = vi_enc(pv64);
    let p5 = seq![25u8];
    let p6 = spec_u64_to_le_bytes(sus);
    let p7 = seq![32u8];
    let p8 = vi_enc(hb);
    let r8 = p8;
    let r7 = p7 + r8;
    let r6 = p6 + r7;
    let r5 = p5 + r6;
    let r4 = p4 + r5;
    let r3 = p3 + r4;
    let r2 = p2 + r3;
    let e = ser_member(m);
    assert(e =~= p1 + r2);
    lemma_split_subrange(s, i, p1, r2);
    assert(s[i] == 8) by {
        assert(s.subrange(i, i + 1)[0] == s[i]);
    }
    lemma_split_subrange(s, i + 1, p2, r3);
    lemma_sp_vi_of_enc(s, i + 1, ip64);
    let i2 = i + 1 + p2.len();
    lemma_split_subrange(s, i2, p3, r4);
    assert(s[i2] == 16) by {
        assert(s.subrange(i2, i2 + 1)[0] == s[i2]);
    }
    lemma_split_subrange(s, i2 + 1, p4, r5);
    lemma_sp_vi_of_enc(s, i2 + 1, pv64);
    let i3 = i2 + 1 + p4.len();
    lemma_split_subrange(s, i3, p5, r6);
    assert(s[i3] == 25) by {
        assert(s.subrange(i3, i3 + 1)[0] == s[i3]);
    }
    lemma_split_subrange(s, i3 + 1, p6, r7);
    assert(s.subrange(i3 + 1, i3 + 9) == p6);
    let i4 = i3 + 9;
    lemma_split_subrange(s, i4, p7, r8);
    assert(s[i4] == 32) by {
        assert(s.subrange(i4, i4 + 1)[0] == s[i4]);
    }
    lemma_sp_vi_of_enc(s, i4 + 1, hb);
    let i5 = i4 + 1 + p8.len();
    assert(i5 == i + e.len());
    assert(sp_member(s, i) == Some((m, i + e.len()))) by {
        assert(m.ip == Some((ip64 as u32)));
        assert(m.port == Some((pv64 as u32)));
        assert(m.suspicion == Some(sus));
        assert(m.heartbeat == Some(hb));
    }
}

/// Appends the wire encoding of an initialized member record to `out`.
pub fn serialize_member_into(out: &mut Vec<u8>, m: &Member)
    requires
        m.wf(),
    ensures
        final(out)@ == old(out)@ + ser_member(*m),
{
    out.push(8);
    push_varint(out, m.get_ip() as u64);
    out.push(16);
    push_varint(out, m.get_port() as u64);
    out.push(25);
    let mut sus = u64_to_le_bytes(m.get_suspicion());
    out.append(&mut sus);
    out.push(32);
    push_varint(out, m.get_heartbeat());
    assert(out@ =~= old(out)@ + ser_member(*m));
}

/// Reads one member record at position `i` of `buf`, exactly as
/// `sp_member` describes it.
pub fn parse_member(buf: &[u8], i: usize) -> (r: Option<(Member, usize)>)
    ensures
        match sp_member(buf@, i as int) {
            Some(p) => r is Some && r->0 == (p.0, p.1 as usize),
            None => r is None,
        },
{
    if i >= buf.len() || buf[i] != 8 {
        return None;
    }
    let (ipv, i2) = match decode_varint(buf, i + 1) {
        Some(x) => x,
        None => {
            return None;
        },
    };
    proof {
        lemma_sp_vi_pos(buf@, i as int + 1);
    }
    if ipv > u32::MAX as u64 || i2 >= buf.len() || buf[i2] != 16 {
        return None;
    }
    let (pv, i3) = match decode_varint(buf, i2 + 1) {
        Some(x) => x,
        None => {
            return None;
        },
    };
    proof {
        lemma_sp_vi_pos(buf@, i2 as int + 1);
    }
    if pv > u32::MAX as u64 || i3 >= buf.len() || buf[i3] != 25 {
        return None;
    }
    if buf.len() - i3 < 9 {
        return None;
    }
    let sus_bytes = vstd::slice::slice_subrange(buf, i3 + 1, i3 + 9);
    let susp = u64_from_le_bytes(sus_bytes);
    let i4 = i3 + 9;
    if i4 >= buf.len() || buf[i4] != 32 {
        return None;
    }
    let (hb, i5) = match decode_varint(buf, i4 + 1) {
        Some(x) => x,
        None => {
            return None;
        },
    };
    let mut m = Member::new();
    m.set_ip(ipv as u32);
    m.set_port(pv as u32);
    m.set_suspicion(susp);
    m.set_heartbeat(hb);
    Some((m, i5))
}

// ---------------------------------------------------------------------------
// Gossip messages on the wire: field 1 the heartbeat as a varint, field 2
// the member list as tagged, length-delimited records, field 3 the kind
// tag as a varint when present. Fields appear in field order.
// ---------------------------------------------------------------------------

/// The wire encoding of the carried member list.
pub open spec fn ser_members(ms: Seq<Member>) -> Seq<u8>
    decreases ms.len(),
{
    if ms.len() == 0 {
        Seq::empty()
    } else {
        seq![18u8] + vi_enc(ser_member(ms[0]).len() as u64) + ser_member(ms[0]) + ser_members(
            ms.drop_first(),
        )
    }
}

/// The wire encoding of the kind field, empty when the kind is unset.
pub open spec fn ser_kind(kind: Option<u32>) -> Seq<u8> {
    match kind {
        Some(k) => seq![24u8] + vi_enc(k as u64),
        None => Seq::empty(),
    }
}

/// The wire encoding of a whole gossip message.
pub open spec fn ser_gossip(g: Gossip) -> Seq<u8> {
    seq![8u8] + vi_enc(g.spec_get_heartbeat()) + ser_members(g.members@) + ser_kind(g.kind)
}

/// The encoding of one member record spans its two tags, the two varints,
/// and the eight suspicion bytes: between 15 and 42 bytes.
pub proof fn lemma_ser_member_len(m: Member)
    ensures
        15 <= ser_member(m).len() <= 42,
{
    lemma_auto_spec_u64_to_from_le_bytes();
    lemma_vi_enc_len(m.spec_get_ip() as u64);
    lemma_vi_enc_len(m.spec_get_port() as u64);
    lemma_vi_enc_len(m.spec_get_heartbeat());
}

/// Parses member-list entries at position `i` of `s` until the bytes no
/// longer start one: the records in order and the position after them.
pub open spec fn sp_members(s: Seq<u8>, i: int) -> Option<(Seq<Member>, int)>
    decreases s.len() - i,
    via sp_members_decreases
{
    if i < 0 || i > s.len() {
        None
    } else if i == s.len() || s[i] != 18 {
        Some((Seq::empty(), i))
    } else {
        match sp_vi(s, i + 1) {
            None => None,
            Some((l, j)) => {
                match sp_member(s, j) {
                    None => None,
                    Some((m, e)) => {
                        if e != j + l {
                            None
                        } else {
                            match sp_members(s, e) {
                                None => None,
                                Some((rest, f)) => Some((seq![m] + rest, f)),
                            }
                        }
                    },
                }
            },
        }
    }
}

#[via_fn]
proof fn sp_members_decreases(s: Seq<u8>, i: int) {
    if 0 <= i < s.len() && s[i] == 18 {
        lemma_sp_vi_pos(s, i + 1);
        if sp_vi(s, i + 1) is Some {
            let (l, j) = sp_vi(s, i + 1)->0;
            lemma_sp_member_pos(s, j);
        }
    }
}

/// Every parsed list entry is initialized, and the list ends within the
/// buffer, at or after where it started.
pub proof fn lemma_sp_members_pos(s: Seq<u8>, i: int)
    ensures
        match sp_members(s, i) {
            Some(p) => i <= p.1 <= s.len() && forall|k: int|
                0 <= k < p.0.len() ==> (#[trigger] p.0[k]).wf(),
            None => true,
        },
    decreases s.len() - i,
{
    if 0 <= i < s.len() && s[i] == 18 {
        lemma_sp_vi_pos(s, i + 1);
        if sp_vi(s, i + 1) is Some {
            let (l, j) = sp_vi(s, i + 1)->0;
            lemma_sp_member_pos(s, j);
            if sp_member(s, j) is Some {
                let (m, e) = sp_member(s, j)->0;
                if e == j + l {
                    lemma_sp_members_pos(s, e);
                    if sp_members(s, e) is Some {
                        let (rest, f) = sp_members(s, e)->0;
                        assert forall|k: int|
                            0 <= k < (seq![m] + rest).len() implies ((seq![m] + rest)[k]).wf() by {
                            if k > 0 {
                                assert((seq![m] + rest)[k] == rest[k - 1]);
                            }
                        }
                    }
                }
            }
        }
    }
}

/// One more record at the end of the list appends its tagged,
/// length-delimited encoding at the end of the list's encoding.
pub proof fn lemma_ser_members_push(ms: Seq<Member>, m: Member)
    ensures
        ser_members(ms.push(m)) == ser_members(ms) + (seq![18u8] + vi_enc(
            ser_member(m).len() as u64,
        ) + ser_member(m)),
    decreases ms.len(),
{
    let chunk = seq![18u8] + vi_enc(ser_member(m).len() as u64) + ser_member(m);
    let p = ms.push(m);
    if ms.len() == 0 {
        assert(p.len() == 1);
        assert(p[0] == m);
        assert(p.drop_first() =~= Seq::<Member>::empty());
        assert(ser_members(Seq::<Member>::empty()) == Seq::<u8>::empty());
        assert(ser_members(p) == chunk + ser_members(p.drop_first()));
        assert(chunk + Seq::<u8>::empty() =~= Seq::<u8>::empty() + chunk);
        assert(ser_members(ms) == Seq::<u8>::empty());
    } else {
        assert(p[0] == ms[0]);
        assert(p.drop_first() =~= ms.drop_first().push(m));
        lemma_ser_members_push(ms.drop_first(), m);
        let head0 = seq![18u8] + vi_enc(ser_member(ms[0]).len() as u64) + ser_member(ms[0]);
        assert(ser_members(p) == head0 + ser_members(p.drop_first()));
        assert(ser_members(p.drop_first()) == ser_members(ms.drop_first()) + chunk);
        assert(head0 + (ser_members(ms.drop_first()) + chunk) =~= (head0 + ser_members(
            ms.drop_first(),
        )) + chunk);
        assert(ser_members(ms) == head0 + ser_members(ms.drop_first()));
    }
}

/// Parsing a buffer that carries the encoding of a list of initialized
/// records at position `i`, with no stray list tag right after it, yields
/// exactly those records.
pub proof fn lemma_sp_members_of_ser(s: Seq<u8>, i: int, ms: Seq<Member>)
    requires
        forall|k: int| 0 <= k < ms.len() ==> (#[trigger] ms[k]).wf(),
        0 <= i,
        i + ser_members(ms).len() <= s.len(),
        s.subrange(i, i + ser_members(ms).len()) == ser_members(ms),
        i + ser_members(ms).len() == s.len() || s[i + ser_members(ms).len()] != 18,
    ensures
        sp_members(s, i) == Some((ms, i + ser_members(ms).len())),
    decreases ms.len(),
{
    if ms.len() == 0 {
    } else {
        let m0 = ms[0];
        let e0 = ser_member(m0);
        let ll = e0.len();
        lemma_ser_member_len(m0);
        let p1 = seq![18u8];
        let p2 = vi_enc(ll as u64);
        let rest = ser_members(ms.drop_first());
        let r3 = e0 + rest;
        let r2 = p2 + r3;
        assert(ser_members(ms) =~= p1 + r2);
        lemma_split_subrange(s, i, p1, r2);
        assert(s[i] == 18) by {
            assert(s.subrange(i, i + 1)[0] == s[i]);
        }
        lemma_split_subrange(s, i + 1, p2, r3);
        lemma_sp_vi_of_enc(s, i + 1, ll as u64);
        let j = i + 1 + p2.len();
        lemma_split_subrange(s, j, e0, rest);
        lemma_sp_member_of_ser(s, j, m0);
        let e = j + ll;
        lemma_sp_members_of_ser(s, e, ms.drop_first());
        assert(seq![m0] + ms.drop_first() =~= ms);
        assert(sp_members(s, i) == Some((ms, i + ser_members(ms).len())));
    }
}

/// Parses a whole datagram as a gossip message: the heartbeat, the member
/// records in order, and the kind field if present. The buffer must hold
/// exactly one message.
pub open spec fn sp_gossip(s: Seq<u8>) -> Option<(u64, Seq<Member>, Option<u32>)> {
    if s.len() == 0 || s[0] != 8 {
        None
    } else {
        match sp_vi(s, 1) {
            None => None,
            Some((hb, i1)) => {
                match sp_members(s, i1) {
                    None => None,
                    Some((ms, i2)) => {
                        if i2 == s.len() {
                            Some((hb, ms, None))
                        } else if s[i2] != 24 {
                            None
                        } else {
                            match sp_vi(s, i2 + 1) {
                                None => None,
                                Some((k, i3)) => {
                                    if k > u32::MAX as u64 || i3 != s.len() {
                                        None
                                    } else {
                                        Some((hb, ms, Some(k as u32)))
                                    }
                                },
                            }
                        }
                    },
                }
            },
        }
    }
}

/// Serializing a well-formed gossip and parsing the bytes gives back its
/// heartbeat, its member records in order, and its kind field: the wire
/// codec loses nothing.
#[verifier::rlimit(100)]
#[verifier::spinoff_prover]
pub proof fn lemma_gossip_roundtrip(g: Gossip)
    requires
        g.wf(),
    ensures
        sp_gossip(ser_gossip(g)) == Some((g.spec_get_heartbeat(), g.members@, g.kind)),
{
    let s = ser_gossip(g);
    let hb = g.spec_get_heartbeat();
    let p1 = seq![8u8];
    let p2 = vi_enc(hb);
    let pm = ser_members(g.members@);
    let pk = ser_kind(g.kind);
    let r3 = pm + pk;
    let r2 = p2 + r3;
    assert(s =~= p1 + r2);
    assert(s.subrange(0, s.len() as int) =~= s);
    lemma_split_subrange(s, 0, p1, r2);
    assert(s[0] == 8) by {
        assert(s.subrange(0, 1)[0] == s[0]);
    }
    lemma_split_subrange(s, 1, p2, r3);
    lemma_sp_vi_of_enc(s, 1, hb);
    let i1: int = 1 + p2.len() as int;
    lemma_split_subrange(s, i1, pm, pk);
    let i2: int = i1 + pm.len() as int;
    if g.kind is Some {
        let k = g.kind->0;
        assert(pk == seq![24u8] + vi_enc(k as u64));
        assert(s[i2] == 24) by {
            assert(s.subrange(i2, i2 + pk.len())[0] == s[i2]);
            assert(pk[0] == 24);
        }
        assert(s[i2] != 18);
        lemma_sp_members_of_ser(s, i1, g.members@);
        let q1 = seq![24u8];
        let q2 = vi_enc(k as u64);
        assert(pk =~= q1 + q2);
        lemma_split_subrange(s, i2, q1, q2);
        lemma_sp_vi_of_enc(s, i2 + 1, k as u64);
        assert(i2 + 1 + q2.len() == s.len());
        assert(sp_gossip(s) == Some((hb, g.members@, g.kind)));
    } else {
        assert(pk.len() == 0);
        assert(i2 == s.len());
        lemma_sp_members_of_ser(s, i1, g.members@);
        assert(sp_gossip(s) == Some((hb, g.members@, g.kind)));
    }
}

/// Writes the wire encoding of a well-formed gossip message.
pub fn serialize_gossip(g: &Gossip) -> (r: Vec<u8>)
    requires
        g.wf(),
    ensures
        r@ == ser_gossip(*g),
{
    let mut out: Vec<u8> = Vec::new();
    out.push(8);
    push_varint(&mut out, g.get_heartbeat());
    let ghost base = out@;
    let mut idx: usize = 0;
    while idx < g.members.len()
        invariant
            g.wf(),
            idx <= g.members.len(),
            out@ == base + ser_members(g.members@.take(idx as int)),
        decreases g.members@.len() - idx,
    {
        let m = g.members[idx];
        let mut tmp: Vec<u8> = Vec::new();
        serialize_member_into(&mut tmp, &m);
        out.push(18);
        push_varint(&mut out, tmp.len() as u64);
        out.append(&mut tmp);
        proof {
            lemma_ser_members_push(g.members@.take(idx as int), g.members@[idx as int]);
            assert(g.members@.take(idx as int + 1) =~= g.members@.take(idx as int).push(
                g.members@[idx as int],
            ));
            assert(out@ =~= base + ser_members(g.members@.take(idx as int + 1)));
        }
        idx += 1;
    }
    proof {
        assert(g.members@.take(g.members@.len() as int) =~= g.members@);
    }
    if g.has_kind() {
        out.push(24);
        push_varint(&mut out, g.get_kind() as u64);
        proof {
            assert(out@ =~= ser_gossip(*g));
        }
    } else {
        proof {
            assert(ser_kind(g.kind) =~= Seq::<u8>::empty());
            assert(out@ =~= ser_gossip(*g));
        }
    }
    out
}

/// Reads member-list entries at position `i` of `buf`, exactly as
/// `sp_members` describes them.
pub fn parse_members(buf: &[u8], i: usize) -> (r: Option<(Vec<Member>, usize)>)
    ensures
        match sp_members(buf@, i as int) {
            Some(p) => r is Some && (r->0).0@ == p.0 && (r->0).1 == p.1,
            None => r is None,
        },
{
    if i > buf.len() {
        return None;
    }
    let mut acc: Vec<Member> = Vec::new();
    let mut cur = i;
    while cur < buf.len() && buf[cur] == 18
        invariant
            cur <= buf@.len(),
            sp_members(buf@, i as int) == (match sp_members(buf@, cur as int) {
                Some(p) => Some((acc@ + p.0, p.1)),
                None => None::<(Seq<Member>, int)>,
            }),
        decreases buf@.len() - cur,
    {
        let (l, j) = match decode_varint(buf, cur + 1) {
            Some(x) => x,
            None => {
                return None;
            },
        };
        proof {
            lemma_sp_vi_pos(buf@, cur as int + 1);
        }
        let (m, e) = match parse_member(buf, j) {
            Some(x) => x,
            None => {
                return None;
            },
        };
        proof {
            lemma_sp_member_pos(buf@, j as int);
        }
        if (e - j) as u64 != l {
            return None;
        }
        proof {
            let ghost old_cur = cur as int;
            if sp_members(buf@, e as int) is Some {
                let (rest, f) = sp_members(buf@, e as int)->0;
                assert(sp_members(buf@, old_cur) == Some((seq![m] + rest, f)));
                assert(acc@ + (seq![m] + rest) =~= acc@.push(m) + rest);
            }
        }
        acc.push(m);
        cur = e;
    }
    Some((acc, cur))
}

/// Reads a whole datagram as a gossip message, exactly as `sp_gossip`
/// describes it. A parsed message is well formed.
#[verifier::rlimit(30)]
pub fn parse_gossip(buf: &[u8]) -> (r: Option<Gossip>)
    ensures
        match sp_gossip(buf@) {
            Some(t) => r is Some && (r->0).heartbeat == Some(t.0) && (r->0).members@ == t.1 && (
            r->0).kind == t.2,
            None => r is None,
        },
        r is Some ==> (r->0).wf(),
{
    if buf.len() == 0 {
        return None;
    }
    if buf[0] != 8 {
        return None;
    }
    let (hb, i1) = match decode_varint(buf, 1) {
        Some(x) => x,
        None => {
            return None;
        },
    };
    proof {
        lemma_sp_vi_pos(buf@, 1);
    }
    let (members, i2) = match parse_members(buf, i1) {
        Some(x) => x,
        None => {
            return None;
        },
    };
    proof {
        lemma_sp_members_pos(buf@, i1 as int);
    }
    if i2 == buf.len() {
        proof {
            assert(sp_gossip(buf@) == Some((hb, members@, None::<u32>)));
        }
        return Some(Gossip { heartbeat: Some(hb), members: members, kind: None });
    }
    if buf[i2] != 24 {
        return None;
    }
    let (k, i3) = match decode_varint(buf, i2 + 1) {
        Some(x) => x,
        None => {
            return None;
        },
    };
    proof {
        lemma_sp_vi_pos(buf@, i2 as int + 1);
    }
    if k > 0xffff_ffffu64 || i3 != buf.len() {
        return None;
    }
    proof {
        assert(sp_gossip(buf@) == Some((hb, members@, Some(k as u32))));
    }
    Some(Gossip { heartbeat: Some(hb), members: members, kind: Some(k as u32) })
}

/// Translates gossip messages to datagram payloads and back. Parsing
/// accepts exactly the canonical encodings that `encode` writes, and
/// fails on anything else; a failed parse drops the datagram.
pub struct GossipCodec;

impl GossipCodec {
    /// Appends the wire encoding of a well-formed gossip to `buf`.
    pub fn encode(&self, gossip: &Gossip, buf: &mut Vec<u8>)
        requires
            gossip.wf(),
        ensures
            final(buf)@ == old(buf)@ + ser_gossip(*gossip),
    {
        let mut tmp = serialize_gossip(gossip);
        buf.append(&mut tmp);
    }

    /// Parses a datagram payload; `None` marks a malformed payload, which
    /// the caller drops without stopping.
    pub fn decode(&self, buf: &[u8]) -> (r: Option<Gossip>)
        ensures
            match sp_gossip(buf@) {
                Some(t) => r is Some && (r->0).heartbeat == Some(t.0) && (r->0).members@ == t.1
                    && (r->0).kind == t.2,
                None => r is None,
            },
            r is Some ==> (r->0).wf(),
    {
        parse_gossip(buf)
    }
}

} // verus!
