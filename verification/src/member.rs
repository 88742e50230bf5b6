use vstd::prelude::*;

verus! {

/// A member record, both the on-wire entity and the local copy: the packed
/// IPv4 number, the port (widened to 32 bits as on the wire), the suspicion
/// value carried as the bit pattern of a 64-bit IEEE-754 float, and the
/// member's monotonic heartbeat counter. Absent fields have not been set
/// or parsed yet; getters fall back to zero, as wire records do.
#[derive(Clone, Copy, Debug, PartialEq)]
pub struct Member {
    pub ip: Option<u32>,
    pub port: Option<u32>,
    pub suspicion: Option<u64>,
    pub heartbeat: Option<u64>,
}

impl Member {
    pub open spec fn spec_get_ip(self) -> u32 {
        match self.ip {
            Some(v) => v,
            None => 0,
        }
    }

    pub open spec fn spec_get_port(self) -> u32 {
        match self.port {
            Some(v) => v,
            None => 0,
        }
    }

    pub open spec fn spec_get_suspicion(self) -> u64 {
        match self.suspicion {
            Some(v) => v,
            None => 0,
        }
    }

    pub open spec fn spec_get_heartbeat(self) -> u64 {
        match self.heartbeat {
            Some(v) => v,
            None => 0,
        }
    }

    /// The member key: the packed IPv4 number together with the port
    /// narrowed back to its 16 bits.
    pub open spec fn spec_id(self) -> (u32, u16) {
        (self.spec_get_ip(), (self.spec_get_port() % 0x10000) as u16)
    }

    /// A record is initialized when all four required fields are present.
    pub open spec fn wf(self) -> bool {
        &&& self.ip is Some
        &&& self.port is Some
        &&& self.suspicion is Some
        &&& self.heartbeat is Some
    }

    /// A fresh record with no field set.
    pub fn new() -> (r: Member)
        ensures
            r == (Member { ip: None, port: None, suspicion: None, heartbeat: None }),
    {
        Member { ip: None, port: None, suspicion: None, heartbeat: None }
    }

    pub fn has_ip(&self) -> (r: bool)
        ensures
            r == (self.ip is Some),
    {
        self.ip.is_some()
    }

    pub fn get_ip(&self) -> (r: u32)
        ensures
            r == self.spec_get_ip(),
    {
        match self.ip {
            Some(v) => v,
            None => 0,
        }
    }

    pub fn set_ip(&mut self, v: u32)
        ensures
            *final(self) == (Member { ip: Some(v), ..*old(self) }),
    {
        self.ip = Some(v);
    }

    pub fn clear_ip(&mut self)
        ensures
            *final(self) == (Member { ip: None, ..*old(self) }),
    {
        self.ip = None;
    }

    pub fn has_port(&self) -> (r: bool)
        ensures
            r == (self.port is Some),
    {
        self.port.is_some()
    }

    pub fn get_port(&self) -> (r: u32)
        ensures
            r == self.spec_get_port(),
    {
        match self.port {
            Some(v) => v,
            None => 0,
        }
    }

    pub fn set_port(&mut self, v: u32)
        ensures
            *final(self) == (Member { port: Some(v), ..*old(self) }),
    {
        self.port = Some(v);
    }

    pub fn clear_port(&mut self)
        ensures
            *final(self) == (Member { port: None, ..*old(self) }),
    {
        self.port = None;
    }

    pub fn has_suspicion(&self) -> (r: bool)
        ensures
            r == (self.suspicion is Some),
    {
        self.suspicion.is_some()
    }

    /// The suspicion as the bit pattern of the 64-bit float on the wire.
    pub fn get_suspicion(&self) -> (r: u64)
        ensures
            r == self.spec_get_suspicion(),
    {
        match self.suspicion {
            Some(v) => v,
            None => 0,
        }
    }

    pub fn set_suspicion(&mut self, v: u64)
        ensures
            *final(self) == (Member { suspicion: Some(v), ..*old(self) }),
    {
        self.suspicion = Some(v);
    }

    pub fn clear_suspicion(&mut self)
        ensures
            *final(self) == (Member { suspicion: None, ..*old(self) }),
    {
        self.suspicion = None;
    }

    pub fn has_heartbeat(&self) -> (r: bool)
        ensures
            r == (self.heartbeat is Some),
    {
        self.heartbeat.is_some()
    }

    pub fn get_heartbeat(&self) -> (r: u64)
        ensures
            r == self.spec_get_heartbeat(),
    {
        match self.heartbeat {
            Some(v) => v,
            None => 0,
        }
    }

    pub fn set_heartbeat(&mut self, v: u64)
        ensures
            *final(self) == (Member { heartbeat: Some(v), ..*old(self) }),
    {
        self.heartbeat = Some(v);
    }

    pub fn clear_heartbeat(&mut self)
        ensures
            *final(self) == (Member { heartbeat: None, ..*old(self) }),
    {
        self.heartbeat = None;
    }

    /// Whether every required field is present.
    pub fn is_initialized(&self) -> (r: bool)
        ensures
            r == self.wf(),
    {
        self.ip.is_some() && self.port.is_some() && self.suspicion.is_some()
            && self.heartbeat.is_some()
    }

    /// The member key, as `spec_id` gives it.
    pub fn id(&self) -> (r: (u32, u16))
        ensures
            r == self.spec_id(),
    {
        (self.get_ip(), (self.get_port() % 0x10000) as u16)
    }
}

/// Builds a fully initialized member record for a peer known only by its
/// key: suspicion and heartbeat start at zero.
pub fn member_from_id(id: (u32, u16)) -> (r: Member)
    ensures
        r == (Member {
            ip: Some(id.0),
            port: Some(id.1 as u32),
            suspicion: Some(0u64),
            heartbeat: Some(0u64),
        }),
        r.wf(),
        r.spec_id() == id,
{
    let r = Member {
        ip: Some(id.0),
        port: Some(id.1 as u32),
        suspicion: Some(0),
        heartbeat: Some(0),
    };
    assert(id.1 as u32 % 0x10000 == id.1);
    r
}

/// `x + 1`, stopping at the top of the range instead of wrapping.
pub open spec fn sat_inc(x: u64) -> u64 {
    if x == u64::MAX {
        x
    } else {
        (x + 1) as u64
    }
}

/// Book-keeping for the inter-arrival times of pings from one peer: when
/// the last ping arrived and how many inter-arrival durations have been
/// folded into the running distribution estimate. The numeric estimate
/// itself lives with the caller that performs the floating-point work;
/// this state decides when an observation exists at all.
#[derive(Clone, Copy, Debug, PartialEq)]
pub struct InterArrivalWindow {
    /// How many inter-arrival durations have been observed so far.
    pub observations: u64,
    /// Instant of the last arrival, in nanoseconds, once one happened.
    pub last_arrival_at: Option<u64>,
    /// Capacity constant; kept for configuration compatibility, at least 3.
    pub size: usize,
}

impl InterArrivalWindow {
    pub open spec fn wf(self) -> bool {
        self.size >= 3
    }

    /// A window that has seen nothing yet.
    pub open spec fn fresh(size: usize) -> InterArrivalWindow {
        InterArrivalWindow { observations: 0, last_arrival_at: None, size: size }
    }

    /// Makes an empty window of the given capacity; capacities under 3 are
    /// rejected.
    pub fn of_size(size: usize) -> (r: Option<InterArrivalWindow>)
        ensures
            r == (if size >= 3 {
                Some(InterArrivalWindow::fresh(size))
            } else {
                None::<InterArrivalWindow>
            }),
    {
        if size >= 3 {
            Some(InterArrivalWindow { observations: 0, last_arrival_at: None, size: size })
        } else {
            None
        }
    }

    pub fn size(&self) -> (r: usize)
        ensures
            r == self.size,
    {
        self.size
    }

    /// Records one more observed inter-arrival duration. The duration's
    /// value feeds the numeric estimate kept by the caller; here only the
    /// count of observations advances.
    pub fn update(&mut self, _value_ns: u64)
        ensures
            *final(self) == (InterArrivalWindow {
                observations: sat_inc(old(self).observations),
                ..*old(self)
            }),
    {
        self.observations = self.observations.saturating_add(1);
    }

    /// The window after an arrival at instant `t`, with the inter-arrival
    /// duration that this arrival yields, if any: the first arrival only
    /// records the instant.
    pub open spec fn spec_tick(self, t: u64) -> (InterArrivalWindow, Option<u64>) {
        match self.last_arrival_at {
            None => (InterArrivalWindow { last_arrival_at: Some(t), ..self }, None),
            Some(l) => (
                InterArrivalWindow {
                    observations: sat_inc(self.observations),
                    last_arrival_at: Some(t),
                    ..self
                },
                Some((t - l) as u64),
            ),
        }
    }

    /// Registers an arrival at instant `arrival_time` and returns the
    /// inter-arrival duration it yields, if this was not the first arrival.
    /// Arrivals are fed in order, so the instant never precedes the last
    /// recorded one.
    pub fn tick(&mut self, arrival_time: u64) -> (r: Option<u64>)
        requires
            old(self).last_arrival_at is Some ==> old(self).last_arrival_at->0 <= arrival_time,
        ensures
            *final(self) == old(self).spec_tick(arrival_time).0,
            r == old(self).spec_tick(arrival_time).1,
    {
        let r = match self.last_arrival_at {
            Some(last_arrival) => {
                self.update(arrival_time - last_arrival);
                Some(arrival_time - last_arrival)
            },
            None => None,
        };
        self.last_arrival_at = Some(arrival_time);
        r
    }

    /// The silence duration at instant `at`, when suspicion is computable
    /// at all: there must have been an arrival, it must not lie in the
    /// future of `at`, and at least one inter-arrival duration must have
    /// been observed (so a distribution estimate exists).
    pub open spec fn spec_phi_delta(self, at: u64) -> Option<u64> {
        match self.last_arrival_at {
            Some(l) => if l <= at && self.observations >= 1 {
                Some((at - l) as u64)
            } else {
                None
            },
            None => None,
        }
    }

    /// The silence duration that the suspicion computation takes as input
    /// at instant `at`, or `None` when suspicion is undefined: before any
    /// arrival, before the second arrival, or under clock skew.
    pub fn phi_delta(&self, at: u64) -> (r: Option<u64>)
        ensures
            r == self.spec_phi_delta(at),
    {
        match self.last_arrival_at {
            Some(l) => if l <= at && self.observations >= 1 {
                Some(at - l)
            } else {
                None
            },
            None => None,
        }
    }
}

/// What this process knows about one peer: the gossiped record, the instant
/// of the last accepted update, and the inter-arrival window for suspicion.
#[derive(Clone, Copy, Debug, PartialEq)]
pub struct MemberState {
    /// Information about the member, gossiped onward to other peers.
    pub member: Member,
    /// Instant, in nanoseconds, of the last accepted update.
    pub timestamp: u64,
    /// Capacity handed to the window when it is first needed.
    pub window_size: usize,
    /// Book-keeping for the inter-arrival times of pings from this peer.
    pub inter_arrival_window: Option<InterArrivalWindow>,
}

impl MemberState {
    pub open spec fn wf(self) -> bool {
        &&& self.window_size >= 3
        &&& self.member.wf()
        &&& match self.inter_arrival_window {
            Some(w) => w.size == self.window_size,
            None => true,
        }
    }

    /// All arrival instants recorded so far lie at or before `t`.
    pub open spec fn time_le(self, t: u64) -> bool {
        match self.inter_arrival_window {
            Some(w) => match w.last_arrival_at {
                Some(l) => l <= t,
                None => true,
            },
            None => true,
        }
    }

    pub open spec fn spec_from_member(member: Member, window_size: usize, now: u64) -> MemberState {
        MemberState {
            member: member,
            timestamp: now,
            window_size: window_size,
            inter_arrival_window: None,
        }
    }

    /// A fresh peer state for a newly learned member: updated now, with no
    /// window yet.
    pub fn from_member(member: Member, window_size: usize, now: u64) -> (r: MemberState)
        requires
            window_size >= 3,
            member.wf(),
        ensures
            r == MemberState::spec_from_member(member, window_size, now),
            r.wf(),
            r.time_le(now),
    {
        MemberState {
            member: member,
            timestamp: now,
            window_size: window_size,
            inter_arrival_window: None,
        }
    }

    /// The state after merging an incoming `(suspicion, heartbeat)` claim at
    /// instant `now`, with the inter-arrival duration the merge observed, if
    /// any. Only a strictly greater heartbeat changes anything: it is
    /// stored, the update instant advances, and the window (created on
    /// first need) registers the arrival.
    pub open spec fn spec_merge(self, heartbeat: u64, now: u64) -> (MemberState, Option<u64>) {
        if self.member.spec_get_heartbeat() < heartbeat {
            let w0 = match self.inter_arrival_window {
                Some(w) => w,
                None => InterArrivalWindow::fresh(self.window_size),
            };
            let (w1, obs) = w0.spec_tick(now);
            (
                MemberState {
                    member: Member { heartbeat: Some(heartbeat), ..self.member },
                    timestamp: now,
                    window_size: self.window_size,
                    inter_arrival_window: Some(w1),
                },
                obs,
            )
        } else {
            (self, None)
        }
    }

    /// Merges an incoming claim about this peer. The suspicion value is
    /// accepted but not currently applied. Returns the inter-arrival
    /// duration this merge observed, if any, for the caller's distribution
    /// estimate.
    pub fn merge(&mut self, _suspicion: u64, heartbeat: u64, now: u64) -> (r: Option<u64>)
        requires
            old(self).wf(),
            old(self).time_le(now),
        ensures
            *final(self) == old(self).spec_merge(heartbeat, now).0,
            r == old(self).spec_merge(heartbeat, now).1,
            final(self).wf(),
            final(self).time_le(now),
            final(self).member.spec_get_heartbeat() == hb_max(
                old(self).member.spec_get_heartbeat(),
                heartbeat,
            ),
    {
        if self.member.get_heartbeat() < heartbeat {
            self.member.set_heartbeat(heartbeat);
            self.timestamp = now;
            if self.inter_arrival_window.is_none() {
                self.inter_arrival_window = InterArrivalWindow::of_size(self.window_size);
            }
            match &mut self.inter_arrival_window {
                Some(w) => w.tick(now),
                None => {
                    assert(false);
                    None
                },
            }
        } else {
            None
        }
    }

    /// The silence duration for the suspicion query at instant `at`, or
    /// `None` while suspicion is undefined for this peer.
    pub fn phi_delta(&self, at: u64) -> (r: Option<u64>)
        ensures
            r == (match self.inter_arrival_window {
                Some(w) => w.spec_phi_delta(at),
                None => None::<u64>,
            }),
    {
        match &self.inter_arrival_window {
            Some(w) => w.phi_delta(at),
            None => None,
        }
    }

    /// This peer's member key.
    pub fn get_id(&self) -> (r: (u32, u16))
        ensures
            r == self.member.spec_id(),
    {
        self.member.id()
    }

    pub fn get_member_ref(&self) -> (r: &Member)
        ensures
            *r == self.member,
    {
        &self.member
    }
}

/// For a fixed window, the silence duration that feeds the suspicion
/// computation never decreases as the query instant advances: once
/// suspicion is defined at some instant, it is defined at every later
/// one, over a duration at least as large. With a fixed non-degenerate
/// distribution the suspicion value grows with that duration.
pub proof fn lemma_phi_delta_monotonic(w: InterArrivalWindow, t1: u64, t2: u64)
    requires
        t1 <= t2,
        w.spec_phi_delta(t1) is Some,
    ensures
        w.spec_phi_delta(t2) is Some,
        w.spec_phi_delta(t2)->0 >= w.spec_phi_delta(t1)->0,
{
}

/// The greater of two heartbeat values.
pub open spec fn hb_max(a: u64, b: u64) -> u64 {
    if a < b {
        b
    } else {
        a
    }
}

/// The heartbeat stored after merging the claims `hs` in order, one by one,
/// into a state whose heartbeat starts at `h0`.
pub open spec fn apply_heartbeats(h0: u64, hs: Seq<u64>) -> u64
    decreases hs.len(),
{
    if hs.len() == 0 {
        h0
    } else {
        apply_heartbeats(hb_max(h0, hs[0]), hs.skip(1))
    }
}

/// The peer state after merging a whole sequence of `(heartbeat, instant)`
/// claims in order.
pub open spec fn spec_merge_seq(ms: MemberState, updates: Seq<(u64, u64)>) -> MemberState
    decreases updates.len(),
{
    if updates.len() == 0 {
        ms
    } else {
        spec_merge_seq(ms.spec_merge(updates[0].0, updates[0].1).0, updates.skip(1))
    }
}

/// After any sequence of merges the stored heartbeat is exactly what
/// folding the incoming heartbeats with `hb_max` gives: the instants play
/// no part in it.
pub proof fn lemma_merge_seq_heartbeat(ms: MemberState, updates: Seq<(u64, u64)>)
    ensures
        spec_merge_seq(ms, updates).member.spec_get_heartbeat() == apply_heartbeats(
            ms.member.spec_get_heartbeat(),
            updates.map_values(|u: (u64, u64)| u.0),
        ),
    decreases updates.len(),
{
    let hs = updates.map_values(|u: (u64, u64)| u.0);
    if updates.len() == 0 {
    } else {
        let ms1 = ms.spec_merge(updates[0].0, updates[0].1).0;
        assert(ms1.member.spec_get_heartbeat() == hb_max(
            ms.member.spec_get_heartbeat(),
            updates[0].0,
        ));
        lemma_merge_seq_heartbeat(ms1, updates.skip(1));
        assert(updates.skip(1).map_values(|u: (u64, u64)| u.0) =~= hs.skip(1));
    }
}

/// The folded heartbeat is an upper bound of the start value and of every
/// merged claim, and is itself either the start value or one of the claims:
/// it is exactly the maximum of the initial heartbeat and all incoming
/// ones.
pub proof fn lemma_heartbeat_after_merges(h0: u64, hs: Seq<u64>)
    ensures
        apply_heartbeats(h0, hs) >= h0,
        forall|i: int| 0 <= i < hs.len() ==> apply_heartbeats(h0, hs) >= hs[i],
        apply_heartbeats(h0, hs) == h0 || hs.contains(apply_heartbeats(h0, hs)),
    decreases hs.len(),
{
    if hs.len() == 0 {
    } else {
        let h1 = hb_max(h0, hs[0]);
        lemma_heartbeat_after_merges(h1, hs.skip(1));
        let r = apply_heartbeats(h0, hs);
        assert(r == apply_heartbeats(h1, hs.skip(1)));
        assert forall|i: int| 0 <= i < hs.len() implies r >= hs[i] by {
            if i == 0 {
            } else {
                assert(hs.skip(1)[i - 1] == hs[i]);
            }
        }
        if r == h1 {
            if h1 == hs[0] {
                assert(hs.contains(r));
            }
        } else {
            let j = choose|j: int| 0 <= j < hs.skip(1).len() && hs.skip(1)[j] == r;
            assert(hs[j + 1] == r);
            assert(hs.contains(r));
        }
    }
}

/// Two merge sequences whose heartbeat claims are the same up to order
/// drive the stored heartbeat to the same final value.
pub proof fn lemma_heartbeat_order_irrelevant(h0: u64, hs1: Seq<u64>, hs2: Seq<u64>)
    requires
        hs1.to_multiset() == hs2.to_multiset(),
    ensures
        apply_heartbeats(h0, hs1) == apply_heartbeats(h0, hs2),
{
    broadcast use vstd::seq_lib::group_to_multiset_ensures;

    lemma_heartbeat_after_merges(h0, hs1);
    lemma_heartbeat_after_merges(h0, hs2);
    let r1 = apply_heartbeats(h0, hs1);
    let r2 = apply_heartbeats(h0, hs2);
    assert(r1 >= r2) by {
        if r2 != h0 {
            assert(hs2.contains(r2));
            assert(hs2.to_multiset().count(r2) > 0);
            assert(hs1.contains(r2));
            let j = choose|j: int| 0 <= j < hs1.len() && hs1[j] == r2;
            assert(r1 >= hs1[j]);
        }
    }
    assert(r2 >= r1) by {
        if r1 != h0 {
            assert(hs1.contains(r1));
            assert(hs1.to_multiset().count(r1) > 0);
            assert(hs2.contains(r1));
            let j = choose|j: int| 0 <= j < hs2.len() && hs2[j] == r1;
            assert(r2 >= hs2[j]);
        }
    }
}

} // verus!
