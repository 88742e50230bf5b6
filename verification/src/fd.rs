use vstd::prelude::*;
use crate::config::Config;
use crate::member::{hb_max, member_from_id, Member, MemberState};
use crate::proto::Gossip;
use crate::util::{GossipType, make_gossip};

verus! {

/// What the event loop is to do after one event was handled: send Syn
/// pings, answer a Syn with an Ack, nothing after an Ack merged, or
/// nothing because the kind tag was unknown.
pub enum FDEvent {
    PingOut(Vec<((u32, u16), Gossip)>),
    AckOut((u32, u16), Gossip),
    StateUpdated,
    Unexpected,
}

/// The member keys stored in a table, in table order.
pub open spec fn spec_ids(tbl: Seq<MemberState>) -> Seq<(u32, u16)> {
    tbl.map_values(|ms: MemberState| ms.member.spec_id())
}

/// The member records stored in a table, in table order: what a gossip
/// built from the table carries.
pub open spec fn spec_snapshot(tbl: Seq<MemberState>) -> Seq<Member> {
    tbl.map_values(|ms: MemberState| ms.member)
}

/// Whether some entry of `tbl` is keyed by `id`.
pub open spec fn has_id(tbl: Seq<MemberState>, id: (u32, u16)) -> bool {
    exists|i: int| 0 <= i < tbl.len() && (#[trigger] tbl[i]).member.spec_id() == id
}

/// The index of the entry keyed by `id`; meaningful when `has_id` holds
/// and keys are distinct.
pub open spec fn idx_of(tbl: Seq<MemberState>, id: (u32, u16)) -> int {
    choose|i: int| 0 <= i < tbl.len() && (#[trigger] tbl[i]).member.spec_id() == id
}

/// The synthetic member record the merge builds for the sender of a
/// gossip: keyed by the sender's address, carrying the gossip's heartbeat.
pub open spec fn spec_sender_member(from: (u32, u16), g: Gossip) -> Member {
    Member {
        ip: Some(from.0),
        port: Some(from.1 as u32),
        suspicion: Some(0u64),
        heartbeat: Some(g.spec_get_heartbeat()),
    }
}

/// The candidate records a merge considers: the sender first, then every
/// record the gossip carries, in order.
pub open spec fn spec_cands(from: (u32, u16), g: Gossip) -> Seq<Member> {
    seq![spec_sender_member(from, g)] + g.members@
}

/// The table after one candidate record is taken in at instant `now`,
/// with the inter-arrival observation it produced, if any. A candidate
/// keyed like the local node is skipped; a known key merges into its
/// entry; an unknown key inserts a fresh entry.
pub open spec fn spec_upsert(
    tbl: Seq<MemberState>,
    m: Member,
    self_id: (u32, u16),
    wnd: usize,
    now: u64,
) -> (Seq<MemberState>, Option<((u32, u16), u64)>) {
    let id = m.spec_id();
    if id == self_id {
        (tbl, None)
    } else if has_id(tbl, id) {
        let i = idx_of(tbl, id);
        let (ms1, ob) = tbl[i].spec_merge(m.spec_get_heartbeat(), now);
        (
            tbl.update(i, ms1),
            match ob {
                Some(d) => Some((id, d)),
                None => None,
            },
        )
    } else {
        (tbl.push(MemberState::spec_from_member(m, wnd, now)), None)
    }
}

/// The table after all candidate records are taken in, in order, with
/// the inter-arrival observations they produced, in order.
pub open spec fn spec_merge_cands(
    tbl: Seq<MemberState>,
    cands: Seq<Member>,
    self_id: (u32, u16),
    wnd: usize,
    now: u64,
) -> (Seq<MemberState>, Seq<((u32, u16), u64)>)
    decreases cands.len(),
{
    if cands.len() == 0 {
        (tbl, Seq::empty())
    } else {
        let (t1, ob) = spec_upsert(tbl, cands[0], self_id, wnd, now);
        let (t2, obs) = spec_merge_cands(t1, cands.drop_first(), self_id, wnd, now);
        (
            t2,
            (match ob {
                Some(o) => seq![o],
                None => Seq::empty(),
            }) + obs,
        )
    }
}

/// Taking in one more candidate at the end extends the run: the table is
/// the table after the shorter run with that candidate taken in, and its
/// observation, if any, comes last.
pub proof fn lemma_merge_cands_push(
    tbl: Seq<MemberState>,
    cands: Seq<Member>,
    c: Member,
    self_id: (u32, u16),
    wnd: usize,
    now: u64,
)
    ensures
        ({
            let (t1, o1) = spec_merge_cands(tbl, cands, self_id, wnd, now);
            let (t2, ob) = spec_upsert(t1, c, self_id, wnd, now);
            spec_merge_cands(tbl, cands.push(c), self_id, wnd, now) == (
                t2,
                o1 + (match ob {
                    Some(o) => seq![o],
                    None => Seq::<((u32, u16), u64)>::empty(),
                }),
            )
        }),
    decreases cands.len(),
{
    let p = cands.push(c);
    if cands.len() == 0 {
        assert(p[0] == c);
        assert(p.drop_first() =~= Seq::<Member>::empty());
        let (t1, ob) = spec_upsert(tbl, c, self_id, wnd, now);
        let obseq = (match ob {
            Some(o) => seq![o],
            None => Seq::<((u32, u16), u64)>::empty(),
        });
        assert(spec_merge_cands(t1, Seq::<Member>::empty(), self_id, wnd, now) == (
            t1,
            Seq::<((u32, u16), u64)>::empty(),
        ));
        assert(obseq + Seq::<((u32, u16), u64)>::empty() =~= Seq::<((u32, u16), u64)>::empty()
            + obseq);
    } else {
        assert(p[0] == cands[0]);
        assert(p.drop_first() =~= cands.drop_first().push(c));
        let (t1, ob1) = spec_upsert(tbl, cands[0], self_id, wnd, now);
        lemma_merge_cands_push(t1, cands.drop_first(), c, self_id, wnd, now);
        let o1seq = (match ob1 {
            Some(o) => seq![o],
            None => Seq::<((u32, u16), u64)>::empty(),
        });
        let (tr, or) = spec_merge_cands(t1, cands.drop_first(), self_id, wnd, now);
        let (t2, ob2) = spec_upsert(tr, c, self_id, wnd, now);
        let o2seq = (match ob2 {
            Some(o) => seq![o],
            None => Seq::<((u32, u16), u64)>::empty(),
        });
        assert(o1seq + (or + o2seq) =~= (o1seq + or) + o2seq);
    }
}

/// What one candidate does to the table, keyed entry by keyed entry,
/// when the table's keys are distinct: the candidate's own entry ends at
/// the greater of its stored and incoming heartbeats (or is inserted
/// with the incoming one), and every other entry is untouched.
pub proof fn lemma_upsert_heartbeat(
    tbl: Seq<MemberState>,
    m: Member,
    self_id: (u32, u16),
    wnd: usize,
    now: u64,
)
    requires
        forall|i: int, j: int|
            0 <= i < j < tbl.len() ==> (#[trigger] tbl[i]).member.spec_id() != (
            #[trigger] tbl[j]).member.spec_id(),
        m.spec_id() != self_id,
    ensures
        ({
            let id = m.spec_id();
            let t1 = spec_upsert(tbl, m, self_id, wnd, now).0;
            &&& has_id(t1, id)
            &&& t1[idx_of(t1, id)].member.spec_get_heartbeat() == (if has_id(tbl, id) {
                hb_max(
                    tbl[idx_of(tbl, id)].member.spec_get_heartbeat(),
                    m.spec_get_heartbeat(),
                )
            } else {
                m.spec_get_heartbeat()
            })
            &&& forall|j: int|
                0 <= j < tbl.len() && (#[trigger] tbl[j]).member.spec_id() != id ==> t1.contains(
                    tbl[j],
                )
        }),
{
    let id = m.spec_id();
    let t1 = spec_upsert(tbl, m, self_id, wnd, now).0;
    if has_id(tbl, id) {
        let i = idx_of(tbl, id);
        assert(0 <= i < tbl.len() && tbl[i].member.spec_id() == id);
        let ms1 = tbl[i].spec_merge(m.spec_get_heartbeat(), now).0;
        assert(ms1.member.spec_id() == id);
        assert(ms1.member.spec_get_heartbeat() == hb_max(
            tbl[i].member.spec_get_heartbeat(),
            m.spec_get_heartbeat(),
        ));
        assert(t1 == tbl.update(i, ms1));
        assert(t1[i] == ms1);
        assert(has_id(t1, id));
        let i1 = idx_of(t1, id);
        assert(0 <= i1 < t1.len() && t1[i1].member.spec_id() == id);
        assert(i1 == i) by {
            if i1 != i {
                assert(t1[i1] == tbl[i1]);
                assert(tbl[i1].member.spec_id() == tbl[i].member.spec_id());
            }
        }
        assert forall|j: int|
            0 <= j < tbl.len() && (#[trigger] tbl[j]).member.spec_id() != id implies t1.contains(
            tbl[j],
        ) by {
            assert(j != i);
            assert(t1[j] == tbl[j]);
        }
    } else {
        let fresh = MemberState::spec_from_member(m, wnd, now);
        assert(t1 == tbl.push(fresh));
        assert(t1[tbl.len() as int] == fresh);
        assert(fresh.member.spec_id() == id);
        assert(has_id(t1, id));
        let i1 = idx_of(t1, id);
        assert(0 <= i1 < t1.len() && t1[i1].member.spec_id() == id);
        assert(i1 == tbl.len()) by {
            if i1 != tbl.len() {
                assert(t1[i1] == tbl[i1]);
                assert(has_id(tbl, id));
            }
        }
        assert forall|j: int|
            0 <= j < tbl.len() && (#[trigger] tbl[j]).member.spec_id() != id implies t1.contains(
            tbl[j],
        ) by {
            assert(t1[j] == tbl[j]);
        }
    }
}

/// The table after one seed record is stored at instant `now`: a record
/// keyed like the local node is skipped, a known key has its entry
/// replaced by a fresh state, an unknown key appends one.
pub open spec fn spec_seed_one(
    tbl: Seq<MemberState>,
    m: Member,
    self_id: (u32, u16),
    wnd: usize,
    now: u64,
) -> Seq<MemberState> {
    let id = m.spec_id();
    if id == self_id {
        tbl
    } else if has_id(tbl, id) {
        tbl.update(idx_of(tbl, id), MemberState::spec_from_member(m, wnd, now))
    } else {
        tbl.push(MemberState::spec_from_member(m, wnd, now))
    }
}

/// The table after all seed records are stored, in order.
pub open spec fn spec_seed(
    tbl: Seq<MemberState>,
    ms: Seq<Member>,
    self_id: (u32, u16),
    wnd: usize,
    now: u64,
) -> Seq<MemberState>
    decreases ms.len(),
{
    if ms.len() == 0 {
        tbl
    } else {
        spec_seed(spec_seed_one(tbl, ms[0], self_id, wnd, now), ms.drop_first(), self_id, wnd, now)
    }
}

/// Storing one more seed record at the end extends the run.
pub proof fn lemma_seed_push(
    tbl: Seq<MemberState>,
    ms: Seq<Member>,
    m: Member,
    self_id: (u32, u16),
    wnd: usize,
    now: u64,
)
    ensures
        spec_seed(tbl, ms.push(m), self_id, wnd, now) == spec_seed_one(
            spec_seed(tbl, ms, self_id, wnd, now),
            m,
            self_id,
            wnd,
            now,
        ),
    decreases ms.len(),
{
    let p = ms.push(m);
    if ms.len() == 0 {
        assert(p[0] == m);
        assert(p.drop_first() =~= Seq::<Member>::empty());
        assert(spec_seed(spec_seed_one(tbl, m, self_id, wnd, now), p.drop_first(), self_id, wnd, now)
            == spec_seed_one(tbl, m, self_id, wnd, now));
    } else {
        assert(p[0] == ms[0]);
        assert(p.drop_first() =~= ms.drop_first().push(m));
        lemma_seed_push(spec_seed_one(tbl, ms[0], self_id, wnd, now), ms.drop_first(), m, self_id, wnd, now);
    }
}

/// The whole state of the failure detector: the membership table (never
/// holding the local node), the configuration, the local heartbeat, and
/// the latest instant the state was updated at.
pub struct FDState {
    pub members: Vec<MemberState>,
    pub config: Config,
    pub heartbeat: u64,
    pub clock: u64,
}

impl FDState {
    /// The state invariant: a well-formed configuration; every entry well
    /// formed, updated no later than `clock`, and keyed by a member key
    /// that is not the local node's; and no two entries sharing a key.
    pub open spec fn wf(self) -> bool {
        &&& self.config.wf()
        &&& forall|i: int| 0 <= i < self.members@.len() ==> (#[trigger] self.members@[i]).wf()
        &&& forall|i: int|
            0 <= i < self.members@.len() ==> (#[trigger] self.members@[i]).time_le(self.clock)
        &&& forall|i: int|
            0 <= i < self.members@.len() ==> (#[trigger] self.members@[i]).member.spec_id()
                != self.config.addr
        &&& forall|i: int, j: int|
            0 <= i < j < self.members@.len() ==> (#[trigger] self.members@[i]).member.spec_id() != (
            #[trigger] self.members@[j]).member.spec_id()
    }

    /// A fresh detector state with an empty table, heartbeat zero, and
    /// the given configuration, or the default one.
    pub fn new(config: Option<Config>) -> (r: FDState)
        requires
            match config {
                Some(c) => c.wf(),
                None => true,
            },
        ensures
            r.members@ =~= Seq::<MemberState>::empty(),
            r.heartbeat == 0,
            r.clock == 0,
            r.config == (match config {
                Some(c) => c,
                None => Config::spec_default(),
            }),
            r.wf(),
    {
        let config = match config {
            Some(c) => c,
            None => Config::default(),
        };
        FDState { members: Vec::new(), config: config, heartbeat: 0, clock: 0 }
    }

    /// Advances the local heartbeat by exactly one; the ticker calls this
    /// once per tick, after the tick's pings are built.
    pub fn epoch(&mut self)
        requires
            old(self).heartbeat < u64::MAX,
        ensures
            *final(self) == (FDState { heartbeat: (old(self).heartbeat + 1) as u64, ..*old(self) }),
    {
        self.heartbeat = self.heartbeat + 1;
    }

    pub fn cur_heartbeat(&self) -> (r: u64)
        ensures
            r == self.heartbeat,
    {
        self.heartbeat
    }

    /// The index of the entry keyed by `id`, scanning in table order.
    fn find_index(&self, id: (u32, u16)) -> (r: Option<usize>)
        ensures
            match r {
                Some(k) => k < self.members@.len() && self.members@[k as int].member.spec_id()
                    == id,
                None => !has_id(self.members@, id),
            },
    {
        let n = self.members.len();
        let mut k: usize = 0;
        while k < n
            invariant
                n == self.members@.len(),
                k <= n,
                forall|i: int| 0 <= i < k ==> (#[trigger] self.members@[i]).member.spec_id() != id,
            decreases n - k,
        {
            let mid = self.members[k].get_id();
            if mid.0 == id.0 && mid.1 == id.1 {
                return Some(k);
            }
            k += 1;
        }
        None
    }

    /// Takes one candidate record into the table at instant `now`, as
    /// `spec_upsert` describes, and returns the observation it produced.
    fn upsert_one(&mut self, m: Member, now: u64) -> (r: Option<((u32, u16), u64)>)
        requires
            old(self).wf(),
            m.wf(),
            old(self).clock == now,
        ensures
            final(self).wf(),
            final(self).config == old(self).config,
            final(self).heartbeat == old(self).heartbeat,
            final(self).clock == old(self).clock,
            ({
                let (t1, ob) = spec_upsert(
                    old(self).members@,
                    m,
                    old(self).config.addr,
                    old(self).config.window_size,
                    now,
                );
                final(self).members@ == t1 && r == ob
            }),
    {
        let id = m.id();
        if id.0 == self.config.addr.0 && id.1 == self.config.addr.1 {
            return None;
        }
        match self.find_index(id) {
            Some(k) => {
                proof {
                    assert(has_id(self.members@, id));
                    let i0 = idx_of(self.members@, id);
                    assert(0 <= i0 < self.members@.len() && self.members@[i0].member.spec_id()
                        == id);
                    assert(i0 == k as int);
                }
                let mut ms = self.members[k];
                let ob = ms.merge(m.get_suspicion(), m.get_heartbeat(), now);
                proof {
                    assert(ms.member.spec_id() == self.members@[k as int].member.spec_id());
                }
                self.members[k] = ms;
                match ob {
                    Some(d) => Some((id, d)),
                    None => None,
                }
            },
            None => {
                let fresh = MemberState::from_member(m, self.config.window_size, now);
                self.members.push(fresh);
                proof {
                    assert(final(self).members@ =~= old(self).members@.push(fresh));
                }
                None
            },
        }
    }

    /// Integrates an incoming gossip from `from` at instant `now`: the
    /// sender, then each carried record, is taken into the table as
    /// `spec_merge_cands` describes. Returns the inter-arrival
    /// observations the merge produced, in order, for the caller's
    /// distribution estimates. Instants are fed in order: `now` is no
    /// earlier than the last update.
    pub fn merge(&mut self, from: (u32, u16), gossip: &Gossip, now: u64) -> (r: Vec<
        ((u32, u16), u64),
    >)
        requires
            old(self).wf(),
            gossip.wf(),
            now >= old(self).clock,
        ensures
            final(self).wf(),
            final(self).clock == now,
            final(self).config == old(self).config,
            final(self).heartbeat == old(self).heartbeat,
            ({
                let (t, o) = spec_merge_cands(
                    old(self).members@,
                    spec_cands(from, *gossip),
                    old(self).config.addr,
                    old(self).config.window_size,
                    now,
                );
                final(self).members@ == t && r@ == o
            }),
    {
        let ghost tbl0 = self.members@;
        let ghost cands = spec_cands(from, *gossip);
        let ghost self_id = self.config.addr;
        let ghost wnd = self.config.window_size;
        self.clock = now;
        assert(self.wf());
        let mut sender = member_from_id(from);
        sender.set_heartbeat(gossip.get_heartbeat());
        proof {
            assert(sender == spec_sender_member(from, *gossip));
            assert(cands[0] == sender);
        }
        let mut obs: Vec<((u32, u16), u64)> = Vec::new();
        let ob0 = self.upsert_one(sender, now);
        match ob0 {
            Some(o) => obs.push(o),
            None => (),
        }
        proof {
            assert(cands.take(0) =~= Seq::<Member>::empty());
            assert(spec_merge_cands(tbl0, cands.take(0), self_id, wnd, now) == (
                tbl0,
                Seq::<((u32, u16), u64)>::empty(),
            ));
            lemma_merge_cands_push(tbl0, cands.take(0), sender, self_id, wnd, now);
            assert(cands.take(1) =~= cands.take(0).push(sender));
            let (t1, o1) = spec_merge_cands(tbl0, cands.take(1), self_id, wnd, now);
            assert(self.members@ == t1);
            assert(obs@ =~= o1);
        }
        let n = gossip.members.len();
        let mut idx: usize = 0;
        while idx < n
            invariant
                n == gossip.members@.len(),
                idx <= n,
                self.wf(),
                gossip.wf(),
                self.clock == now,
                self.config == old(self).config,
                self.heartbeat == old(self).heartbeat,
                tbl0 == old(self).members@,
                cands == spec_cands(from, *gossip),
                self_id == old(self).config.addr,
                wnd == old(self).config.window_size,
                cands.len() == 1 + n,
                ({
                    let (t, o) = spec_merge_cands(
                        tbl0,
                        cands.take(idx as int + 1),
                        self_id,
                        wnd,
                        now,
                    );
                    self.members@ == t && obs@ == o
                }),
            decreases n - idx,
        {
            let m = gossip.members[idx];
            proof {
                assert(cands[idx as int + 1] == m);
            }
            let ob = self.upsert_one(m, now);
            match ob {
                Some(o) => obs.push(o),
                None => (),
            }
            proof {
                lemma_merge_cands_push(tbl0, cands.take(idx as int + 1), m, self_id, wnd, now);
                assert(cands.take(idx as int + 2) =~= cands.take(idx as int + 1).push(m));
                let (t, o) = spec_merge_cands(tbl0, cands.take(idx as int + 2), self_id, wnd, now);
                assert(self.members@ == t);
                assert(obs@ =~= o);
            }
            idx += 1;
        }
        proof {
            assert(cands.take(n as int + 1) =~= cands);
        }
        obs
    }

    /// A fresh detector state whose table is seeded, at instant `now`,
    /// with the given member records in order: the introducers a node
    /// starts with. Records keyed like the local node are skipped, and a
    /// later record with the same key replaces an earlier one.
    pub fn with_members(members: Vec<Member>, config: Option<Config>, now: u64) -> (r: FDState)
        requires
            match config {
                Some(c) => c.wf(),
                None => true,
            },
            forall|i: int| 0 <= i < members@.len() ==> (#[trigger] members@[i]).wf(),
        ensures
            r.heartbeat == 0,
            r.clock == now,
            r.config == (match config {
                Some(c) => c,
                None => Config::spec_default(),
            }),
            r.members@ == spec_seed(
                Seq::<MemberState>::empty(),
                members@,
                r.config.addr,
                r.config.window_size,
                now,
            ),
            r.wf(),
    {
        let mut ret = FDState::new(config);
        ret.clock = now;
        let ghost self_id = ret.config.addr;
        let ghost wnd = ret.config.window_size;
        let n = members.len();
        let mut idx: usize = 0;
        while idx < n
            invariant
                n == members@.len(),
                idx <= n,
                ret.wf(),
                ret.heartbeat == 0,
                ret.clock == now,
                ret.config == (match config {
                    Some(c) => c,
                    None => Config::spec_default(),
                }),
                self_id == ret.config.addr,
                wnd == ret.config.window_size,
                forall|i: int| 0 <= i < members@.len() ==> (#[trigger] members@[i]).wf(),
                ret.members@ == spec_seed(
                    Seq::<MemberState>::empty(),
                    members@.take(idx as int),
                    self_id,
                    wnd,
                    now,
                ),
            decreases n - idx,
        {
            let m = members[idx];
            ret.seed_one(m, now);
            proof {
                lemma_seed_push(
                    Seq::<MemberState>::empty(),
                    members@.take(idx as int),
                    m,
                    self_id,
                    wnd,
                    now,
                );
                assert(members@.take(idx as int + 1) =~= members@.take(idx as int).push(m));
            }
            idx += 1;
        }
        proof {
            assert(members@.take(n as int) =~= members@);
        }
        ret
    }

    /// Stores one seed record, as `spec_seed_one` describes.
    fn seed_one(&mut self, m: Member, now: u64)
        requires
            old(self).wf(),
            m.wf(),
            old(self).clock == now,
        ensures
            final(self).wf(),
            final(self).config == old(self).config,
            final(self).heartbeat == old(self).heartbeat,
            final(self).clock == old(self).clock,
            final(self).members@ == spec_seed_one(
                old(self).members@,
                m,
                old(self).config.addr,
                old(self).config.window_size,
                now,
            ),
    {
        let id = m.id();
        if id.0 == self.config.addr.0 && id.1 == self.config.addr.1 {
            return ;
        }
        let fresh = MemberState::from_member(m, self.config.window_size, now);
        match self.find_index(id) {
            Some(k) => {
                proof {
                    assert(has_id(self.members@, id));
                    let i0 = idx_of(self.members@, id);
                    assert(0 <= i0 < self.members@.len() && self.members@[i0].member.spec_id()
                        == id);
                    assert(i0 == k as int);
                }
                self.members[k] = fresh;
            },
            None => {
                self.members.push(fresh);
                proof {
                    assert(final(self).members@ =~= old(self).members@.push(fresh));
                }
            },
        }
    }

    /// A copy of every member record in the table, in table order: the
    /// view of the cluster that outgoing gossips carry.
    pub fn snapshot_members(&self) -> (r: Vec<Member>)
        ensures
            r@ == spec_snapshot(self.members@),
    {
        let mut r: Vec<Member> = Vec::new();
        let n = self.members.len();
        let mut k: usize = 0;
        while k < n
            invariant
                n == self.members@.len(),
                k <= n,
                r@ =~= spec_snapshot(self.members@).take(k as int),
            decreases n - k,
        {
            r.push(self.members[k].member);
            proof {
                assert(r@ =~= spec_snapshot(self.members@).take(k as int + 1));
            }
            k += 1;
        }
        proof {
            assert(spec_snapshot(self.members@).take(n as int) =~= spec_snapshot(self.members@));
        }
        r
    }

    /// One tick of the ticker: samples up to `num_members_to_ping` peers
    /// uniformly at random without replacement, builds one Syn gossip per
    /// sampled peer carrying the pre-tick heartbeat and the whole table,
    /// and then advances the local heartbeat by one. Asking for more
    /// peers than the table holds pings them all.
    pub fn on_tick(&mut self) -> (r: Vec<((u32, u16), Gossip)>)
        requires
            old(self).wf(),
            old(self).heartbeat < u64::MAX,
        ensures
            *final(self) == (FDState { heartbeat: (old(self).heartbeat + 1) as u64, ..*old(self) }),
            final(self).wf(),
            r@.len() == (if old(self).config.num_members_to_ping as int <= old(
                self,
            ).members@.len() {
                old(self).config.num_members_to_ping as int
            } else {
                old(self).members@.len() as int
            }),
            forall|i: int|
                0 <= i < r@.len() ==> (#[trigger] r@[i]).1.heartbeat == Some(old(self).heartbeat)
                    && r@[i].1.members@ == spec_snapshot(old(self).members@) && r@[i].1.kind
                    == Some(0u32) && r@[i].1.wf(),
            forall|i: int|
                0 <= i < r@.len() ==> spec_ids(old(self).members@).contains((#[trigger] r@[i]).0),
            forall|i1: int, i2: int|
                0 <= i1 < i2 < r@.len() ==> (#[trigger] r@[i1]).0 != (#[trigger] r@[i2]).0,
            old(self).config.num_members_to_ping as int >= old(self).members@.len() ==> (forall|
                j: int,
            |
                0 <= j < old(self).members@.len() ==> r@.map_values(
                    |p: ((u32, u16), Gossip)| p.0,
                ).contains((#[trigger] old(self).members@[j]).member.spec_id())),
    {
        let n = self.members.len();
        let k_cfg = self.config.num_members_to_ping as usize;
        let k = if k_cfg < n {
            k_cfg
        } else {
            n
        };
        let idxs = sample_indices(n, k);
        let mut r: Vec<((u32, u16), Gossip)> = Vec::new();
        let mut i: usize = 0;
        while i < idxs.len()
            invariant
                self == old(self),
                self.wf(),
                n == self.members@.len(),
                idxs@.len() == k,
                k <= n,
                forall|a: int| 0 <= a < idxs@.len() ==> (#[trigger] idxs@[a]) < n,
                forall|a: int, b: int| 0 <= a < b < idxs@.len() ==> idxs@[a] != idxs@[b],
                i <= idxs@.len(),
                r@.len() == i,
                forall|a: int|
                    0 <= a < i ==> (#[trigger] r@[a]).1.heartbeat == Some(self.heartbeat)
                        && r@[a].1.members@ == spec_snapshot(self.members@) && r@[a].1.kind == Some(
                        0u32,
                    ),
                forall|a: int|
                    0 <= a < i ==> (#[trigger] r@[a]).0 == self.members@[idxs@[a] as int].member.spec_id(),
            decreases idxs@.len() - i,
        {
            let target = self.members[idxs[i]].get_id();
            let snapshot = self.snapshot_members();
            let gossip = make_gossip(self.cur_heartbeat(), snapshot, GossipType::Syn);
            r.push((target, gossip));
            i += 1;
        }
        proof {
            assert forall|a: int| 0 <= a < r@.len() implies (#[trigger] r@[a]).1.wf() by {
                assert(r@[a].1.members@ == spec_snapshot(self.members@));
                assert forall|b: int|
                    0 <= b < r@[a].1.members@.len() implies (#[trigger] r@[a].1.members@[b]).wf() by {
                    assert(r@[a].1.members@[b] == self.members@[b].member);
                }
            }
            assert forall|i1: int, i2: int|
                0 <= i1 < i2 < r@.len() implies (#[trigger] r@[i1]).0 != (#[trigger] r@[i2]).0 by {
                assert(r@[i1].0 == self.members@[idxs@[i1] as int].member.spec_id());
                assert(r@[i2].0 == self.members@[idxs@[i2] as int].member.spec_id());
                assert(idxs@[i1] != idxs@[i2]);
            }
            assert forall|a: int| 0 <= a < r@.len() implies spec_ids(old(self).members@).contains(
                (#[trigger] r@[a]).0,
            ) by {
                let j = idxs@[a] as int;
                assert(self.members@ == old(self).members@);
                assert(spec_ids(old(self).members@)[j] == r@[a].0);
            }
            if k == n {
                lemma_distinct_targets_cover_all_ids(r@, idxs@, self.members@);
            }
        }
        self.epoch();
        r
    }

    /// Handles one decoded inbound gossip: merges it into the table, then
    /// decides the reply. A Syn is answered with an Ack that carries the
    /// merged table and the current heartbeat, an Ack needs no reply, and
    /// an unknown kind tag is dropped. Returns the decision together with
    /// the inter-arrival observations the merge produced.
    pub fn on_gossip(&mut self, from: (u32, u16), gossip: &Gossip, now: u64) -> (r: (
        FDEvent,
        Vec<((u32, u16), u64)>,
    ))
        requires
            old(self).wf(),
            gossip.wf(),
            now >= old(self).clock,
        ensures
            final(self).wf(),
            final(self).clock == now,
            final(self).config == old(self).config,
            final(self).heartbeat == old(self).heartbeat,
            ({
                let (t, o) = spec_merge_cands(
                    old(self).members@,
                    spec_cands(from, *gossip),
                    old(self).config.addr,
                    old(self).config.window_size,
                    now,
                );
                final(self).members@ == t && r.1@ == o
            }),
            gossip.spec_get_kind() == 0 ==> (r.0 matches FDEvent::AckOut(to, ack) && to == from
                && ack.heartbeat == Some(final(self).heartbeat) && ack.members@ == spec_snapshot(
                final(self).members@,
            ) && ack.kind == Some(1u32) && ack.wf()),
            gossip.spec_get_kind() == 1 ==> (r.0 matches FDEvent::StateUpdated),
            gossip.spec_get_kind() != 0 && gossip.spec_get_kind() != 1 ==> (
            r.0 matches FDEvent::Unexpected),
    {
        let obs = self.merge(from, gossip, now);
        let kind = gossip.get_kind();
        match GossipType::from_u32(kind) {
            Some(GossipType::Syn) => {
                let snapshot = self.snapshot_members();
                proof {
                    assert forall|b: int|
                        0 <= b < spec_snapshot(self.members@).len() implies (#[trigger] spec_snapshot(
                        self.members@,
                    )[b]).wf() by {
                        assert(spec_snapshot(self.members@)[b] == self.members@[b].member);
                    }
                }
                let ack = make_gossip(self.cur_heartbeat(), snapshot, GossipType::Ack);
                (FDEvent::AckOut(from, ack), obs)
            },
            Some(GossipType::Ack) => (FDEvent::StateUpdated, obs),
            None => (FDEvent::Unexpected, obs),
        }
    }
}

/// When as many distinct targets were drawn as the table has entries,
/// every entry's key is among the targets: sampling more peers than the
/// table holds pings them all.
proof fn lemma_distinct_targets_cover_all_ids(
    r: Seq<((u32, u16), Gossip)>,
    idxs: Seq<usize>,
    tbl: Seq<MemberState>,
)
    requires
        r.len() == tbl.len(),
        idxs.len() == r.len(),
        forall|a: int| 0 <= a < idxs.len() ==> (#[trigger] idxs[a]) < tbl.len(),
        forall|a: int| 0 <= a < r.len() ==> (#[trigger] r[a]).0 == tbl[idxs[a] as int].member.spec_id(),
        forall|i1: int, i2: int|
            0 <= i1 < i2 < r.len() ==> (#[trigger] r[i1]).0 != (#[trigger] r[i2]).0,
        forall|i: int, j: int|
            0 <= i < j < tbl.len() ==> (#[trigger] tbl[i]).member.spec_id() != (
            #[trigger] tbl[j]).member.spec_id(),
    ensures
        forall|j: int|
            0 <= j < tbl.len() ==> r.map_values(|p: ((u32, u16), Gossip)| p.0).contains(
                (#[trigger] tbl[j]).member.spec_id(),
            ),
{
    broadcast use vstd::set::group_set_axioms;
    broadcast use vstd::seq_lib::seq_to_set_is_finite;

    let targets = r.map_values(|p: ((u32, u16), Gossip)| p.0);
    let idseq = spec_ids(tbl);
    assert(targets.len() == tbl.len());
    assert(idseq.len() == tbl.len());
    assert(targets.no_duplicates()) by {
        assert forall|i1: int, i2: int|
            0 <= i1 < targets.len() && 0 <= i2 < targets.len() && i1 != i2 implies targets[i1]
            != targets[i2] by {
            assert(targets[i1] == r[i1].0 && targets[i2] == r[i2].0);
        }
    }
    assert(idseq.no_duplicates()) by {
        assert forall|i1: int, i2: int|
            0 <= i1 < idseq.len() && 0 <= i2 < idseq.len() && i1 != i2 implies idseq[i1]
            != idseq[i2] by {
            assert(idseq[i1] == tbl[i1].member.spec_id() && idseq[i2] == tbl[i2].member.spec_id());
        }
    }
    targets.unique_seq_to_set();
    idseq.unique_seq_to_set();
    assert(targets.to_set().subset_of(idseq.to_set())) by {
        assert forall|x: (u32, u16)| targets.to_set().contains(x) implies idseq.to_set().contains(
            x,
        ) by {
            let a = choose|a: int| 0 <= a < targets.len() && targets[a] == x;
            assert(r[a].0 == x);
            assert(idseq[idxs[a] as int] == x);
            assert(idseq.contains(x));
        }
    }
    vstd::set_lib::lemma_subset_equality(targets.to_set(), idseq.to_set());
    assert forall|j: int| 0 <= j < tbl.len() implies targets.contains(
        (#[trigger] tbl[j]).member.spec_id(),
    ) by {
        assert(idseq[j] == tbl[j].member.spec_id());
        assert(idseq.contains(idseq[j]));
        assert(idseq.to_set().contains(idseq[j]));
        assert(targets.to_set().contains(idseq[j]));
    }
}

/// Relies on `rand::seq::index::sample` (driven by `rand::thread_rng`):
/// it returns exactly `amount` distinct indices drawn uniformly at random
/// without replacement from `0..length`, in arbitrary order, and demands
/// `amount <= length`.
#[verifier::external_body]
fn sample_indices(length: usize, amount: usize) -> (r: Vec<usize>)
    requires
        amount <= length,
    ensures
        r@.len() == amount,
        forall|i: int| 0 <= i < r@.len() ==> (#[trigger] r@[i]) < length,
        forall|i: int, j: int| 0 <= i < j < r@.len() ==> r@[i] != r@[j],
{
    let mut rng = rand::thread_rng();
    rand::seq::index::sample(&mut rng, length, amount).into_vec()
}

} // verus!
