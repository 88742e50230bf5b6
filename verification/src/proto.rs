use vstd::prelude::*;
use crate::member::Member;

verus! {

/// A gossip message: the sender's current heartbeat, its view of every
/// peer it knows, and the kind tag (`0` for Syn, `1` for Ack). The
/// heartbeat is required on the wire; the kind falls back to `0` when
/// absent, as wire defaults do.
#[derive(Clone, Debug, PartialEq)]
pub struct Gossip {
    pub heartbeat: Option<u64>,
    pub members: Vec<Member>,
    pub kind: Option<u32>,
}

impl Gossip {
    pub open spec fn spec_get_heartbeat(self) -> u64 {
        match self.heartbeat {
            Some(v) => v,
            None => 0,
        }
    }

    pub open spec fn spec_get_kind(self) -> u32 {
        match self.kind {
            Some(v) => v,
            None => 0,
        }
    }

    /// A message is well formed when its required heartbeat is present and
    /// every carried member record is fully initialized.
    pub open spec fn wf(self) -> bool {
        &&& self.heartbeat is Some
        &&& forall|i: int| 0 <= i < self.members@.len() ==> (#[trigger] self.members@[i]).wf()
    }

    /// A fresh message with nothing set.
    pub fn new() -> (r: Gossip)
        ensures
            r.heartbeat is None,
            r.members@ =~= Seq::<Member>::empty(),
            r.kind is None,
    {
        Gossip { heartbeat: None, members: Vec::new(), kind: None }
    }

    pub fn has_heartbeat(&self) -> (r: bool)
        ensures
            r == (self.heartbeat is Some),
    {
        self.heartbeat.is_some()
    }

    pub fn get_heartbeat(&self) -> (r: u64)
        ensures
            r == self.spec_get_heartbeat(),
    {
        match self.heartbeat {
            Some(v) => v,
            None => 0,
        }
    }

    pub fn set_heartbeat(&mut self, v: u64)
        ensures
            final(self).heartbeat == Some(v),
            final(self).members == old(self).members,
            final(self).kind == old(self).kind,
    {
        self.heartbeat = Some(v);
    }

    pub fn clear_heartbeat(&mut self)
        ensures
            final(self).heartbeat is None,
            final(self).members == old(self).members,
            final(self).kind == old(self).kind,
    {
        self.heartbeat = None;
    }

    pub fn has_kind(&self) -> (r: bool)
        ensures
            r == (self.kind is Some),
    {
        self.kind.is_some()
    }

    pub fn get_kind(&self) -> (r: u32)
        ensures
            r == self.spec_get_kind(),
    {
        match self.kind {
            Some(v) => v,
            None => 0,
        }
    }

    pub fn set_kind(&mut self, v: u32)
        ensures
            final(self).kind == Some(v),
            final(self).members == old(self).members,
            final(self).heartbeat == old(self).heartbeat,
    {
        self.kind = Some(v);
    }

    pub fn clear_kind(&mut self)
        ensures
            final(self).kind is None,
            final(self).members == old(self).members,
            final(self).heartbeat == old(self).heartbeat,
    {
        self.kind = None;
    }

    pub fn get_members(&self) -> (r: &Vec<Member>)
        ensures
            r == &self.members,
    {
        &self.members
    }

    pub fn set_members(&mut self, v: Vec<Member>)
        ensures
            final(self).members == v,
            final(self).heartbeat == old(self).heartbeat,
            final(self).kind == old(self).kind,
    {
        self.members = v;
    }

    pub fn clear_members(&mut self)
        ensures
            final(self).members@ =~= Seq::<Member>::empty(),
            final(self).heartbeat == old(self).heartbeat,
            final(self).kind == old(self).kind,
    {
        self.members = Vec::new();
    }

    /// Appends one member record to the carried view.
    pub fn push_member(&mut self, m: Member)
        ensures
            final(self).members@ == old(self).members@.push(m),
            final(self).heartbeat == old(self).heartbeat,
            final(self).kind == old(self).kind,
    {
        self.members.push(m);
    }

    /// Borrows the carried member records for in-place edits.
    pub fn mut_members(&mut self) -> (r: &mut Vec<Member>)
        ensures
            *r == old(self).members,
            final(self).members == *final(r),
            final(self).heartbeat == old(self).heartbeat,
            final(self).kind == old(self).kind,
    {
        &mut self.members
    }

    /// Moves the carried member records out, leaving the message with an
    /// empty view.
    pub fn take_members(&mut self) -> (r: Vec<Member>)
        ensures
            r == old(self).members,
            final(self).members@ =~= Seq::<Member>::empty(),
            final(self).heartbeat == old(self).heartbeat,
            final(self).kind == old(self).kind,
    {
        let mut tmp: Vec<Member> = Vec::new();
        core::mem::swap(&mut self.members, &mut tmp);
        tmp
    }
}

} // verus!
