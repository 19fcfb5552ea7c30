use vstd::prelude::*;

use crate::identity::{derive_identity, identity_spec, lookup, IdentityError, MemberMap, NodeIdentity};
use crate::ttl::{min_ttl_secs, min_ttl_secs_spec};

verus! {

/// What a node fixes at construction and never changes.
pub struct XlineServerView {
    pub name: Seq<char>,
    pub is_leader: bool,
    pub members: Seq<(Seq<char>, Seq<char>)>,
    pub identity: NodeIdentity,
    pub min_ttl_secs: u64,
}

/// The fixed part of one node: its name, its members, its identity and its
/// lease floor. The barriers, the shutdown signal and recovery are shared
/// separately, each under its own lock.
pub struct XlineServer {
    id: String,
    is_leader: bool,
    all_members: MemberMap,
    identity: NodeIdentity,
    min_ttl_secs: u64,
}

impl View for XlineServer {
    type V = XlineServerView;

    closed spec fn view(&self) -> XlineServerView {
        XlineServerView {
            name: self.id@,
            is_leader: self.is_leader,
            members: self.all_members@,
            identity: self.identity,
            min_ttl_secs: self.min_ttl_secs,
        }
    }
}

impl XlineServer {
    pub closed spec fn wf(&self) -> bool {
        &&& self.all_members.wf()
        &&& lookup(self.all_members@, self.id@) is Some
    }

    /// Sets up the node `name` of the cluster `all_members`. `now` is the
    /// time in seconds since the Unix epoch; the lease floor follows from
    /// the heartbeat interval (nanoseconds) and the candidate timeout
    /// (heartbeats). Fails when `name` is not a member.
    pub fn new(
        name: String,
        all_members: MemberMap,
        is_leader: bool,
        heartbeat_nanos: u64,
        candidate_timeout_ticks: u8,
        now: u64,
    ) -> (r: Result<XlineServer, IdentityError>)
        requires
            all_members.wf(),
        ensures
            lookup(all_members@, name@) is None ==> r == Err::<XlineServer, IdentityError>(IdentityError::UnknownMember),
            lookup(all_members@, name@) matches Some(url) ==> r matches Ok(s) && s.wf()
                && s@ == (XlineServerView {
                    name: name@,
                    is_leader,
                    members: all_members@,
                    identity: identity_spec(url, all_members@, now),
                    min_ttl_secs: min_ttl_secs_spec(heartbeat_nanos as nat, candidate_timeout_ticks as nat) as u64,
                }),
    {
        let identity = match derive_identity(&name, &all_members, now) {
            Ok(identity) => identity,
            Err(e) => return Err(e),
        };
        let min_ttl_secs = min_ttl_secs(heartbeat_nanos, candidate_timeout_ticks);
        Ok(XlineServer {
            id: name,
            is_leader,
            all_members,
            identity,
            min_ttl_secs,
        })
    }

    /// This node's name.
    pub fn id(&self) -> (r: &String)
        ensures
            r@ == self@.name,
    {
        &self.id
    }

    /// Whether this node starts as the leader.
    pub fn is_leader(&self) -> (r: bool)
        ensures
            r == self@.is_leader,
    {
        self.is_leader
    }

    /// This node's identity.
    pub fn identity(&self) -> (r: NodeIdentity)
        ensures
            r == self@.identity,
    {
        self.identity
    }

    /// The shortest lease lifetime granted, in seconds.
    pub fn min_ttl_secs(&self) -> (r: u64)
        ensures
            r == self@.min_ttl_secs,
    {
        self.min_ttl_secs
    }

    /// All members of the cluster.
    pub fn all_members(&self) -> (r: &MemberMap)
        ensures
            r@ == self@.members,
    {
        &self.all_members
    }

    /// The URL this node advertises.
    pub fn address(&self) -> (r: &String)
        requires
            self.wf(),
        ensures
            lookup(self@.members, self@.name) == Some(r@),
    {
        match self.all_members.get(&self.id) {
            Some(u) => u,
            None => {
                assert(false);
                &self.id
            },
        }
    }

    /// The other members of the cluster: every member but this node.
    pub fn peers(&self) -> (r: MemberMap)
        requires
            self.wf(),
        ensures
            r.wf(),
            lookup(r@, self@.name) is None,
            forall|n: Seq<char>| n != self@.name ==> lookup(r@, n) == lookup(self@.members, n),
    {
        self.all_members.without(&self.id)
    }
}

} // verus!
