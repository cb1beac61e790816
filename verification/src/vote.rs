//! Votes: who a node supports as leader.

use crate::log_id::LeaderId;
use crate::node::{same_id, NodeId};
use vstd::prelude::*;

verus! {

/// A vote for a node in a term. It is committed once a quorum has granted it, that is, once
/// the node is leader.
#[derive(Clone, Copy, Debug, PartialEq, Eq)]
pub struct Vote<NID> {
    pub term: u64,
    pub node_id: NID,
    pub committed: bool,
}

impl<NID: NodeId> Vote<NID> {
    /// The leadership that the vote is for.
    pub open spec fn leader(self) -> LeaderId<NID> {
        LeaderId { term: self.term, node_id: self.node_id }
    }

    /// Votes are ordered by term and node id; of two votes for one leadership, the committed
    /// one is the greater.
    pub open spec fn precedes(self, other: Self) -> bool {
        self.leader().precedes(other.leader()) || (self.leader() == other.leader()
            && !self.committed && other.committed)
    }

    /// The least vote: term zero, the default node, not committed.
    pub open spec fn least() -> Self {
        Vote { term: 0, node_id: NID::default_spec(), committed: false }
    }

    /// The same vote, granted by a quorum.
    pub open spec fn granted(self) -> Self {
        Vote { committed: true, ..self }
    }

    /// Makes a vote that no quorum has granted yet.
    pub fn new(term: u64, node_id: NID) -> (r: Self)
        ensures
            r == (Vote { term, node_id, committed: false }),
    {
        Vote { term, node_id, committed: false }
    }

    /// Makes a vote that a quorum has granted.
    pub fn new_committed(term: u64, node_id: NID) -> (r: Self)
        ensures
            r == (Vote { term, node_id, committed: true }),
    {
        Vote { term, node_id, committed: true }
    }

    /// The leadership that the vote is for.
    pub fn leader_id(&self) -> (r: LeaderId<NID>)
        ensures
            r == self.leader(),
    {
        LeaderId { term: self.term, node_id: self.node_id }
    }

    /// Whether this vote is less than `other`.
    pub fn is_before(&self, other: &Self) -> (r: bool)
        ensures
            r == self.precedes(*other),
    {
        let a = self.leader_id();
        let b = other.leader_id();
        a.is_before(&b) || (a.is_same(&b) && !self.committed && other.committed)
    }

    /// Whether two votes are the same.
    pub fn is_same(&self, other: &Self) -> (r: bool)
        ensures
            r == (*self == *other),
    {
        self.term == other.term && same_id(&self.node_id, &other.node_id) && self.committed
            == other.committed
    }
}

impl<NID: NodeId> Default for Vote<NID> {
    fn default() -> (r: Self)
        ensures
            r == Vote::<NID>::least(),
    {
        Vote { term: 0, node_id: NID::default_id(), committed: false }
    }
}

/// Of any two votes, either they are the same or exactly one is less than the other.
pub proof fn lemma_vote_order_is_total<NID: NodeId>(a: Vote<NID>, b: Vote<NID>)
    ensures
        a == b || a.precedes(b) || b.precedes(a),
        !(a.precedes(b) && b.precedes(a)),
        a == b ==> !a.precedes(b),
{
    crate::log_id::lemma_leader_order_is_total(a.leader(), b.leader());
}

/// What is less than a vote is less than every vote that is not less than that.
pub proof fn lemma_vote_order_is_transitive<NID: NodeId>(a: Vote<NID>, b: Vote<NID>, c: Vote<NID>)
    requires
        a.precedes(b),
        !c.precedes(b),
    ensures
        a.precedes(c),
{
    lemma_vote_order_is_total(b, c);
}

} // verus!
