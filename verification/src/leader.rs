//! What a node keeps only while it is candidate or leader.

use crate::log_id::{index_after, next_index, LogId};
use crate::membership::{has_quorum, is_quorum, Membership, MembershipView};
use crate::node::{Node, NodeId};
use crate::node_set::NodeSet;
use crate::progress::{Progress, ProgressEntry, ProgressView};
use crate::vote::Vote;
use vstd::prelude::*;

verus! {

/// The view of a [`Leader`].
#[verifier::ext_equal]
#[verifier::reject_recursive_types(NID)]
pub struct LeaderView<NID> {
    pub vote: Vote<NID>,
    pub granted_by: Set<NID>,
    pub progress: ProgressView<NID>,
}

impl<NID: NodeId> LeaderView<NID> {
    /// A candidacy starts: nobody has granted the vote, and nothing is known about the logs
    /// of the members.
    pub open spec fn started<M>(
        vote: Vote<NID>,
        m: MembershipView<NID, M>,
        last_log_id: Option<LogId<NID>>,
    ) -> Self {
        LeaderView {
            vote,
            granted_by: Set::empty(),
            progress: ProgressView::none().for_membership(
                m,
                ProgressEntry::unknown(next_index(last_log_id)),
            ),
        }
    }

    /// One more node has granted the vote.
    pub open spec fn granted(self, id: NID) -> Self {
        LeaderView { granted_by: self.granted_by.insert(id), ..self }
    }

    /// A quorum has granted the vote.
    pub open spec fn is_granted(self) -> bool {
        is_quorum(self.progress.configs, self.granted_by)
    }
}

/// A candidate or leader.
#[derive(Debug, PartialEq, Eq)]
pub struct Leader<NID: NodeId> {
    /// The vote that the node asks for or leads by.
    pub vote: Vote<NID>,
    /// The nodes that have granted the vote.
    pub vote_granted_by: NodeSet<NID>,
    /// What is known about the logs of the other nodes.
    pub progress: Progress<NID>,
}

impl<NID: NodeId> View for Leader<NID> {
    type V = LeaderView<NID>;

    open spec fn view(&self) -> LeaderView<NID> {
        LeaderView {
            vote: self.vote,
            granted_by: self.vote_granted_by@,
            progress: self.progress@,
        }
    }
}

impl<NID: NodeId> Leader<NID> {
    /// Starts a candidacy.
    pub fn new<N: Node>(
        vote: Vote<NID>,
        membership: &Membership<NID, N>,
        last_log_id: &Option<LogId<NID>>,
    ) -> (r: Self)
        requires
            next_index(*last_log_id) <= u64::MAX,
        ensures
            r@ == LeaderView::started(vote, membership@, *last_log_id),
    {
        let end = index_after(last_log_id);
        let progress = Progress::none().upgrade(membership, ProgressEntry::empty(end));
        Leader { vote, vote_granted_by: NodeSet::new(), progress }
    }

    /// Notes that a node has granted the vote.
    pub fn grant_vote_by(&mut self, target: NID)
        ensures
            final(self)@ == old(self)@.granted(target),
    {
        self.vote_granted_by.insert(target);
    }

    /// Whether a quorum has granted the vote.
    pub fn is_vote_granted(&self) -> (r: bool)
        ensures
            r == self@.is_granted(),
    {
        has_quorum(&self.progress.configs, &self.vote_granted_by)
    }
}

impl<NID: NodeId> Clone for Leader<NID> {
    fn clone(&self) -> (r: Self)
        ensures
            r@ == self@,
    {
        Leader {
            vote: self.vote,
            vote_granted_by: self.vote_granted_by.clone(),
            progress: self.progress.clone(),
        }
    }
}

/// Whether a node works as candidate or leader, or follows.
#[derive(Debug, PartialEq, Eq)]
pub enum InternalServerState<NID: NodeId> {
    /// The node is candidate or leader.
    Leading(Leader<NID>),
    /// The node is follower or learner.
    Following,
}

impl<NID: NodeId> View for InternalServerState<NID> {
    type V = Option<LeaderView<NID>>;

    open spec fn view(&self) -> Option<LeaderView<NID>> {
        match self {
            InternalServerState::Leading(l) => Some(l@),
            InternalServerState::Following => None,
        }
    }
}

impl<NID: NodeId> InternalServerState<NID> {
    /// Whether the node works as candidate or leader.
    pub fn is_leading(&self) -> (r: bool)
        ensures
            r == (self@ is Some),
    {
        match self {
            InternalServerState::Leading(_) => true,
            InternalServerState::Following => false,
        }
    }

    /// Whether the node follows.
    pub fn is_following(&self) -> (r: bool)
        ensures
            r == (self@ is None),
    {
        match self {
            InternalServerState::Leading(_) => false,
            InternalServerState::Following => true,
        }
    }
}

impl<NID: NodeId> Clone for InternalServerState<NID> {
    fn clone(&self) -> (r: Self)
        ensures
            r@ == self@,
    {
        match self {
            InternalServerState::Leading(l) => InternalServerState::Leading(l.clone()),
            InternalServerState::Following => InternalServerState::Following,
        }
    }
}

impl<NID: NodeId> Default for InternalServerState<NID> {
    fn default() -> (r: Self)
        ensures
            r@ is None,
    {
        InternalServerState::Following
    }
}

} // verus!
