//! Requests, responses and errors.

use crate::log_id::LogId;
use crate::membership::Membership;
use crate::node::{Node, NodeId};
use crate::vote::Vote;
use vstd::prelude::*;

verus! {

/// A candidate asks for a vote.
#[derive(Clone, Copy, Debug, PartialEq, Eq)]
pub struct VoteRequest<NID> {
    /// The vote that the candidate asks for.
    pub vote: Vote<NID>,
    /// The last log id of the candidate.
    pub last_log_id: Option<LogId<NID>>,
}

/// The answer to a [`VoteRequest`].
#[derive(Clone, Copy, Debug, PartialEq, Eq)]
pub struct VoteResponse<NID> {
    /// The vote of the node that answers.
    pub vote: Vote<NID>,
    /// Whether the requested vote is granted.
    pub vote_granted: bool,
    /// The last log id of the node that answers.
    pub last_log_id: Option<LogId<NID>>,
}

/// Why a requested vote is refused.
#[derive(Clone, Copy, Debug, PartialEq, Eq)]
pub enum RejectVoteRequest<NID> {
    /// The node has seen a greater vote, which is given.
    ByVote(Vote<NID>),
    /// The log of the node reaches further, up to the given log id.
    ByLastLogId(Option<LogId<NID>>),
}

/// The answer to a request to append entries.
#[derive(Clone, Copy, Debug, PartialEq, Eq)]
pub enum AppendEntriesResponse<NID> {
    /// The entries are in the log.
    Success,
    /// The log does not hold the entry before the first one.
    Conflict,
    /// The node has seen a greater vote, which is given.
    HigherVote(Vote<NID>),
}

/// The node is not pristine, so it cannot be initialized.
#[derive(Clone, Copy, Debug, PartialEq, Eq)]
pub struct NotAllowed<NID> {
    pub last_log_id: Option<LogId<NID>>,
    pub vote: Vote<NID>,
}

/// The node is no voter of the membership that it is to be initialized with.
#[derive(Debug, PartialEq, Eq)]
pub struct NotInMembers<NID: NodeId, N: Node> {
    pub node_id: NID,
    pub membership: Membership<NID, N>,
}

/// The first entry of a cluster has to hold a membership.
#[derive(Clone, Copy, Debug, PartialEq, Eq)]
pub struct NotAMembershipEntry {}

/// Why a node cannot be initialized.
#[derive(Debug, PartialEq, Eq)]
pub enum InitializeError<NID: NodeId, N: Node> {
    NotAllowed(NotAllowed<NID>),
    NotInMembers(NotInMembers<NID, N>),
    NotAMembershipEntry(NotAMembershipEntry),
}

} // verus!
