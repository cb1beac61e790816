//! Keeps track of votes, and of whether a node leads or follows.

use crate::command::{Command, CommandView, EngineOutput};
use crate::config::EngineConfig;
use crate::handler::server_state_handler::ServerStateHandler;
use crate::leader::{InternalServerState, Leader, LeaderView};
use crate::log_id::next_index;
use crate::message::RejectVoteRequest;
use crate::node::{Node, NodeId};
use crate::progress::ProgressEntry;
use crate::raft_state::{RaftState, RaftStateView};
use crate::view::{engine_view, EngineView, LocalView};
use crate::vote::Vote;
use vstd::prelude::*;

verus! {

impl<NID: NodeId, M> EngineView<NID, M> {
    /// What a node starts its candidacy with: it knows its own log and nothing else.
    pub open spec fn candidacy(self) -> LeaderView<NID> {
        let s = self.local.state;
        let l = LeaderView::started(s.vote, s.membership.effective.membership, s.last_log_id());
        match l.progress.entry(self.config.id) {
            Some(e) => LeaderView {
                progress: l.progress.with(
                    self.config.id,
                    ProgressEntry { matching: s.last_log_id(), ..e },
                ),
                ..l
            },
            None => l,
        }
    }

    /// The node leads: it goes on if the vote is for the leadership it works for, and starts
    /// a candidacy otherwise.
    pub open spec fn became_leading(self) -> Self {
        let leader = match self.leader {
            Some(l) if l.vote.leader() == self.local.state.vote.leader() => LeaderView {
                vote: self.local.state.vote,
                ..l
            },
            _ => self.candidacy(),
        };
        EngineView {
            leader: Some(leader),
            local: self.local.role_updated(self.config.id),
            ..self
        }
    }

    /// The node follows: it waits for a while before it asks for votes itself, longer if
    /// there is a leader.
    pub open spec fn became_following(self) -> Self {
        let waiting = LocalView {
            output: self.local.output.push(
                CommandView::InstallElectionTimer {
                    can_be_leader: !self.local.state.vote.committed,
                },
            ),
            ..self.local
        };
        EngineView {
            leader: None,
            local: if self.leader is Some {
                waiting.role_updated(self.config.id)
            } else {
                waiting
            },
            ..self
        }
    }

    /// The node leads if its vote is for itself, and follows otherwise.
    pub open spec fn took_side(self) -> Self {
        if self.local.state.is_leading(self.config.id) {
            self.became_leading()
        } else {
            self.became_following()
        }
    }

    /// The node has seen a vote that is not less than its own: it stores the vote if it is
    /// greater, and leads or follows accordingly.
    pub open spec fn saw_vote(self, vote: Vote<NID>) -> Self {
        if self.local.state.vote.precedes(vote) {
            EngineView {
                local: LocalView {
                    state: RaftStateView { vote, ..self.local.state },
                    output: self.local.output.push(CommandView::SaveVote { vote }),
                },
                ..self
            }.took_side()
        } else {
            self.took_side()
        }
    }
}

/// Keeps track of votes, and of whether a node leads or follows.
pub struct VoteHandler<'x, NID: NodeId, N: Node> {
    pub config: &'x EngineConfig<NID>,
    pub state: &'x mut RaftState<NID, N>,
    pub output: &'x mut EngineOutput<NID, N>,
    pub internal_server_state: &'x mut InternalServerState<NID>,
}

impl<'x, NID: NodeId, N: Node> VoteHandler<'x, NID, N> {
    /// The view of the borrowed fields.
    pub open spec fn view(&self) -> EngineView<NID, N::V> {
        engine_view(*self.config, *self.state, *self.output, *self.internal_server_state)
    }

    /// Marks the vote as granted by a quorum.
    pub fn commit_vote(&mut self)
        requires
            next_index(old(self).state@.last_log_id()) <= u64::MAX,
        ensures
            final(self)@ == old(self)@.saw_vote(old(self).state@.vote.granted()),
            *final(final(self).state) == *final(old(self).state),
            *final(final(self).output) == *final(old(self).output),
            *final(final(self).internal_server_state) == *final(old(self).internal_server_state),
    {
        let mut vote = self.state.vote;
        proof {
            crate::vote::lemma_vote_order_is_total(vote, vote.granted());
        }
        vote.committed = true;
        let r = self.handle_message_vote(&vote);
        assert(r is Ok);
    }

    /// Takes note of the vote that came with a message. A vote that is less than the vote of
    /// this node is refused.
    pub fn handle_message_vote(&mut self, vote: &Vote<NID>) -> (r: Result<
        (),
        RejectVoteRequest<NID>,
    >)
        requires
            next_index(old(self).state@.last_log_id()) <= u64::MAX,
        ensures
            r == (if vote.precedes(old(self).state@.vote) {
                Err(RejectVoteRequest::ByVote(old(self).state@.vote))
            } else {
                Ok(())
            }),
            final(self)@ == (if vote.precedes(old(self).state@.vote) {
                old(self)@
            } else {
                old(self)@.saw_vote(*vote)
            }),
            *final(final(self).state) == *final(old(self).state),
            *final(final(self).output) == *final(old(self).output),
            *final(final(self).internal_server_state) == *final(old(self).internal_server_state),
    {
        if vote.is_before(&self.state.vote) {
            return Err(RejectVoteRequest::ByVote(self.state.vote));
        }
        if self.state.vote.is_before(vote) {
            self.state.vote = *vote;
            self.output.push_command(Command::SaveVote { vote: *vote });
        }
        self.update_internal_server_state();
        Ok(())
    }

    /// Leads if the vote is for this node, and follows otherwise.
    pub fn update_internal_server_state(&mut self)
        requires
            next_index(old(self).state@.last_log_id()) <= u64::MAX,
        ensures
            final(self)@ == old(self)@.took_side(),
            *final(final(self).state) == *final(old(self).state),
            *final(final(self).output) == *final(old(self).output),
            *final(final(self).internal_server_state) == *final(old(self).internal_server_state),
    {
        if self.state.is_leading(&self.config.id) {
            self.become_leading();
        } else {
            self.become_following();
        }
    }

    /// Leads: goes on if the vote is for the leadership that the node works for, and starts
    /// a candidacy otherwise.
    pub fn become_leading(&mut self)
        requires
            next_index(old(self).state@.last_log_id()) <= u64::MAX,
        ensures
            final(self)@ == old(self)@.became_leading(),
            *final(final(self).state) == *final(old(self).state),
            *final(final(self).output) == *final(old(self).output),
            *final(final(self).internal_server_state) == *final(old(self).internal_server_state),
    {
        let goes_on = match &*self.internal_server_state {
            InternalServerState::Leading(l) => {
                l.vote.leader_id().is_same(&self.state.vote.leader_id())
            },
            InternalServerState::Following => false,
        };
        if goes_on {
            match &mut *self.internal_server_state {
                InternalServerState::Leading(l) => {
                    l.vote = self.state.vote;
                },
                InternalServerState::Following => {},
            }
        } else {
            let last_log_id = self.state.last_log_id();
            let mut leader = Leader::new(
                self.state.vote,
                &self.state.membership_state.effective.membership,
                &last_log_id,
            );
            match leader.progress.get(&self.config.id) {
                Some(e) => {
                    leader.progress.set(
                        &self.config.id,
                        ProgressEntry { matching: last_log_id, ..e },
                    );
                },
                None => {},
            }
            *self.internal_server_state = InternalServerState::Leading(leader);
        }
        let mut h = ServerStateHandler {
            config: self.config,
            state: &mut *self.state,
            output: &mut *self.output,
        };
        h.update_server_state_if_changed();
    }

    /// Follows: waits for a while before it asks for votes itself.
    pub fn become_following(&mut self)
        ensures
            final(self)@ == old(self)@.became_following(),
            *final(final(self).state) == *final(old(self).state),
            *final(final(self).output) == *final(old(self).output),
            *final(final(self).internal_server_state) == *final(old(self).internal_server_state),
    {
        let can_be_leader = !self.state.vote.committed;
        self.output.push_command(Command::InstallElectionTimer { can_be_leader });
        if self.internal_server_state.is_following() {
            return;
        }
        *self.internal_server_state = InternalServerState::Following;
        let mut h = ServerStateHandler {
            config: self.config,
            state: &mut *self.state,
            output: &mut *self.output,
        };
        h.update_server_state_if_changed();
    }
}

} // verus!
