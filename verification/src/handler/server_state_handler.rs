//! Keeps track of the part that a node plays.

use crate::command::{Command, CommandView, EngineOutput};
use crate::config::EngineConfig;
use crate::node::{Node, NodeId};
use crate::raft_state::{RaftState, RaftStateView, ServerState};
use crate::view::{local_view, LocalView};
use vstd::prelude::*;

verus! {

impl<NID: NodeId, M> LocalView<NID, M> {
    /// The part that the node plays is brought up to date. If the node becomes leader, or
    /// is no longer, the runtime is told.
    pub open spec fn role_updated(self, id: NID) -> Self {
        let role = self.state.role_of(id);
        let was_leader = self.state.server_state == ServerState::Leader;
        let is_leader = role == ServerState::Leader;
        if role == self.state.server_state {
            self
        } else {
            LocalView {
                state: RaftStateView { server_state: role, ..self.state },
                output: if is_leader {
                    self.output.push(CommandView::BecomeLeader).cluster_changed()
                } else if was_leader {
                    self.output.push(CommandView::QuitLeader).cluster_changed()
                } else {
                    self.output.cluster_changed()
                },
            }
        }
    }
}

/// Keeps track of the part that a node plays.
pub struct ServerStateHandler<'x, NID: NodeId, N: Node> {
    pub config: &'x EngineConfig<NID>,
    pub state: &'x mut RaftState<NID, N>,
    pub output: &'x mut EngineOutput<NID, N>,
}

impl<'x, NID: NodeId, N: Node> ServerStateHandler<'x, NID, N> {
    /// The view of the borrowed fields.
    pub open spec fn view(&self) -> LocalView<NID, N::V> {
        local_view(*self.state, *self.output)
    }

    /// Brings the part that the node plays up to date, and tells the runtime if the node
    /// becomes leader or is no longer.
    pub fn update_server_state_if_changed(&mut self)
        ensures
            final(self)@ == old(self)@.role_updated(old(self).config.id),
            *final(self).config == *old(self).config,
            *final(final(self).state) == *final(old(self).state),
            *final(final(self).output) == *final(old(self).output),
    {
        let server_state = self.state.calc_server_state(&self.config.id);
        if self.state.server_state == server_state {
            return;
        }
        let was_leader = self.state.server_state == ServerState::Leader;
        let is_leader = server_state == ServerState::Leader;
        if !was_leader && is_leader {
            self.output.push_command(Command::BecomeLeader);
        } else if was_leader && !is_leader {
            self.output.push_command(Command::QuitLeader);
        }
        self.output.metrics_flags.set_cluster_changed();
        self.state.server_state = server_state;
    }
}

} // verus!
