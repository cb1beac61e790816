//! The views that the operations of the engine are stated over.

use crate::command::{EngineOutput, OutputView};
use crate::config::EngineConfig;
use crate::leader::{InternalServerState, Leader, LeaderView};
use crate::node::{Node, NodeId};
use crate::raft_state::{RaftState, RaftStateView};
use vstd::prelude::*;

verus! {

/// The state of a node and what it has queued for the runtime.
#[verifier::ext_equal]
#[verifier::reject_recursive_types(NID)]
pub struct LocalView<NID, M> {
    pub state: RaftStateView<NID, M>,
    pub output: OutputView<NID, M>,
}

/// The same for a node that is candidate or leader, with what it knows about its peers.
#[verifier::ext_equal]
#[verifier::reject_recursive_types(NID)]
pub struct LeadingView<NID, M> {
    pub local: LocalView<NID, M>,
    pub leader: LeaderView<NID>,
}

/// All of an engine.
#[verifier::ext_equal]
#[verifier::reject_recursive_types(NID)]
pub struct EngineView<NID, M> {
    pub config: EngineConfig<NID>,
    pub local: LocalView<NID, M>,
    pub leader: Option<LeaderView<NID>>,
}

/// The view of a state and an output.
pub open spec fn local_view<NID: NodeId, N: Node>(
    state: RaftState<NID, N>,
    output: EngineOutput<NID, N>,
) -> LocalView<NID, N::V> {
    LocalView { state: state@, output: output@ }
}

/// The view of a state, an output and a leader.
pub open spec fn leading_view<NID: NodeId, N: Node>(
    state: RaftState<NID, N>,
    output: EngineOutput<NID, N>,
    leader: Leader<NID>,
) -> LeadingView<NID, N::V> {
    LeadingView { local: local_view(state, output), leader: leader@ }
}

/// The view of the parts of an engine.
pub open spec fn engine_view<NID: NodeId, N: Node>(
    config: EngineConfig<NID>,
    state: RaftState<NID, N>,
    output: EngineOutput<NID, N>,
    internal: InternalServerState<NID>,
) -> EngineView<NID, N::V> {
    EngineView { config, local: local_view(state, output), leader: internal@ }
}

} // verus!
