//! Keeps track of the last snapshot.

use crate::command::EngineOutput;
use crate::log_id::{opt_is_before, opt_precedes};
use crate::node::{Node, NodeId};
use crate::raft_state::{RaftState, RaftStateView, SnapshotMeta, SnapshotView};
use crate::view::{local_view, LocalView};
use vstd::prelude::*;

verus! {

impl<NID: NodeId, M> LocalView<NID, M> {
    /// The snapshot covers more than the last one.
    pub open spec fn is_newer_snapshot(self, meta: SnapshotView<NID, M>) -> bool {
        opt_precedes(self.state.snapshot.last_log_id, meta.last_log_id)
    }

    /// A snapshot was made. It replaces the last one if it covers more.
    pub open spec fn snapshot_updated(self, meta: SnapshotView<NID, M>) -> Self {
        if self.is_newer_snapshot(meta) {
            LocalView {
                state: RaftStateView { snapshot: meta, ..self.state },
                output: self.output.data_changed(),
            }
        } else {
            self
        }
    }
}

/// Keeps track of the last snapshot.
pub struct SnapshotHandler<'x, NID: NodeId, N: Node> {
    pub state: &'x mut RaftState<NID, N>,
    pub output: &'x mut EngineOutput<NID, N>,
}

impl<'x, NID: NodeId, N: Node> SnapshotHandler<'x, NID, N> {
    /// The view of the borrowed fields.
    pub open spec fn view(&self) -> LocalView<NID, N::V> {
        local_view(*self.state, *self.output)
    }

    /// Takes note of a snapshot. Returns whether it replaces the last one.
    pub fn update_snapshot(&mut self, meta: SnapshotMeta<NID, N>) -> (r: bool)
        ensures
            r == old(self)@.is_newer_snapshot(meta@),
            final(self)@ == old(self)@.snapshot_updated(meta@),
            *final(final(self).state) == *final(old(self).state),
            *final(final(self).output) == *final(old(self).output),
    {
        if !opt_is_before(&self.state.snapshot_meta.last_log_id, &meta.last_log_id) {
            return false;
        }
        self.state.snapshot_meta = meta;
        self.output.metrics_flags.set_data_changed();
        true
    }
}

} // verus!
