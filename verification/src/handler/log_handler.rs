//! Purges the log.

use crate::command::{Command, CommandView, EngineOutput};
use crate::config::EngineConfig;
use crate::log_id::{id_at, index_after, next_index, opt_is_before, opt_precedes, LogId};
use crate::node::{Node, NodeId};
use crate::raft_state::{RaftState, RaftStateView};
use crate::view::{local_view, LocalView};
use vstd::prelude::*;

verus! {

impl<NID: NodeId, M> RaftStateView<NID, M> {
    /// The index up to which the entries need not be kept: they are in the snapshot, and not
    /// among its last ones, which are kept.
    pub open spec fn purgeable_end(self, config: EngineConfig<NID>) -> int {
        let end = next_index(self.snapshot.last_log_id) - config.max_in_snapshot_log_to_keep;
        if end > 0 {
            end
        } else {
            0
        }
    }

    /// The position up to which to purge, if there are enough entries to purge.
    pub open spec fn next_purge(self, config: EngineConfig<NID>) -> Option<LogId<NID>> {
        let end = self.purgeable_end(config);
        if end == 0 || next_index(self.last_purged()) + config.purge_batch_size > end {
            None
        } else {
            id_at(self.log, end - 1)
        }
    }

    /// The plan how far to purge is brought up to date.
    pub open spec fn purge_planned(self, config: EngineConfig<NID>) -> Self {
        match self.next_purge(config) {
            Some(p) => RaftStateView { purge_upto: Some(p), ..self },
            None => self,
        }
    }
}

impl<NID: NodeId, M> LocalView<NID, M> {
    /// The log is purged as far as planned.
    pub open spec fn purged(self) -> Self {
        match self.state.purge_upto {
            Some(p) if opt_precedes(self.state.last_purged(), Some(p)) => LocalView {
                state: self.state.purged(p),
                output: self.output.push(CommandView::PurgeLog { upto: p }),
            },
            _ => self,
        }
    }
}

/// Purges the log.
pub struct LogHandler<'x, NID: NodeId, N: Node> {
    pub config: &'x EngineConfig<NID>,
    pub state: &'x mut RaftState<NID, N>,
    pub output: &'x mut EngineOutput<NID, N>,
}

impl<'x, NID: NodeId, N: Node> LogHandler<'x, NID, N> {
    /// The view of the borrowed fields.
    pub open spec fn view(&self) -> LocalView<NID, N::V> {
        local_view(*self.state, *self.output)
    }

    /// Purges the log as far as planned.
    pub fn purge_log(&mut self)
        requires
            next_index(old(self)@.state.purge_upto) <= u64::MAX,
        ensures
            final(self)@ == old(self)@.purged(),
            *final(self).config == *old(self).config,
            *final(final(self).state) == *final(old(self).state),
            *final(final(self).output) == *final(old(self).output),
    {
        let last_purged = self.state.last_purged_log_id();
        if !opt_is_before(&last_purged, &self.state.purge_upto) {
            return;
        }
        match self.state.purge_upto {
            Some(upto) => {
                self.state.purge_log(&upto);
                self.output.push_command(Command::PurgeLog { upto });
            },
            None => {},
        }
    }

    /// Plans how far to purge, after a snapshot was made.
    pub fn update_purge_upto(&mut self)
        requires
            next_index(old(self)@.state.snapshot.last_log_id) <= u64::MAX,
            next_index(old(self)@.state.last_purged()) <= u64::MAX,
        ensures
            final(self)@ == (LocalView {
                state: old(self)@.state.purge_planned(*old(self).config),
                ..old(self)@
            }),
            *final(self).config == *old(self).config,
            *final(final(self).state) == *final(old(self).state),
            *final(final(self).output) == *final(old(self).output),
    {
        match self.calc_purge_upto() {
            Some(upto) => {
                self.state.purge_upto = Some(upto);
            },
            None => {},
        }
    }

    /// The position up to which to purge, if there are enough entries to purge.
    pub fn calc_purge_upto(&self) -> (r: Option<LogId<NID>>)
        requires
            next_index(self@.state.snapshot.last_log_id) <= u64::MAX,
            next_index(self@.state.last_purged()) <= u64::MAX,
        ensures
            r == self@.state.next_purge(*self.config),
    {
        let in_snapshot = index_after(&self.state.snapshot_meta.last_log_id);
        let keep = self.config.max_in_snapshot_log_to_keep;
        let purged = index_after(&self.state.last_purged_log_id());
        if in_snapshot <= keep {
            return None;
        }
        let end: u64 = in_snapshot - keep;
        if purged > end || self.config.purge_batch_size > end - purged {
            return None;
        }
        self.state.get_log_id(end - 1)
    }
}

} // verus!
