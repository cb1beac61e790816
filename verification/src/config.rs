//! The configuration of an engine.

use crate::node::NodeId;
use vstd::prelude::*;

verus! {

/// The configuration of an engine.
#[derive(Clone, Copy, Debug, PartialEq, Eq)]
pub struct EngineConfig<NID> {
    /// The id of this node.
    pub id: NID,
    /// The number of entries that are in a snapshot and yet kept in the log.
    pub max_in_snapshot_log_to_keep: u64,
    /// The least number of entries to purge at a time.
    pub purge_batch_size: u64,
    /// The greatest number of entries to send to a node at a time.
    pub max_payload_entries: u64,
}

impl<NID: NodeId> Default for EngineConfig<NID> {
    fn default() -> (r: Self)
        ensures
            r.id == NID::default_spec(),
            r.max_in_snapshot_log_to_keep == 1000,
            r.purge_batch_size == 256,
            r.max_payload_entries == 300,
    {
        EngineConfig {
            id: NID::default_id(),
            max_in_snapshot_log_to_keep: 1000,
            purge_batch_size: 256,
            max_payload_entries: 300,
        }
    }
}

} // verus!
