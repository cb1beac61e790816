//! How the log is purged after a snapshot.

use raft_engine::command::Command;
use raft_engine::config::EngineConfig;
use raft_engine::engine::Engine;
use raft_engine::log_id::{LeaderId, LogId};
use raft_engine::log_id_list::LogIdList;
use raft_engine::membership::{EffectiveMembership, Membership};
use raft_engine::node::BasicNode;
use raft_engine::node_set::NodeSet;
use raft_engine::raft_state::{RaftState, ServerState, SnapshotMeta};
use raft_engine::vote::Vote;

fn log_id(term: u64, node_id: u64, index: u64) -> LogId<u64> {
    LogId::new(LeaderId { term, node_id }, index)
}

fn members(ids: &[u64]) -> Membership<u64, BasicNode> {
    Membership::new(vec![NodeSet::from_ids(ids)])
}

fn snapshot(last_log_id: Option<LogId<u64>>) -> SnapshotMeta<u64, BasicNode> {
    SnapshotMeta {
        last_log_id,
        last_membership: EffectiveMembership::new(Some(log_id(1, 2, 0)), members(&[1, 2])),
        snapshot_id: String::from("s"),
    }
}

/// Node 1 with entries 0 to 9, all committed, that keeps two entries of a snapshot.
fn node_with(vote: Vote<u64>, ids: &[u64], purge_batch_size: u64) -> Engine<u64, BasicNode> {
    let config = EngineConfig {
        id: 1,
        max_in_snapshot_log_to_keep: 2,
        purge_batch_size,
        ..EngineConfig::default()
    };
    let mut state = RaftState::default();
    state.vote = vote;
    state.log_ids = LogIdList::new(vec![log_id(1, 2, 0), log_id(1, 2, 9)]);
    state.committed = Some(log_id(1, 2, 9));
    state.membership_state.effective =
        EffectiveMembership::new(Some(log_id(1, 2, 0)), members(ids));
    state.server_state = ServerState::Follower;
    Engine::new(state, config)
}

#[test]
fn follower_purges() {
    let mut e = node_with(Vote::new_committed(1, 2), &[1, 2], 1);
    e.finish_building_snapshot(snapshot(Some(log_id(1, 2, 7))));
    assert_eq!(snapshot(Some(log_id(1, 2, 7))), e.state.snapshot_meta);
    assert_eq!(Some(log_id(1, 2, 5)), e.state.purge_upto);
    assert_eq!(Some(log_id(1, 2, 5)), e.state.last_purged_log_id());
    assert_eq!(None, e.state.get_log_id(4));
    assert_eq!(Some(log_id(1, 2, 6)), e.state.get_log_id(6));
    assert_eq!(Some(log_id(1, 2, 9)), e.state.last_log_id());
    assert_eq!(vec![Command::PurgeLog { upto: log_id(1, 2, 5) }], e.output.commands);
    assert!(e.output.metrics_flags.local_data);
    assert!(!e.output.metrics_flags.cluster);
}

#[test]
fn purges_go_on_from_the_last_one() {
    let mut e = node_with(Vote::new_committed(1, 2), &[1, 2], 2);
    e.finish_building_snapshot(snapshot(Some(log_id(1, 2, 5))));
    assert_eq!(Some(log_id(1, 2, 3)), e.state.last_purged_log_id());
    e.finish_building_snapshot(snapshot(Some(log_id(1, 2, 6))));
    assert_eq!(Some(log_id(1, 2, 3)), e.state.last_purged_log_id());
    e.finish_building_snapshot(snapshot(Some(log_id(1, 2, 7))));
    assert_eq!(Some(log_id(1, 2, 5)), e.state.last_purged_log_id());
    assert_eq!(
        vec![
            Command::PurgeLog { upto: log_id(1, 2, 3) },
            Command::PurgeLog { upto: log_id(1, 2, 5) },
        ],
        e.output.commands
    );
}

#[test]
fn batch_is_not_full() {
    let mut e = node_with(Vote::new_committed(1, 2), &[1, 2], 7);
    e.finish_building_snapshot(snapshot(Some(log_id(1, 2, 7))));
    assert_eq!(None, e.state.purge_upto);
    assert_eq!(None, e.state.last_purged_log_id());
    assert!(e.output.commands.is_empty());
    assert!(e.output.metrics_flags.local_data);
}

#[test]
fn short_snapshot_is_kept_whole() {
    let mut e = node_with(Vote::new_committed(1, 2), &[1, 2], 0);
    e.finish_building_snapshot(snapshot(Some(log_id(1, 2, 1))));
    assert_eq!(None, e.state.last_purged_log_id());
    assert!(e.output.commands.is_empty());
}

#[test]
fn old_snapshot_is_ignored() {
    let mut e = node_with(Vote::new_committed(1, 2), &[1, 2], 1);
    e.finish_building_snapshot(snapshot(Some(log_id(1, 2, 7))));
    let before = e.clone();
    for last in [None, Some(log_id(1, 2, 6)), Some(log_id(1, 2, 7))] {
        e.finish_building_snapshot(snapshot(last));
        assert_eq!(before, e);
    }
}

#[test]
fn leader_keeps_entries_in_use() {
    let mut e = node_with(Vote::new_committed(2, 1), &[1, 2], 1);
    e.startup();
    e.output.commands.clear();
    e.finish_building_snapshot(snapshot(Some(log_id(1, 2, 7))));
    assert_eq!(Some(log_id(1, 2, 5)), e.state.purge_upto);
    assert_eq!(None, e.state.last_purged_log_id());
    assert_eq!(Some(log_id(1, 2, 0)), e.state.get_log_id(0));
    assert!(e.output.commands.is_empty());
}

#[test]
fn leader_without_replication_purges() {
    let mut e = node_with(Vote::new_committed(2, 1), &[1], 1);
    e.startup();
    e.output.commands.clear();
    e.finish_building_snapshot(snapshot(Some(log_id(1, 2, 7))));
    assert_eq!(Some(log_id(1, 2, 5)), e.state.last_purged_log_id());
    assert_eq!(vec![Command::PurgeLog { upto: log_id(1, 2, 5) }], e.output.commands);
}
