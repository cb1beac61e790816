//! How entries are appended by a leader and on the other nodes, and how they are committed.

use raft_engine::command::Command;
use raft_engine::config::EngineConfig;
use raft_engine::engine::Engine;
use raft_engine::entry::{Entry, EntryPayload};
use raft_engine::log_id::{LeaderId, LogId};
use raft_engine::membership::{EffectiveMembership, Membership};
use raft_engine::message::{AppendEntriesResponse, VoteResponse};
use raft_engine::node::BasicNode;
use raft_engine::node_set::NodeSet;
use raft_engine::progress::{Inflight, ProgressEntry};
use raft_engine::raft_state::{RaftState, ServerState};
use raft_engine::vote::Vote;

fn log_id(term: u64, node_id: u64, index: u64) -> LogId<u64> {
    LogId::new(LeaderId { term, node_id }, index)
}

fn members(ids: &[u64]) -> Membership<u64, BasicNode> {
    Membership::new(vec![NodeSet::from_ids(ids)])
}

fn new_node() -> Engine<u64, BasicNode> {
    let config = EngineConfig { id: 1, ..EngineConfig::default() };
    Engine::new(RaftState::default(), config)
}

fn normal(id: LogId<u64>) -> Entry<u64, BasicNode> {
    Entry { log_id: id, payload: EntryPayload::Normal(vec![1]) }
}

fn change(id: LogId<u64>, m: Membership<u64, BasicNode>) -> Entry<u64, BasicNode> {
    Entry { log_id: id, payload: EntryPayload::Membership(m) }
}

/// Node 1 as the leader of its cluster, with a log up to index 1.
fn leader_of(ids: &[u64]) -> Engine<u64, BasicNode> {
    let mut e = new_node();
    assert_eq!(Ok(()), e.initialize(&mut [change(log_id(0, 0, 0), members(ids))]));
    for id in ids {
        if *id != 1 && e.state.server_state != ServerState::Leader {
            let resp = VoteResponse { vote: Vote::new(1, 1), vote_granted: true, last_log_id: None };
            e.handle_vote_resp(*id, resp);
        }
    }
    assert_eq!(ServerState::Leader, e.state.server_state);
    e.output.commands.clear();
    e
}

#[test]
fn append_nothing() {
    let mut e = leader_of(&[1]);
    let before = e.clone();
    e.leader_append_entries::<Entry<u64, BasicNode>>(&mut []);
    assert_eq!(before, e);
    let mut f = new_node();
    let before = f.clone();
    f.leader_append_entries::<Entry<u64, BasicNode>>(&mut []);
    assert_eq!(before, f);
}

#[test]
fn sole_voter_commits_at_once() {
    let mut e = leader_of(&[1]);
    let mut entries = [normal(log_id(0, 0, 0)), normal(log_id(0, 0, 0))];
    e.leader_append_entries(&mut entries);
    assert_eq!(log_id(1, 1, 2), entries[0].log_id);
    assert_eq!(log_id(1, 1, 3), entries[1].log_id);
    assert_eq!(Some(log_id(1, 1, 3)), e.state.committed);
    assert_eq!(Some(log_id(1, 1, 3)), e.state.last_log_id());
    assert_eq!(
        vec![
            Command::AppendInputEntries { range: 0..2 },
            Command::ReplicateCommitted { committed: Some(log_id(1, 1, 3)) },
            Command::LeaderCommit {
                already_committed: Some(log_id(1, 1, 1)),
                upto: log_id(1, 1, 3),
            },
            Command::MoveInputCursorBy { n: 2 },
        ],
        e.output.commands
    );
}

#[test]
fn leader_of_several_does_not_commit_alone() {
    let mut e = leader_of(&[1, 2, 3]);
    e.leader_append_entries(&mut [normal(log_id(0, 0, 0))]);
    assert_eq!(None, e.state.committed);
    // Both other nodes are still being sent the first entries.
    assert_eq!(
        vec![
            Command::AppendInputEntries { range: 0..1 },
            Command::MoveInputCursorBy { n: 1 },
        ],
        e.output.commands
    );
}

#[test]
fn cluster_grows_in_the_middle() {
    // Entry 4 adds voters 2 and 3, so that only the entries before it are committed.
    let mut e = leader_of(&[1]);
    let mut entries = [
        normal(log_id(0, 0, 0)),
        normal(log_id(0, 0, 0)),
        change(log_id(0, 0, 0), members(&[1, 2, 3])),
        normal(log_id(0, 0, 0)),
        normal(log_id(0, 0, 0)),
    ];
    e.leader_append_entries(&mut entries);
    assert_eq!(Some(log_id(1, 1, 3)), e.state.committed);
    let req = Inflight::Logs { prev_log_id: None, last_log_id: Some(log_id(1, 1, 6)) };
    assert_eq!(
        vec![
            Command::AppendInputEntries { range: 0..5 },
            Command::ReplicateCommitted { committed: Some(log_id(1, 1, 3)) },
            Command::LeaderCommit {
                already_committed: Some(log_id(1, 1, 1)),
                upto: log_id(1, 1, 3),
            },
            Command::UpdateMembership {
                membership: EffectiveMembership::new(
                    Some(log_id(1, 1, 4)),
                    members(&[1, 2, 3])
                ),
            },
            Command::RebuildReplicationStreams {
                targets: vec![(2, ProgressEntry::empty(7)), (3, ProgressEntry::empty(7))],
            },
            Command::Replicate { target: 2, req },
            Command::Replicate { target: 3, req },
            Command::MoveInputCursorBy { n: 5 },
        ],
        e.output.commands
    );
    assert_eq!(
        EffectiveMembership::new(Some(log_id(0, 0, 0)), members(&[1])),
        e.state.membership_state.committed
    );
}

#[test]
fn cluster_shrinks_in_the_middle() {
    // Entry 4 leaves only voter 1, so that everything is committed.
    let mut e = leader_of(&[1, 2, 3]);
    let mut entries = [
        normal(log_id(0, 0, 0)),
        normal(log_id(0, 0, 0)),
        change(log_id(0, 0, 0), members(&[1])),
        normal(log_id(0, 0, 0)),
        normal(log_id(0, 0, 0)),
    ];
    e.leader_append_entries(&mut entries);
    assert_eq!(Some(log_id(1, 1, 6)), e.state.committed);
    assert_eq!(
        vec![
            Command::AppendInputEntries { range: 0..5 },
            Command::UpdateMembership {
                membership: EffectiveMembership::new(Some(log_id(1, 1, 4)), members(&[1])),
            },
            Command::RebuildReplicationStreams { targets: vec![] },
            Command::ReplicateCommitted { committed: Some(log_id(1, 1, 6)) },
            Command::LeaderCommit { already_committed: None, upto: log_id(1, 1, 6) },
            Command::MoveInputCursorBy { n: 5 },
        ],
        e.output.commands
    );
    assert_eq!(
        EffectiveMembership::new(Some(log_id(1, 1, 4)), members(&[1])),
        e.state.membership_state.committed
    );
}

#[test]
fn entries_are_sent_in_bounded_requests() {
    let mut e = leader_of(&[1]);
    e.config.max_payload_entries = 3;
    e.leader_append_entries(&mut [
        change(log_id(0, 0, 0), members(&[1, 2])),
        normal(log_id(0, 0, 0)),
        normal(log_id(0, 0, 0)),
    ]);
    let req = Inflight::Logs { prev_log_id: None, last_log_id: Some(log_id(1, 1, 2)) };
    assert!(e.output.commands.contains(&Command::Replicate { target: 2, req }));
}

/// Node 1 as a follower of node 2, with entries 0, 1 and 2 and nothing queued.
fn follower() -> Engine<u64, BasicNode> {
    let mut e = new_node();
    let entries = [
        change(log_id(1, 2, 0), members(&[1, 2])),
        normal(log_id(1, 2, 1)),
        normal(log_id(1, 2, 2)),
    ];
    let r = e.handle_append_entries_req(&Vote::new_committed(1, 2), None, &entries, None);
    assert_eq!(AppendEntriesResponse::Success, r);
    assert_eq!(
        vec![
            Command::SaveVote { vote: Vote::new_committed(1, 2) },
            Command::InstallElectionTimer { can_be_leader: false },
            Command::AppendInputEntries { range: 0..3 },
            Command::UpdateMembership {
                membership: EffectiveMembership::new(Some(log_id(1, 2, 0)), members(&[1, 2])),
            },
            Command::MoveInputCursorBy { n: 3 },
        ],
        e.output.commands
    );
    assert_eq!(ServerState::Follower, e.state.server_state);
    assert_eq!(Some(log_id(1, 2, 2)), e.state.last_log_id());
    e.output.commands.clear();
    e
}

#[test]
fn append_request_with_lesser_vote() {
    let mut e = follower();
    let before = e.clone();
    let r = e.handle_append_entries_req(
        &Vote::new_committed(0, 9),
        Some(log_id(1, 2, 2)),
        &[normal(log_id(1, 2, 3))],
        Some(log_id(1, 2, 3)),
    );
    assert_eq!(AppendEntriesResponse::HigherVote(Vote::new_committed(1, 2)), r);
    assert_eq!(before, e);
}

#[test]
fn append_request_beyond_the_log() {
    let mut e = follower();
    let r = e.handle_append_entries_req(
        &Vote::new_committed(1, 2),
        Some(log_id(1, 2, 4)),
        &[normal(log_id(1, 2, 5))],
        None,
    );
    assert_eq!(AppendEntriesResponse::Conflict, r);
    assert_eq!(Some(log_id(1, 2, 2)), e.state.last_log_id());
    assert_eq!(
        vec![Command::InstallElectionTimer { can_be_leader: false }],
        e.output.commands
    );
}

#[test]
fn append_request_with_conflict() {
    let mut e = follower();
    let r = e.handle_append_entries_req(
        &Vote::new_committed(3, 3),
        Some(log_id(2, 3, 1)),
        &[normal(log_id(3, 3, 2))],
        None,
    );
    assert_eq!(AppendEntriesResponse::Conflict, r);
    assert_eq!(Some(log_id(1, 2, 0)), e.state.last_log_id());
    assert_eq!(
        vec![
            Command::SaveVote { vote: Vote::new_committed(3, 3) },
            Command::InstallElectionTimer { can_be_leader: false },
            Command::DeleteConflictLog { since: log_id(1, 2, 1) },
        ],
        e.output.commands
    );
}

#[test]
fn conflict_takes_membership_back() {
    let mut e = follower();
    let r = e.handle_append_entries_req(
        &Vote::new_committed(1, 2),
        Some(log_id(1, 2, 2)),
        &[change(log_id(1, 2, 3), members(&[2])), normal(log_id(1, 2, 4))],
        None,
    );
    assert_eq!(AppendEntriesResponse::Success, r);
    assert_eq!(ServerState::Learner, e.state.server_state);
    e.output.commands.clear();

    let r = e.handle_append_entries_req::<Entry<u64, BasicNode>>(
        &Vote::new_committed(2, 3),
        Some(log_id(2, 3, 3)),
        &[],
        None,
    );
    assert_eq!(AppendEntriesResponse::Conflict, r);
    assert_eq!(ServerState::Follower, e.state.server_state);
    assert_eq!(
        vec![
            Command::SaveVote { vote: Vote::new_committed(2, 3) },
            Command::InstallElectionTimer { can_be_leader: false },
            Command::DeleteConflictLog { since: log_id(1, 2, 3) },
            Command::UpdateMembership {
                membership: EffectiveMembership::new(Some(log_id(1, 2, 0)), members(&[1, 2])),
            },
        ],
        e.output.commands
    );
}

#[test]
fn append_request_replaces_conflicting_entries() {
    let mut e = follower();
    let entries = [normal(log_id(1, 2, 1)), normal(log_id(2, 3, 2)), normal(log_id(3, 3, 3))];
    let r = e.handle_append_entries_req(
        &Vote::new_committed(3, 3),
        Some(log_id(1, 2, 0)),
        &entries,
        Some(log_id(2, 3, 2)),
    );
    assert_eq!(AppendEntriesResponse::Success, r);
    assert_eq!(Some(log_id(1, 2, 1)), e.state.get_log_id(1));
    assert_eq!(Some(log_id(2, 3, 2)), e.state.get_log_id(2));
    assert_eq!(Some(log_id(3, 3, 3)), e.state.last_log_id());
    assert_eq!(Some(log_id(2, 3, 2)), e.state.committed);
    assert_eq!(
        vec![
            Command::SaveVote { vote: Vote::new_committed(3, 3) },
            Command::InstallElectionTimer { can_be_leader: false },
            Command::DeleteConflictLog { since: log_id(1, 2, 2) },
            Command::AppendInputEntries { range: 1..3 },
            Command::MoveInputCursorBy { n: 3 },
            Command::FollowerCommit { already_committed: None, upto: log_id(2, 3, 2) },
        ],
        e.output.commands
    );
}

#[test]
fn append_request_commits_no_more_than_it_shows() {
    let mut e = follower();
    let r = e.handle_append_entries_req::<Entry<u64, BasicNode>>(
        &Vote::new_committed(1, 2),
        Some(log_id(1, 2, 1)),
        &[],
        Some(log_id(1, 2, 7)),
    );
    assert_eq!(AppendEntriesResponse::Success, r);
    assert_eq!(Some(log_id(1, 2, 1)), e.state.committed);
    assert_eq!(Some(log_id(1, 2, 2)), e.state.last_log_id());
    assert_eq!(
        vec![
            Command::InstallElectionTimer { can_be_leader: false },
            Command::FollowerCommit { already_committed: None, upto: log_id(1, 2, 1) },
        ],
        e.output.commands
    );
}

#[test]
fn resent_append_request_changes_nothing() {
    let mut e = follower();
    let entries = [normal(log_id(1, 2, 2)), normal(log_id(1, 2, 3))];
    let committed = Some(log_id(1, 2, 3));
    let vote = Vote::new_committed(1, 2);
    let prev = Some(log_id(1, 2, 1));
    assert_eq!(
        AppendEntriesResponse::Success,
        e.handle_append_entries_req(&vote, prev, &entries, committed)
    );
    let mut before = e.clone();
    assert_eq!(
        AppendEntriesResponse::Success,
        e.handle_append_entries_req(&vote, prev, &entries, committed)
    );
    before.output.push_command(Command::InstallElectionTimer { can_be_leader: false });
    assert_eq!(before, e);
}

#[test]
fn follower_takes_the_last_two_memberships() {
    let mut e = follower();
    let entries = [
        change(log_id(1, 2, 3), members(&[1, 2, 3])),
        normal(log_id(1, 2, 4)),
        change(log_id(1, 2, 5), members(&[1, 3])),
    ];
    let r = e.handle_append_entries_req(
        &Vote::new_committed(1, 2),
        Some(log_id(1, 2, 2)),
        &entries,
        None,
    );
    assert_eq!(AppendEntriesResponse::Success, r);
    assert_eq!(
        EffectiveMembership::new(Some(log_id(1, 2, 3)), members(&[1, 2, 3])),
        e.state.membership_state.committed
    );
    assert_eq!(
        EffectiveMembership::new(Some(log_id(1, 2, 5)), members(&[1, 3])),
        e.state.membership_state.effective
    );
}

#[test]
fn append_request_ends_candidacy() {
    let mut e = follower();
    e.elect();
    assert_eq!(ServerState::Candidate, e.state.server_state);
    let r = e.handle_append_entries_req::<Entry<u64, BasicNode>>(
        &Vote::new_committed(2, 2),
        Some(log_id(1, 2, 2)),
        &[],
        None,
    );
    assert_eq!(AppendEntriesResponse::Success, r);
    assert!(e.internal_server_state.is_following());
    assert_eq!(ServerState::Follower, e.state.server_state);
}

#[test]
fn leader_stays_until_membership_is_committed() {
    let mut e = leader_of(&[1]);
    e.leader_append_entries(&mut [change(log_id(0, 0, 0), members(&[2, 3]))]);
    let before = e.clone();
    e.leader_step_down();
    assert_eq!(before, e);

    e.state.committed = Some(log_id(1, 1, 2));
    e.output.commands.clear();
    e.leader_step_down();
    assert!(e.internal_server_state.is_following());
    assert_eq!(ServerState::Learner, e.state.server_state);
    assert_eq!(
        vec![Command::InstallElectionTimer { can_be_leader: false }, Command::QuitLeader],
        e.output.commands
    );
}

#[test]
fn voters_and_followers_do_not_step_down() {
    let mut e = leader_of(&[1]);
    let before = e.clone();
    e.leader_step_down();
    assert_eq!(before, e);
    let mut f = follower();
    let before = f.clone();
    f.leader_step_down();
    assert_eq!(before, f);
}

#[test]
fn committed_entries_of_a_history() {
    let mut e = leader_of(&[1]);
    let mut votes = vec![e.state.vote];
    let mut committed = vec![e.state.committed.unwrap()];
    e.leader_append_entries(&mut [normal(log_id(0, 0, 0))]);
    votes.push(e.state.vote);
    committed.push(e.state.committed.unwrap());
    e.elect();
    votes.push(e.state.vote);
    committed.push(e.state.committed.unwrap());
    let entries = [normal(log_id(4, 2, 4)), normal(log_id(4, 2, 5))];
    let r = e.handle_append_entries_req(
        &Vote::new_committed(4, 2),
        Some(log_id(2, 1, 3)),
        &entries,
        Some(log_id(4, 2, 4)),
    );
    assert_eq!(AppendEntriesResponse::Success, r);
    votes.push(e.state.vote);
    committed.push(e.state.committed.unwrap());
    for i in 1..votes.len() {
        assert!(!votes[i].is_before(&votes[i - 1]));
        assert!(committed[i - 1].is_before(&committed[i]));
        assert!(e.state.has_log_id(&committed[i - 1]));
    }
}
