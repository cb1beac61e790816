//! How votes are requested, granted, refused and counted.

use raft_engine::command::Command;
use raft_engine::config::EngineConfig;
use raft_engine::engine::Engine;
use raft_engine::entry::Entry;
use raft_engine::log_id::{LeaderId, LogId};
use raft_engine::log_id_list::LogIdList;
use raft_engine::membership::{EffectiveMembership, Membership};
use raft_engine::message::{AppendEntriesResponse, VoteRequest, VoteResponse};
use raft_engine::node::BasicNode;
use raft_engine::node_set::NodeSet;
use raft_engine::progress::{Inflight, ProgressEntry};
use raft_engine::raft_state::{RaftState, ServerState};
use raft_engine::vote::Vote;

fn log_id(term: u64, node_id: u64, index: u64) -> LogId<u64> {
    LogId::new(LeaderId { term, node_id }, index)
}

fn members(ids: &[u64]) -> Membership<u64, BasicNode> {
    Membership::new(vec![NodeSet::from_ids(ids)])
}

/// Node 1, with entries up to index 2 of leader 2 in term 1.
fn node_of(m: Membership<u64, BasicNode>) -> Engine<u64, BasicNode> {
    let config = EngineConfig { id: 1, ..EngineConfig::default() };
    let mut state = RaftState::default();
    state.vote = Vote::new_committed(1, 2);
    state.log_ids = LogIdList::new(vec![log_id(1, 2, 0), log_id(1, 2, 2)]);
    state.membership_state.effective = EffectiveMembership::new(Some(log_id(1, 2, 0)), m);
    state.server_state = ServerState::Follower;
    Engine::new(state, config)
}

#[test]
fn elect_sole_voter_takes_office_at_once() {
    let mut e = node_of(members(&[1]));
    e.elect();
    let blank = log_id(2, 1, 3);
    assert_eq!(Vote::new_committed(2, 1), e.state.vote);
    assert_eq!(ServerState::Leader, e.state.server_state);
    assert_eq!(Some(blank), e.state.last_log_id());
    assert_eq!(Some(blank), e.state.committed);
    assert_eq!(
        vec![
            Command::SaveVote { vote: Vote::new(2, 1) },
            Command::SaveVote { vote: Vote::new_committed(2, 1) },
            Command::BecomeLeader,
            Command::RebuildReplicationStreams { targets: vec![] },
            Command::AppendBlankLog { log_id: blank },
            Command::ReplicateCommitted { committed: Some(blank) },
            Command::LeaderCommit { already_committed: None, upto: blank },
        ],
        e.output.commands
    );
}

#[test]
fn elect_sole_voter_with_learner() {
    let mut m = members(&[1]);
    m.add_node(5, BasicNode { addr: String::from("five") });
    let mut e = node_of(m);
    e.elect();
    let blank = log_id(2, 1, 3);
    let req = Inflight::Logs { prev_log_id: None, last_log_id: Some(blank) };
    assert_eq!(
        vec![
            Command::RebuildReplicationStreams { targets: vec![(5, ProgressEntry::empty(3))] },
            Command::AppendBlankLog { log_id: blank },
            Command::ReplicateCommitted { committed: Some(blank) },
            Command::LeaderCommit { already_committed: None, upto: blank },
            Command::Replicate { target: 5, req },
        ],
        e.output.commands.split_off(3)
    );
}

#[test]
fn elect_asks_for_votes() {
    let mut e = node_of(members(&[1, 2, 3]));
    e.elect();
    assert_eq!(Vote::new(2, 1), e.state.vote);
    assert_eq!(ServerState::Candidate, e.state.server_state);
    assert_eq!(None, e.state.committed);
    assert_eq!(
        vec![
            Command::SaveVote { vote: Vote::new(2, 1) },
            Command::SendVote {
                vote_req: VoteRequest {
                    vote: Vote::new(2, 1),
                    last_log_id: Some(log_id(1, 2, 2)),
                },
            },
            Command::InstallElectionTimer { can_be_leader: true },
        ],
        e.output.commands
    );
    e.elect();
    assert_eq!(Vote::new(3, 1), e.state.vote);
}

#[test]
fn vote_request_granted() {
    let mut e = node_of(members(&[1, 2, 3]));
    let req = VoteRequest { vote: Vote::new(2, 3), last_log_id: Some(log_id(1, 2, 2)) };
    assert_eq!(
        VoteResponse {
            vote: Vote::new(2, 3),
            vote_granted: true,
            last_log_id: Some(log_id(1, 2, 2)),
        },
        e.handle_vote_req(req)
    );
    assert_eq!(Vote::new(2, 3), e.state.vote);
    assert_eq!(
        vec![
            Command::SaveVote { vote: Vote::new(2, 3) },
            Command::InstallElectionTimer { can_be_leader: true },
        ],
        e.output.commands
    );
}

#[test]
fn vote_request_refused_by_vote() {
    let mut e = node_of(members(&[1, 2, 3]));
    let before = e.clone();
    // The vote of a leader is greater than that of a candidate in the same term.
    let req = VoteRequest { vote: Vote::new(1, 2), last_log_id: Some(log_id(4, 2, 9)) };
    assert_eq!(
        VoteResponse {
            vote: Vote::new_committed(1, 2),
            vote_granted: false,
            last_log_id: Some(log_id(1, 2, 2)),
        },
        e.handle_vote_req(req)
    );
    assert_eq!(before, e);
}

#[test]
fn vote_request_refused_by_log() {
    let mut e = node_of(members(&[1, 2, 3]));
    let before = e.clone();
    for last_log_id in [None, Some(log_id(1, 2, 1)), Some(log_id(0, 9, 8))] {
        let req = VoteRequest { vote: Vote::new(7, 3), last_log_id };
        assert_eq!(
            VoteResponse {
                vote: Vote::new_committed(1, 2),
                vote_granted: false,
                last_log_id: Some(log_id(1, 2, 2)),
            },
            e.handle_vote_req(req)
        );
        assert_eq!(before, e);
    }
}

#[test]
fn granted_vote_binds() {
    let mut e = node_of(members(&[1, 2, 3]));
    let last_log_id = Some(log_id(1, 2, 2));
    assert!(e.handle_vote_req(VoteRequest { vote: Vote::new(5, 3), last_log_id }).vote_granted);
    assert!(!e.handle_vote_req(VoteRequest { vote: Vote::new(5, 2), last_log_id }).vote_granted);
    assert!(!e.handle_vote_req(VoteRequest { vote: Vote::new(4, 3), last_log_id }).vote_granted);
    assert_eq!(
        AppendEntriesResponse::HigherVote(Vote::new(5, 3)),
        e.handle_append_entries_req::<Entry<u64, BasicNode>>(
            &Vote::new_committed(4, 2),
            None,
            &[],
            None
        )
    );
    assert!(e.handle_vote_req(VoteRequest { vote: Vote::new(5, 3), last_log_id }).vote_granted);
    assert!(e.handle_vote_req(VoteRequest { vote: Vote::new(6, 2), last_log_id }).vote_granted);
    assert_eq!(Vote::new(6, 2), e.state.vote);
}

#[test]
fn vote_request_ends_leadership() {
    let mut e = node_of(members(&[1]));
    e.elect();
    e.output.commands.clear();
    let req = VoteRequest { vote: Vote::new(3, 2), last_log_id: Some(log_id(2, 1, 3)) };
    assert!(e.handle_vote_req(req).vote_granted);
    assert!(e.internal_server_state.is_following());
    assert_eq!(ServerState::Follower, e.state.server_state);
    assert_eq!(
        vec![
            Command::SaveVote { vote: Vote::new(3, 2) },
            Command::InstallElectionTimer { can_be_leader: true },
            Command::QuitLeader,
        ],
        e.output.commands
    );
}

#[test]
fn vote_responses_make_leader() {
    let mut e = node_of(members(&[1, 2, 3, 4, 5]));
    e.elect();
    let resp = VoteResponse {
        vote: Vote::new(2, 1),
        vote_granted: true,
        last_log_id: Some(log_id(1, 2, 2)),
    };
    e.output.commands.clear();
    e.handle_vote_resp(2, resp);
    e.handle_vote_resp(2, resp);
    assert!(e.output.commands.is_empty());
    assert_eq!(ServerState::Candidate, e.state.server_state);

    e.handle_vote_resp(4, resp);
    let blank = log_id(2, 1, 3);
    assert_eq!(Vote::new_committed(2, 1), e.state.vote);
    assert_eq!(ServerState::Leader, e.state.server_state);
    assert_eq!(Some(blank), e.state.last_log_id());
    assert_eq!(None, e.state.committed);
    let targets = [2, 3, 4, 5].iter().map(|id| (*id, ProgressEntry::empty(3))).collect();
    let req = Inflight::Logs { prev_log_id: None, last_log_id: Some(blank) };
    assert_eq!(
        vec![
            Command::SaveVote { vote: Vote::new_committed(2, 1) },
            Command::BecomeLeader,
            Command::RebuildReplicationStreams { targets },
            Command::AppendBlankLog { log_id: blank },
            Command::Replicate { target: 2, req },
            Command::Replicate { target: 3, req },
            Command::Replicate { target: 4, req },
            Command::Replicate { target: 5, req },
        ],
        e.output.commands
    );
}

#[test]
fn votes_are_needed_from_both_configurations() {
    let joint = Membership::new(vec![NodeSet::from_ids(&[1, 2, 3]), NodeSet::from_ids(&[4, 5])]);
    let mut e = node_of(joint);
    e.elect();
    let resp = VoteResponse { vote: Vote::new(2, 1), vote_granted: true, last_log_id: None };
    e.handle_vote_resp(2, resp);
    e.handle_vote_resp(3, resp);
    e.handle_vote_resp(4, resp);
    assert_eq!(ServerState::Candidate, e.state.server_state);
    e.handle_vote_resp(5, resp);
    assert_eq!(ServerState::Leader, e.state.server_state);
}

#[test]
fn late_vote_response_is_ignored() {
    let mut e = node_of(members(&[1, 2, 3]));
    let before = e.clone();
    for vote_granted in [true, false] {
        let resp = VoteResponse {
            vote: Vote::new(9, 1),
            vote_granted,
            last_log_id: Some(log_id(8, 2, 9)),
        };
        e.handle_vote_resp(2, resp);
        assert_eq!(before, e);
    }
}

#[test]
fn vote_refused_by_greater_vote_and_longer_log() {
    let mut e = node_of(members(&[1, 2, 3]));
    e.elect();
    e.output.commands.clear();
    let resp = VoteResponse {
        vote: Vote::new(4, 2),
        vote_granted: false,
        last_log_id: Some(log_id(1, 2, 3)),
    };
    e.handle_vote_resp(2, resp);
    assert_eq!(Vote::new(4, 2), e.state.vote);
    assert!(e.internal_server_state.is_leading());
    assert_eq!(ServerState::Candidate, e.state.server_state);
    assert_eq!(
        vec![
            Command::SaveVote { vote: Vote::new(4, 2) },
            Command::InstallElectionTimer { can_be_leader: false },
        ],
        e.output.commands
    );
}

#[test]
fn vote_refused_by_lesser_vote() {
    let mut e = node_of(members(&[1, 2, 3]));
    e.elect();
    e.output.commands.clear();
    let resp = VoteResponse {
        vote: Vote::new_committed(1, 2),
        vote_granted: false,
        last_log_id: Some(log_id(1, 2, 2)),
    };
    e.handle_vote_resp(2, resp);
    assert_eq!(Vote::new(2, 1), e.state.vote);
    assert_eq!(
        vec![Command::InstallElectionTimer { can_be_leader: true }],
        e.output.commands
    );
}

#[test]
fn establish_leader_sets_up_replication_first() {
    let mut e = node_of(members(&[1, 2]));
    e.elect();
    e.output.commands.clear();
    e.establish_leader();
    let rebuilt = e
        .output
        .commands
        .iter()
        .position(|c| matches!(c, Command::RebuildReplicationStreams { .. }));
    let blank = e.output.commands.iter().position(|c| matches!(c, Command::AppendBlankLog { .. }));
    assert_eq!(Some(2), rebuilt);
    assert_eq!(Some(3), blank);
}

#[test]
fn calc_server_state_by_vote_and_membership() {
    let mut e = node_of(members(&[1, 2]));
    assert_eq!(ServerState::Follower, e.calc_server_state());
    e.state.vote = Vote::new(2, 1);
    assert_eq!(ServerState::Candidate, e.calc_server_state());
    e.state.vote = Vote::new_committed(2, 1);
    assert_eq!(ServerState::Leader, e.calc_server_state());
    e.state.membership_state.effective = EffectiveMembership::new(None, members(&[2]));
    assert_eq!(ServerState::Learner, e.calc_server_state());
}

#[test]
fn votes_are_ordered_by_term_node_and_office() {
    let ordered: [Vote<u64>; 6] = [
        Vote::new(0, 9),
        Vote::new_committed(0, 9),
        Vote::new(1, 1),
        Vote::new_committed(1, 1),
        Vote::new(1, 2),
        Vote::new(2, 0),
    ];
    for i in 0..ordered.len() {
        for j in 0..ordered.len() {
            assert_eq!(i < j, ordered[i].is_before(&ordered[j]));
            assert_eq!(i == j, ordered[i].is_same(&ordered[j]));
        }
    }
    assert_eq!(LeaderId { term: 3, node_id: 4 }, Vote::<u64>::new(3, 4).leader_id());
}
