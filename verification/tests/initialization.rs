//! How a cluster is initialized, and how a node starts.

use raft_engine::command::Command;
use raft_engine::config::EngineConfig;
use raft_engine::engine::Engine;
use raft_engine::entry::{Entry, EntryPayload};
use raft_engine::log_id::{LeaderId, LogId};
use raft_engine::log_id_list::LogIdList;
use raft_engine::membership::{EffectiveMembership, Membership};
use raft_engine::message::{InitializeError, NotAMembershipEntry, NotAllowed, NotInMembers, VoteRequest};
use raft_engine::node::BasicNode;
use raft_engine::node_set::NodeSet;
use raft_engine::progress::{Inflight, ProgressEntry};
use raft_engine::raft_state::{RaftState, ServerState};
use raft_engine::vote::Vote;

fn log_id(term: u64, node_id: u64, index: u64) -> LogId<u64> {
    LogId::new(LeaderId { term, node_id }, index)
}

fn members(ids: &[u64]) -> Membership<u64, BasicNode> {
    Membership::new(vec![NodeSet::from_ids(ids)])
}

fn pristine(id: u64) -> Engine<u64, BasicNode> {
    let config = EngineConfig { id, ..EngineConfig::default() };
    Engine::new(RaftState::default(), config)
}

fn entry(payload: EntryPayload<u64, BasicNode>) -> Entry<u64, BasicNode> {
    Entry { log_id: log_id(9, 9, 9), payload }
}

#[test]
fn initialize_single_node() {
    let mut e = pristine(1);
    let mut entries = [entry(EntryPayload::Membership(members(&[1])))];
    assert_eq!(Ok(()), e.initialize(&mut entries));

    let first = log_id(0, 0, 0);
    let blank = log_id(1, 1, 1);
    assert_eq!(first, entries[0].log_id);
    assert_eq!(Vote::new_committed(1, 1), e.state.vote);
    assert_eq!(Some(first), e.state.get_log_id(0));
    assert_eq!(Some(blank), e.state.last_log_id());
    assert_eq!(Some(blank), e.state.committed);
    assert_eq!(ServerState::Leader, e.state.server_state);
    assert!(e.internal_server_state.is_leading());
    assert_eq!(
        vec![
            Command::AppendInputEntries { range: 0..1 },
            Command::UpdateMembership {
                membership: EffectiveMembership::new(Some(first), members(&[1])),
            },
            Command::MoveInputCursorBy { n: 1 },
            Command::SaveVote { vote: Vote::new(1, 1) },
            Command::SaveVote { vote: Vote::new_committed(1, 1) },
            Command::BecomeLeader,
            Command::RebuildReplicationStreams { targets: vec![] },
            Command::AppendBlankLog { log_id: blank },
            Command::ReplicateCommitted { committed: Some(blank) },
            Command::LeaderCommit { already_committed: None, upto: blank },
        ],
        e.output.commands
    );
    assert!(e.output.metrics_flags.cluster);
    assert!(e.output.metrics_flags.local_data);
    assert!(e.output.metrics_flags.replication);
}

#[test]
fn initialize_several_nodes() {
    let mut e = pristine(1);
    let mut entries = [entry(EntryPayload::Membership(members(&[1, 2, 3])))];
    assert_eq!(Ok(()), e.initialize(&mut entries));

    let first = log_id(0, 0, 0);
    assert_eq!(Vote::new(1, 1), e.state.vote);
    assert_eq!(Some(first), e.state.last_log_id());
    assert_eq!(None, e.state.committed);
    assert_eq!(ServerState::Candidate, e.state.server_state);
    assert_eq!(
        vec![
            Command::AppendInputEntries { range: 0..1 },
            Command::UpdateMembership {
                membership: EffectiveMembership::new(Some(first), members(&[1, 2, 3])),
            },
            Command::MoveInputCursorBy { n: 1 },
            Command::SaveVote { vote: Vote::new(1, 1) },
            Command::SendVote {
                vote_req: VoteRequest { vote: Vote::new(1, 1), last_log_id: Some(first) },
            },
            Command::InstallElectionTimer { can_be_leader: true },
        ],
        e.output.commands
    );
    assert!(!e.output.metrics_flags.replication);
}

#[test]
fn initialize_only_once() {
    let mut e = pristine(1);
    let mut entries = [entry(EntryPayload::Membership(members(&[1])))];
    assert_eq!(Ok(()), e.initialize(&mut entries));

    let before = e.clone();
    let mut again = [entry(EntryPayload::Membership(members(&[1, 2])))];
    assert_eq!(
        Err(InitializeError::NotAllowed(NotAllowed {
            last_log_id: Some(log_id(1, 1, 1)),
            vote: Vote::new_committed(1, 1),
        })),
        e.initialize(&mut again)
    );
    assert_eq!(before, e);
    assert_eq!(log_id(9, 9, 9), again[0].log_id);
}

#[test]
fn initialize_not_allowed_after_vote() {
    let mut e = pristine(1);
    e.state.vote = Vote::new(0, 1);
    let mut entries = [entry(EntryPayload::Membership(members(&[1])))];
    assert_eq!(
        Err(InitializeError::NotAllowed(NotAllowed {
            last_log_id: None,
            vote: Vote::new(0, 1),
        })),
        e.initialize(&mut entries)
    );
    assert!(e.output.commands.is_empty());
}

#[test]
fn initialize_without_this_node() {
    let mut e = pristine(1);
    let mut entries = [entry(EntryPayload::Membership(members(&[2, 3])))];
    assert_eq!(
        Err(InitializeError::NotInMembers(NotInMembers {
            node_id: 1,
            membership: members(&[2, 3]),
        })),
        e.initialize(&mut entries)
    );
    assert_eq!(log_id(0, 0, 0), entries[0].log_id);
    assert_eq!(Some(log_id(0, 0, 0)), e.state.last_log_id());
    assert_eq!(vec![Command::AppendInputEntries { range: 0..1 }], e.output.commands);
}

#[test]
fn initialize_without_membership() {
    for payload in [EntryPayload::Blank, EntryPayload::Normal(vec![7])] {
        let mut e = pristine(1);
        let mut entries = [entry(payload)];
        assert_eq!(
            Err(InitializeError::NotAMembershipEntry(NotAMembershipEntry {})),
            e.initialize(&mut entries)
        );
        assert_eq!(Vote::default(), e.state.vote);
        assert_eq!(vec![Command::AppendInputEntries { range: 0..1 }], e.output.commands);
    }
}

#[test]
fn check_initialize_needs_pristine_state() {
    let mut e = pristine(1);
    assert_eq!(Ok(()), e.check_initialize());
    e.state.vote = Vote::new(1, 2);
    assert_eq!(
        Err(NotAllowed { last_log_id: None, vote: Vote::new(1, 2) }),
        e.check_initialize()
    );
    e.state.vote = Vote::default();
    e.state.log_ids = LogIdList::new(vec![log_id(0, 0, 0)]);
    assert_eq!(
        Err(NotAllowed { last_log_id: Some(log_id(0, 0, 0)), vote: Vote::default() }),
        e.check_initialize()
    );
}

#[test]
fn check_members_contain_me_looks_at_voters() {
    let e = pristine(1);
    assert_eq!(Ok(()), e.check_members_contain_me(&members(&[1, 2])));
    let joint = Membership::new(vec![NodeSet::from_ids(&[2, 3]), NodeSet::from_ids(&[1])]);
    assert_eq!(Ok(()), e.check_members_contain_me(&joint));
    let mut learner = members(&[2]);
    learner.add_node(1, BasicNode { addr: String::from("a") });
    let r = e.check_members_contain_me(&learner);
    assert_eq!(1, r.as_ref().unwrap_err().node_id);
    assert_eq!(learner, r.unwrap_err().membership);
}

#[test]
fn assign_log_ids_follows_the_log() {
    let mut e = pristine(1);
    let mut entries = [
        entry(EntryPayload::Blank),
        entry(EntryPayload::Normal(vec![1, 2])),
        entry(EntryPayload::Blank),
    ];
    e.assign_log_ids(&mut entries);
    assert_eq!(log_id(0, 0, 0), entries[0].log_id);
    assert_eq!(log_id(0, 0, 2), entries[2].log_id);

    e.state.vote = Vote::new_committed(3, 1);
    e.state.log_ids = LogIdList::new(vec![log_id(1, 2, 0), log_id(1, 2, 4)]);
    e.assign_log_ids(&mut entries);
    assert_eq!(log_id(3, 1, 5), entries[0].log_id);
    assert_eq!(log_id(3, 1, 6), entries[1].log_id);
    assert_eq!(log_id(3, 1, 7), entries[2].log_id);
    assert_eq!(EntryPayload::Normal(vec![1, 2]), entries[1].payload);
    e.assign_log_ids::<Entry<u64, BasicNode>>(&mut []);
    assert_eq!(Some(log_id(1, 2, 4)), e.state.last_log_id());
}

#[test]
fn startup_as_leader() {
    let mut e = pristine(2);
    e.state.vote = Vote::new_committed(2, 2);
    e.state.log_ids = LogIdList::new(vec![log_id(1, 1, 0), log_id(2, 2, 3), log_id(2, 2, 4)]);
    e.state.membership_state.effective =
        EffectiveMembership::new(Some(log_id(1, 1, 0)), members(&[2, 3]));
    e.startup();

    assert_eq!(ServerState::Leader, e.state.server_state);
    assert!(e.internal_server_state.is_leading());
    let req = Inflight::Logs { prev_log_id: None, last_log_id: Some(log_id(2, 2, 4)) };
    assert_eq!(
        vec![
            Command::BecomeLeader,
            Command::RebuildReplicationStreams { targets: vec![(3, ProgressEntry::empty(5))] },
            Command::Replicate { target: 3, req },
        ],
        e.output.commands
    );
    assert_eq!(Vote::new_committed(2, 2), e.state.vote);
}

#[test]
fn startup_as_candidate_is_follower() {
    let mut e = pristine(2);
    e.state.vote = Vote::new(2, 2);
    e.state.membership_state.effective =
        EffectiveMembership::new(Some(log_id(1, 1, 0)), members(&[2, 3]));
    e.startup();
    assert_eq!(ServerState::Follower, e.state.server_state);
    assert!(e.internal_server_state.is_following());
    assert!(e.output.commands.is_empty());
    assert!(!e.output.metrics_flags.cluster);
}

#[test]
fn startup_as_learner() {
    let mut e = pristine(4);
    e.state.vote = Vote::new_committed(2, 2);
    e.state.membership_state.effective =
        EffectiveMembership::new(Some(log_id(1, 1, 0)), members(&[2, 3]));
    e.state.server_state = ServerState::Follower;
    e.startup();
    assert_eq!(ServerState::Learner, e.state.server_state);
    assert!(e.output.commands.is_empty());
}

#[test]
fn new_engine_follows() {
    let mut state: RaftState<u64, BasicNode> = RaftState::default();
    state.vote = Vote::new(3, 1);
    let config = EngineConfig { id: 1, ..EngineConfig::default() };
    let e = Engine::new(state.clone(), config);
    assert_eq!(state, e.state);
    assert_eq!(config, e.config);
    assert!(e.internal_server_state.is_following());
    assert!(e.output.commands.is_empty());
}

#[test]
fn defaults() {
    let config: EngineConfig<u64> = EngineConfig::default();
    assert_eq!(0, config.id);
    assert_eq!(1000, config.max_in_snapshot_log_to_keep);
    assert_eq!(256, config.purge_batch_size);
    assert_eq!(300, config.max_payload_entries);

    let e: Engine<u64, BasicNode> = Engine::default();
    assert_eq!(Engine::new(RaftState::default(), config), e);
    assert_eq!(Vote { term: 0, node_id: 0, committed: false }, e.state.vote);
}
