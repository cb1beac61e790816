//! The parts that the engine is made of.

use raft_engine::command::{Command, EngineOutput};
use raft_engine::log_id::{index_after, opt_is_before, LeaderId, LogId};
use raft_engine::log_id_list::LogIdList;
use raft_engine::membership::{has_quorum, Membership, NodeRole};
use raft_engine::node::BasicNode;
use raft_engine::node_set::NodeSet;
use raft_engine::progress::{Inflight, ProgressEntry};
use raft_engine::raft_state::RaftState;
use raft_engine::vote::Vote;

fn log_id(term: u64, node_id: u64, index: u64) -> LogId<u64> {
    LogId::new(LeaderId { term, node_id }, index)
}

fn ids_of(l: &LogIdList<u64>) -> Vec<LogId<u64>> {
    (0..20).filter_map(|i| l.get(i)).collect()
}

#[test]
fn node_sets() {
    let mut s = NodeSet::from_ids(&[3u64, 1, 3, 2]);
    assert_eq!(vec![1, 2, 3], s.to_vec());
    assert_eq!(3, s.len());
    s.insert(0);
    s.insert(2);
    assert_eq!(vec![0, 1, 2, 3], s.to_vec());
    s.extend(&NodeSet::from_ids(&[9, 1]));
    assert_eq!(vec![0, 1, 2, 3, 9], s.to_vec());
    assert!(s.contains(&9));
    assert!(!s.contains(&4));
    assert_eq!(s, s.clone());
}

#[test]
fn majorities() {
    let four = NodeSet::from_ids(&[1u64, 2, 3, 4]);
    assert!(!four.is_majority_in(&NodeSet::from_ids(&[1, 2])));
    assert!(four.is_majority_in(&NodeSet::from_ids(&[1, 2, 4])));
    assert!(!four.is_majority_in(&NodeSet::from_ids(&[1, 2, 7, 8])));
    assert!(!NodeSet::<u64>::new().is_majority_in(&four));
}

#[test]
fn quorums_meet() {
    let configs = vec![NodeSet::from_ids(&[1u64, 2, 3]), NodeSet::from_ids(&[3, 4, 5])];
    let a = NodeSet::from_ids(&[1, 2, 3, 4]);
    let b = NodeSet::from_ids(&[1, 3, 5]);
    assert!(has_quorum(&configs, &a));
    assert!(has_quorum(&configs, &b));
    assert!(!has_quorum(&configs, &NodeSet::from_ids(&[2, 4, 5])));
    assert!(a.to_vec().iter().any(|id| b.contains(id)));
}

#[test]
fn log_ids_are_ordered_by_leader_first() {
    assert!(log_id(1, 2, 9).is_before(&log_id(2, 1, 0)));
    assert!(log_id(1, 1, 9).is_before(&log_id(1, 2, 0)));
    assert!(log_id(1, 1, 1).is_before(&log_id(1, 1, 2)));
    assert!(!log_id(1, 1, 2).is_before(&log_id(1, 1, 2)));
    assert!(opt_is_before(&None, &Some(log_id(0, 0, 0))));
    assert!(!opt_is_before::<u64>(&None, &None));
    assert_eq!(0, index_after::<u64>(&None));
    assert_eq!(8, index_after(&Some(log_id(3, 3, 7))));
}

#[test]
fn log_id_list_lookup() {
    let l = LogIdList::new(vec![log_id(1, 1, 2), log_id(2, 1, 4), log_id(2, 1, 6)]);
    assert_eq!(None, l.get(1));
    assert_eq!(Some(log_id(1, 1, 3)), l.get(3));
    assert_eq!(Some(log_id(2, 1, 4)), l.get(4));
    assert_eq!(Some(log_id(2, 1, 5)), l.get(5));
    assert_eq!(None, l.get(7));
    assert_eq!(Some(log_id(1, 1, 2)), l.first());
    assert_eq!(Some(log_id(2, 1, 6)), l.last());
    assert_eq!(None, LogIdList::<u64>::empty().last());
}

#[test]
fn log_id_list_append() {
    let mut l = LogIdList::empty();
    for id in [log_id(0, 0, 0), log_id(1, 1, 1), log_id(1, 1, 2), log_id(1, 1, 3), log_id(2, 2, 4)] {
        l.append(id);
    }
    assert_eq!(
        vec![
            log_id(0, 0, 0),
            log_id(1, 1, 1),
            log_id(1, 1, 2),
            log_id(1, 1, 3),
            log_id(2, 2, 4)
        ],
        ids_of(&l)
    );
}

#[test]
fn log_id_list_truncate() {
    let l = LogIdList::new(vec![log_id(1, 1, 2), log_id(2, 1, 4), log_id(2, 1, 6)]);
    let all = ids_of(&l);
    for at in 0..9u64 {
        let mut t = l.clone();
        t.truncate(at);
        let expected: Vec<LogId<u64>> = all.iter().copied().filter(|id| id.index < at).collect();
        assert_eq!(expected, ids_of(&t));
        assert_eq!(expected.last().copied(), t.last());
    }
}

#[test]
fn log_id_list_purge() {
    let l = LogIdList::new(vec![log_id(1, 1, 2), log_id(2, 1, 4), log_id(2, 1, 6)]);
    let all = ids_of(&l);
    for upto in [log_id(0, 0, 1), log_id(1, 1, 2), log_id(1, 1, 3), log_id(2, 1, 5), log_id(2, 1, 6)] {
        let mut t = l.clone();
        t.purge(&upto);
        let expected: Vec<LogId<u64>> =
            all.iter().copied().filter(|id| id.index >= upto.index).collect();
        assert_eq!(expected, ids_of(&t));
    }
    let mut t = l.clone();
    t.purge(&log_id(5, 5, 11));
    assert_eq!(vec![log_id(5, 5, 11)], ids_of(&t));
}

#[test]
fn membership_roles() {
    let mut m: Membership<u64, BasicNode> =
        Membership::new(vec![NodeSet::from_ids(&[1, 2]), NodeSet::from_ids(&[3])]);
    m.add_node(1, BasicNode { addr: String::from("one") });
    m.add_node(7, BasicNode { addr: String::from("seven") });
    m.add_node(5, BasicNode { addr: String::from("five") });
    assert_eq!(Some(NodeRole::Voter), m.get_node_role(&3));
    assert_eq!(Some(NodeRole::Learner), m.get_node_role(&7));
    assert_eq!(None, m.get_node_role(&9));
    assert!(m.is_voter(&1));
    assert!(!m.is_voter(&5));
    assert_eq!(vec![5, 7], m.learner_ids());
    assert_eq!(m, m.clone());
}

#[test]
fn commands_set_metrics_flags() {
    let mut o: EngineOutput<u64, BasicNode> = EngineOutput::default();
    o.push_command(Command::InstallElectionTimer { can_be_leader: true });
    assert!(!o.metrics_flags.cluster && !o.metrics_flags.local_data && !o.metrics_flags.replication);
    o.push_command(Command::SaveVote { vote: Vote::new(1, 1) });
    assert!(!o.metrics_flags.cluster && o.metrics_flags.local_data && !o.metrics_flags.replication);
    o.push_command(Command::QuitLeader);
    assert!(o.metrics_flags.cluster && o.metrics_flags.local_data && !o.metrics_flags.replication);
    o.push_command(Command::RebuildReplicationStreams { targets: vec![] });
    assert!(o.metrics_flags.cluster && o.metrics_flags.local_data && o.metrics_flags.replication);
    assert_eq!(4, o.commands.len());
    assert_eq!(Command::QuitLeader, o.commands[2]);
    assert_eq!(o, o.clone());
}

#[test]
fn next_request_probes_half_way() {
    let mut state: RaftState<u64, BasicNode> = RaftState::default();
    state.log_ids = LogIdList::new(vec![log_id(1, 1, 0), log_id(1, 1, 99)]);
    let e = ProgressEntry::empty(100);
    assert_eq!(
        Inflight::Logs {
            prev_log_id: Some(log_id(1, 1, 47)),
            last_log_id: Some(log_id(1, 1, 57)),
        },
        e.next_send(&state, 10)
    );
    let known = ProgressEntry { matching: Some(log_id(1, 1, 95)), ..e };
    assert_eq!(
        Inflight::Logs {
            prev_log_id: Some(log_id(1, 1, 95)),
            last_log_id: Some(log_id(1, 1, 99)),
        },
        known.next_send(&state, 10)
    );
    let all = ProgressEntry { matching: Some(log_id(1, 1, 99)), ..e };
    assert_eq!(Inflight::Idle, all.next_send(&state, 10));
}

#[test]
fn next_request_is_a_snapshot_if_entries_are_gone() {
    let mut state: RaftState<u64, BasicNode> = RaftState::default();
    state.log_ids = LogIdList::new(vec![log_id(1, 1, 20), log_id(1, 1, 30)]);
    state.purged_next = 21;
    state.purge_upto = Some(log_id(1, 1, 20));
    state.snapshot_meta.last_log_id = Some(log_id(1, 1, 25));
    assert_eq!(
        Inflight::Snapshot { last_log_id: Some(log_id(1, 1, 25)) },
        ProgressEntry::empty(5).next_send(&state, 10)
    );
    assert_eq!(
        Inflight::Logs {
            prev_log_id: Some(log_id(1, 1, 20)),
            last_log_id: Some(log_id(1, 1, 30)),
        },
        ProgressEntry::empty(31).next_send(&state, 10)
    );
}
