//! Which states are valid, which requests can be handled, and which of them fit the state.

use raft_engine::command::Command;
use raft_engine::config::EngineConfig;
use raft_engine::engine::Engine;
use raft_engine::entry::{Entry, EntryPayload};
use raft_engine::log_id::{is_upto, LeaderId, LogId};
use raft_engine::log_id_list::LogIdList;
use raft_engine::membership::{EffectiveMembership, Membership};
use raft_engine::message::{AppendEntriesResponse, VoteResponse};
use raft_engine::node::BasicNode;
use raft_engine::node_set::NodeSet;
use raft_engine::raft_state::{RaftState, ServerState, SnapshotMeta};
use raft_engine::request::{are_in_order, is_log_shown};
use raft_engine::vote::Vote;

type TestEntry = Entry<u64, BasicNode>;

fn log_id(term: u64, node_id: u64, index: u64) -> LogId<u64> {
    LogId::new(LeaderId { term, node_id }, index)
}

fn members(ids: &[u64]) -> Membership<u64, BasicNode> {
    Membership::new(vec![NodeSet::from_ids(ids)])
}

fn normal(id: LogId<u64>) -> TestEntry {
    Entry { log_id: id, payload: EntryPayload::Normal(vec![1]) }
}

/// The entries 1 to 4 of leader 2, of which entry 1 is purged and entry 3 committed.
fn stored() -> RaftState<u64, BasicNode> {
    let mut s = RaftState::default();
    s.vote = Vote::new_committed(1, 2);
    s.log_ids = LogIdList::new(vec![log_id(1, 2, 1), log_id(1, 2, 4)]);
    s.purged_next = 2;
    s.purge_upto = Some(log_id(1, 2, 1));
    s.snapshot_meta.last_log_id = Some(log_id(1, 2, 2));
    s.committed = Some(log_id(1, 2, 3));
    s.membership_state.effective = EffectiveMembership::new(Some(log_id(1, 2, 1)), members(&[1, 2]));
    s.server_state = ServerState::Follower;
    s
}

fn node() -> Engine<u64, BasicNode> {
    Engine::new(stored(), EngineConfig { id: 1, ..EngineConfig::default() })
}

#[test]
fn valid_states() {
    assert!(RaftState::<u64, BasicNode>::default().is_valid());
    assert!(stored().is_valid());
    let mut s = stored();
    s.log_ids = LogIdList::new(vec![log_id(1, 2, 1), log_id(2, 1, 4), log_id(2, 1, 5)]);
    s.vote = Vote::new(2, 1);
    assert!(s.is_valid());
}

#[test]
fn invalid_states() {
    let mut s = stored();
    s.committed = Some(log_id(1, 3, 3));
    assert!(!s.is_valid());
    let mut s = stored();
    s.committed = Some(log_id(1, 2, 5));
    assert!(!s.is_valid());
    let mut s = stored();
    s.committed = Some(log_id(1, 2, 1));
    assert!(!s.is_valid());
    let mut s = stored();
    s.snapshot_meta.last_log_id = Some(log_id(1, 2, 4));
    assert!(!s.is_valid());
    let mut s = stored();
    s.purged_next = 0;
    assert!(!s.is_valid());
    let mut s = stored();
    s.purge_upto = None;
    assert!(!s.is_valid());
    let mut s = stored();
    s.purge_upto = Some(log_id(1, 2, 3));
    assert!(!s.is_valid());
    let mut s = stored();
    s.vote = Vote::new_committed(1, 1);
    assert!(!s.is_valid());
    let mut s = stored();
    s.log_ids = LogIdList::new(vec![log_id(1, 2, 1), log_id(0, 9, 4), log_id(0, 9, 6)]);
    assert!(!s.is_valid());
    let mut s: RaftState<u64, BasicNode> = RaftState::default();
    s.purged_next = 1;
    assert!(!s.is_valid());
    s.purged_next = 0;
    s.vote = Vote::new(7, 7);
    s.log_ids = LogIdList::new(vec![log_id(1, 2, 0), log_id(1, 2, u64::MAX)]);
    assert!(!s.is_valid());
}

#[test]
fn lists_in_order() {
    assert!(LogIdList::<u64>::empty().is_in_order());
    assert!(LogIdList::new(vec![log_id(1, 2, 3)]).is_in_order());
    assert!(LogIdList::new(vec![log_id(1, 2, 3), log_id(1, 2, 5), log_id(2, 1, 7)]).is_in_order());
    assert!(!LogIdList::new(vec![log_id(1, 2, 3), log_id(2, 1, 5), log_id(1, 9, 7)]).is_in_order());
    assert!(is_upto::<u64>(&None, &None));
    assert!(is_upto(&Some(log_id(9, 9, 3)), &Some(log_id(1, 1, 3))));
    assert!(!is_upto(&Some(log_id(1, 1, 4)), &Some(log_id(9, 9, 3))));
    assert!(!is_upto(&Some(log_id(1, 1, 0)), &None));
}

#[test]
fn what_requests_show() {
    let none: [TestEntry; 0] = [];
    assert!(are_in_order(&none));
    assert!(is_log_shown(&Some(log_id(5, 5, 5)), &none));
    let two = [normal(log_id(1, 2, 3)), normal(log_id(2, 1, 4))];
    assert!(are_in_order(&two));
    assert!(is_log_shown(&Some(log_id(1, 1, 2)), &two));
    assert!(!is_log_shown(&Some(log_id(1, 3, 2)), &two));
    assert!(!is_log_shown(&Some(log_id(1, 1, 1)), &two));
    assert!(!is_log_shown(&None, &two));
    assert!(is_log_shown(&None, &[normal(log_id(1, 2, 0))]));
    assert!(!are_in_order(&[normal(log_id(1, 2, 3)), normal(log_id(1, 2, 5))]));
    assert!(!are_in_order(&[normal(log_id(2, 1, 3)), normal(log_id(1, 9, 4))]));
    assert!(!are_in_order(&[normal(log_id(1, 1, u64::MAX))]));
}

#[test]
fn requests_that_can_be_handled() {
    let e = node();
    let vote = Vote::new_committed(1, 2);
    let next = [normal(log_id(1, 2, 5))];
    let gap = [normal(log_id(1, 2, 6))];
    assert!(e.can_take_request(&vote, &Some(log_id(1, 2, 4)), &next));
    assert!(e.can_take_request(&vote, &Some(log_id(1, 2, 2)), &[normal(log_id(1, 2, 3))]));
    assert!(!e.can_take_request(&vote, &Some(log_id(1, 2, 4)), &gap));
    assert!(!e.can_take_request(&vote, &None, &gap));
    // The entry before is missing, or the vote is too small: the entries do not matter.
    assert!(e.can_take_request(&vote, &Some(log_id(1, 2, 5)), &gap));
    assert!(e.can_take_request(&Vote::new(0, 1), &None, &gap));
    // A leader that is accepted is another node.
    assert!(!e.can_take_request(&Vote::new_committed(3, 1), &None, &next));
}

#[test]
fn requests_that_fit() {
    let e = node();
    let vote = Vote::new_committed(3, 2);
    let prev = Some(log_id(1, 2, 3));
    let entries = [normal(log_id(2, 2, 4)), normal(log_id(3, 2, 5))];
    assert!(e.can_trust_request(&vote, &prev, &entries, &Some(log_id(2, 2, 4))));
    assert!(e.can_trust_request(&vote, &prev, &entries, &None));
    // An entry of a later leader than the one that sends it.
    assert!(!e.can_trust_request(&Vote::new_committed(2, 2), &prev, &entries, &None));
    // The leader has committed something else than this node, or than it shows.
    assert!(!e.can_trust_request(&vote, &prev, &entries, &Some(log_id(2, 2, 3))));
    assert!(!e.can_trust_request(&vote, &prev, &entries, &Some(log_id(3, 2, 4))));
    // What it shows is not what is committed here.
    assert!(!e.can_trust_request(&vote, &Some(log_id(1, 1, 3)), &entries, &None));
    // It claims to have committed what is not before a common entry here.
    assert!(!e.can_trust_request::<TestEntry>(&vote, &Some(log_id(1, 2, 4)), &[], &Some(log_id(1, 1, 4))));
    // The entry before is missing, or the vote is too small: nothing is taken.
    assert!(e.can_trust_request(&vote, &Some(log_id(9, 9, 5)), &entries, &None));
    assert!(e.can_trust_request(&Vote::new(0, 0), &prev, &entries, &Some(log_id(9, 9, 9))));
}

#[test]
fn request_that_does_not_fit() {
    // Entries 2 and 3 are of another leader, but count as present up to the committed one.
    let mut e = node();
    let vote = Vote::new_committed(3, 2);
    let prev = Some(log_id(2, 2, 2));
    let entries = [normal(log_id(2, 2, 3)), normal(log_id(3, 2, 4))];
    let committed = Some(log_id(3, 2, 9));
    assert!(e.can_take_request(&vote, &prev, &entries));
    assert!(!e.can_trust_request(&vote, &prev, &entries, &committed));
    let r = e.handle_append_entries_req(&vote, prev, &entries, committed);
    assert_eq!(AppendEntriesResponse::Success, r);
    assert_eq!(Some(log_id(1, 2, 3)), e.state.get_log_id(3));
    assert_eq!(Some(log_id(3, 2, 4)), e.state.last_log_id());
    assert_eq!(Some(log_id(3, 2, 4)), e.state.committed);

    let mut before = e.clone();
    assert!(e.can_take_request(&vote, &prev, &entries));
    let r = e.handle_append_entries_req(&vote, prev, &entries, committed);
    assert_eq!(AppendEntriesResponse::Success, r);
    before.output.push_command(Command::InstallElectionTimer { can_be_leader: false });
    assert_eq!(before, e);
}

#[test]
fn committed_entries_survive_a_request() {
    for (vote, prev, first) in [
        (Vote::new_committed(3, 2), Some(log_id(1, 2, 3)), log_id(3, 2, 4)),
        (Vote::new_committed(3, 2), Some(log_id(3, 2, 4)), log_id(3, 2, 5)),
        (Vote::new_committed(0, 2), Some(log_id(1, 2, 1)), log_id(3, 2, 2)),
    ] {
        let mut e = node();
        e.handle_append_entries_req(&vote, prev, &[normal(first)], Some(first));
        assert!(!e.state.vote.is_before(&Vote::new_committed(1, 2)));
        assert!(!e.state.committed.unwrap().is_before(&log_id(1, 2, 3)));
        assert!(!e.state.last_log_id().unwrap().is_before(&e.state.committed.unwrap()));
        for i in 1..4 {
            assert_eq!(Some(log_id(1, 2, i)), e.state.get_log_id(i));
        }
        assert!(e.state.is_valid());
    }
}

#[test]
fn snapshot_beyond_the_log() {
    let mut e = node();
    e.config.max_in_snapshot_log_to_keep = 1;
    e.config.purge_batch_size = 1;
    let meta = SnapshotMeta {
        last_log_id: Some(log_id(5, 5, 20)),
        last_membership: EffectiveMembership::default(),
        snapshot_id: String::from("s"),
    };
    e.finish_building_snapshot(meta.clone());
    assert_eq!(meta, e.state.snapshot_meta);
    assert_eq!(Some(log_id(1, 2, 1)), e.state.purge_upto);
    assert_eq!(Some(log_id(1, 2, 1)), e.state.last_purged_log_id());
    assert!(e.output.commands.is_empty());
    assert!(!e.state.is_valid());
}

#[test]
fn one_batch_or_two() {
    for ids in [vec![1], vec![1, 2, 3]] {
        let mut e = Engine::new(RaftState::default(), EngineConfig { id: 1, ..EngineConfig::default() });
        let first = Entry {
            log_id: log_id(0, 0, 0),
            payload: EntryPayload::Membership(members(&ids)),
        };
        assert_eq!(Ok(()), e.initialize(&mut [first]));
        let resp = VoteResponse { vote: Vote::new(1, 1), vote_granted: true, last_log_id: None };
        if ids.len() > 1 {
            e.handle_vote_resp(2, resp);
        }
        assert_eq!(ServerState::Leader, e.state.server_state);

        let any = || normal(log_id(0, 0, 0));
        let mut whole = e.clone();
        let mut all = [any(), any(), any()];
        whole.leader_append_entries(&mut all);
        let (mut xs, mut ys) = ([any()], [any(), any()]);
        e.leader_append_entries(&mut xs);
        e.leader_append_entries(&mut ys);
        assert_eq!(all[0].log_id, xs[0].log_id);
        assert_eq!(all[1].log_id, ys[0].log_id);
        assert_eq!(all[2].log_id, ys[1].log_id);
        assert_eq!(whole.state.last_log_id(), e.state.last_log_id());
        assert_eq!(whole.state.committed, e.state.committed);
        assert_eq!(whole.state.vote, e.state.vote);
        assert_eq!(whole.state.membership_state, e.state.membership_state);
        for i in 0..6 {
            assert_eq!(whole.state.get_log_id(i), e.state.get_log_id(i));
        }
        assert_eq!(ids.len() == 1, e.state.committed == Some(log_id(1, 1, 4)));
        assert_eq!(ids.len() > 1, e.state.committed.is_none());
    }
}
