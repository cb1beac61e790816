//! A runtime that executes the commands keeps up with the engine.

use raft_engine::command::Command;
use raft_engine::config::EngineConfig;
use raft_engine::engine::Engine;
use raft_engine::entry::{Entry, EntryPayload};
use raft_engine::log_id::{LeaderId, LogId};
use raft_engine::membership::{EffectiveMembership, Membership};
use raft_engine::message::{AppendEntriesResponse, VoteRequest, VoteResponse};
use raft_engine::node::BasicNode;
use raft_engine::node_set::NodeSet;
use raft_engine::raft_state::{RaftState, SnapshotMeta};
use raft_engine::vote::Vote;

type TestEntry = Entry<u64, BasicNode>;

fn log_id(term: u64, node_id: u64, index: u64) -> LogId<u64> {
    LogId::new(LeaderId { term, node_id }, index)
}

fn members(ids: &[u64]) -> Membership<u64, BasicNode> {
    Membership::new(vec![NodeSet::from_ids(ids)])
}

fn normal(id: LogId<u64>) -> TestEntry {
    Entry { log_id: id, payload: EntryPayload::Normal(vec![1]) }
}

fn change(id: LogId<u64>, m: Membership<u64, BasicNode>) -> TestEntry {
    Entry { log_id: id, payload: EntryPayload::Membership(m) }
}

/// What is stored, by the commands alone.
struct Store {
    vote: Vote<u64>,
    log: Vec<LogId<u64>>,
    purged: Option<LogId<u64>>,
    applied: Option<LogId<u64>>,
    membership: EffectiveMembership<u64, BasicNode>,
}

impl Store {
    fn commit(&mut self, already: Option<LogId<u64>>, upto: LogId<u64>) {
        assert_eq!(self.applied, already);
        assert!(self.log.contains(&upto));
        self.applied = Some(upto);
    }

    /// Executes what is queued, and compares what is stored with the state of the engine.
    fn follow(&mut self, e: &mut Engine<u64, BasicNode>, input: &[TestEntry]) {
        for c in e.output.commands.drain(..) {
            match c {
                Command::SaveVote { vote } => {
                    assert!(!vote.is_before(&self.vote));
                    self.vote = vote;
                }
                Command::AppendInputEntries { range } => {
                    self.log.extend(input[range].iter().map(|x| x.log_id));
                }
                Command::AppendBlankLog { log_id } => self.log.push(log_id),
                Command::LeaderCommit { already_committed, upto } => {
                    self.commit(already_committed, upto)
                }
                Command::FollowerCommit { already_committed, upto } => {
                    self.commit(already_committed, upto)
                }
                Command::DeleteConflictLog { since } => {
                    assert!(self.log.contains(&since));
                    self.log.retain(|id| id.index < since.index);
                }
                Command::PurgeLog { upto } => {
                    assert!(self.log.contains(&upto));
                    self.log.retain(|id| id.index >= upto.index);
                    self.purged = Some(upto);
                }
                Command::UpdateMembership { membership } => self.membership = membership,
                _ => {}
            }
        }
        let ids: Vec<LogId<u64>> = (0..50).filter_map(|i| e.state.get_log_id(i)).collect();
        assert_eq!(e.state.vote, self.vote);
        assert_eq!(ids, self.log);
        assert_eq!(e.state.last_purged_log_id(), self.purged);
        assert_eq!(e.state.committed, self.applied);
        assert_eq!(e.state.membership_state.effective, self.membership);
        for i in 1..ids.len() {
            assert!(ids[i - 1].is_before(&ids[i]));
            assert_eq!(ids[i - 1].index + 1, ids[i].index);
        }
    }
}

#[test]
fn store_follows_the_engine() {
    let config = EngineConfig {
        id: 1,
        max_in_snapshot_log_to_keep: 1,
        purge_batch_size: 1,
        ..EngineConfig::default()
    };
    let mut e = Engine::new(RaftState::default(), config);
    let mut s = Store {
        vote: Vote::default(),
        log: vec![],
        purged: None,
        applied: None,
        membership: EffectiveMembership::default(),
    };
    let any = log_id(0, 0, 0);
    e.startup();
    s.follow(&mut e, &[]);

    let mut first = [change(any, members(&[1]))];
    assert_eq!(Ok(()), e.initialize(&mut first));
    s.follow(&mut e, &first);
    assert_eq!(Some(log_id(1, 1, 1)), s.applied);

    let mut more = [normal(any), normal(any), change(any, members(&[1, 2, 3])), normal(any)];
    e.leader_append_entries(&mut more);
    s.follow(&mut e, &more);
    assert_eq!(Some(log_id(1, 1, 3)), s.applied);
    assert_eq!(6, s.log.len());

    e.elect();
    s.follow(&mut e, &[]);
    let resp = VoteResponse { vote: Vote::new(2, 1), vote_granted: true, last_log_id: None };
    e.handle_vote_resp(3, resp);
    s.follow(&mut e, &[]);
    assert_eq!(Some(&log_id(2, 1, 6)), s.log.last());

    let req = VoteRequest { vote: Vote::new(3, 2), last_log_id: Some(log_id(2, 1, 6)) };
    assert!(e.handle_vote_req(req).vote_granted);
    s.follow(&mut e, &[]);

    let sent = [change(log_id(3, 2, 5), members(&[2, 3])), normal(log_id(3, 2, 6))];
    let r = e.handle_append_entries_req(
        &Vote::new_committed(3, 2),
        Some(log_id(1, 1, 4)),
        &sent,
        Some(log_id(3, 2, 5)),
    );
    assert_eq!(AppendEntriesResponse::Success, r);
    s.follow(&mut e, &sent);
    assert_eq!(Some(log_id(3, 2, 5)), s.applied);

    let r = e.handle_append_entries_req::<TestEntry>(
        &Vote::new_committed(4, 3),
        Some(log_id(4, 3, 6)),
        &[],
        None,
    );
    assert_eq!(AppendEntriesResponse::Conflict, r);
    s.follow(&mut e, &[]);
    assert_eq!(Some(&log_id(3, 2, 5)), s.log.last());

    e.finish_building_snapshot(SnapshotMeta {
        last_log_id: Some(log_id(1, 1, 4)),
        last_membership: EffectiveMembership::new(Some(log_id(1, 1, 4)), members(&[1, 2, 3])),
        snapshot_id: String::from("s"),
    });
    s.follow(&mut e, &[]);
    assert_eq!(Some(log_id(1, 1, 3)), s.purged);
    assert_eq!(3, s.log.len());
}
