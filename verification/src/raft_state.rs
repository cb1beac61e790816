//! The state of a Raft node.

use crate::entry::{entry_views, ids_of, RaftEntry};
use crate::log_id::{
    holds, id_at, is_log, last_of, next_index, opt_is_before, opt_precedes, purged_to, LogId,
};
use crate::log_id_list::LogIdList;
use crate::membership::{
    EffectiveMembership, EffectiveMembershipView, MembershipState, MembershipStateView,
};
use crate::node::{same_id, Node, NodeId};
use crate::vote::Vote;
use vstd::prelude::*;

verus! {

/// The part that a node plays in the cluster.
#[derive(Clone, Copy, Debug, PartialEq, Eq, Structural)]
pub enum ServerState {
    /// Receives the log and does not vote.
    Learner,
    /// Votes and follows a leader.
    Follower,
    /// Asks for votes to become leader.
    Candidate,
    /// Leads.
    Leader,
}

/// The view of a snapshot description.
#[verifier::ext_equal]
#[verifier::reject_recursive_types(NID)]
pub struct SnapshotView<NID, M> {
    pub last_log_id: Option<LogId<NID>>,
    pub last_membership: EffectiveMembershipView<NID, M>,
    pub snapshot_id: Seq<char>,
}

/// Describes a snapshot: the last log id and the last membership that it covers.
#[derive(Debug, PartialEq, Eq)]
pub struct SnapshotMeta<NID: NodeId, N: Node> {
    pub last_log_id: Option<LogId<NID>>,
    pub last_membership: EffectiveMembership<NID, N>,
    pub snapshot_id: String,
}

impl<NID: NodeId, N: Node> View for SnapshotMeta<NID, N> {
    type V = SnapshotView<NID, N::V>;

    open spec fn view(&self) -> SnapshotView<NID, N::V> {
        SnapshotView {
            last_log_id: self.last_log_id,
            last_membership: self.last_membership@,
            snapshot_id: self.snapshot_id@,
        }
    }
}

impl<NID: NodeId, N: Node> Clone for SnapshotMeta<NID, N> {
    fn clone(&self) -> (r: Self)
        ensures
            r@ == self@,
    {
        SnapshotMeta {
            last_log_id: self.last_log_id,
            last_membership: self.last_membership.clone(),
            snapshot_id: self.snapshot_id.clone(),
        }
    }
}

/// The view of the state of a node.
#[verifier::ext_equal]
#[verifier::reject_recursive_types(NID)]
pub struct RaftStateView<NID, M> {
    pub vote: Vote<NID>,
    pub committed: Option<LogId<NID>>,
    pub purged_next: int,
    pub log: Seq<LogId<NID>>,
    pub membership: MembershipStateView<NID, M>,
    pub snapshot: SnapshotView<NID, M>,
    pub server_state: ServerState,
    pub purge_upto: Option<LogId<NID>>,
}

impl<NID: NodeId, M> RaftStateView<NID, M> {
    /// The last log id.
    pub open spec fn last_log_id(self) -> Option<LogId<NID>> {
        last_of(self.log)
    }

    /// The id of the last purged entry.
    pub open spec fn last_purged(self) -> Option<LogId<NID>> {
        if self.purged_next == 0 || self.log.len() == 0 {
            None
        } else {
            Some(self.log[0])
        }
    }

    /// The node has the entry: it is committed here, or its id is in the log.
    pub open spec fn has_log_id(self, id: LogId<NID>) -> bool {
        id.index < next_index(self.committed) || holds(self.log, id)
    }

    /// The position of the first id, from `from` on, whose entry the node does not have.
    pub open spec fn first_missing(self, ids: Seq<LogId<NID>>, from: int) -> int
        decreases ids.len() - from,
    {
        if from >= ids.len() {
            ids.len() as int
        } else if !self.has_log_id(ids[from]) {
            from
        } else {
            self.first_missing(ids, from + 1)
        }
    }

    /// The node is candidate or leader: its vote is for itself.
    pub open spec fn is_leading(self, id: NID) -> bool {
        self.vote.node_id == id
    }

    /// The node is leader: its vote is for itself and a quorum has granted it.
    pub open spec fn is_leader(self, id: NID) -> bool {
        self.is_leading(id) && self.vote.committed
    }

    /// The node votes.
    pub open spec fn is_voter(self, id: NID) -> bool {
        self.membership.effective.membership.voters().contains(id)
    }

    /// The part that the node plays, by its vote and the membership in force.
    pub open spec fn role_of(self, id: NID) -> ServerState {
        if !self.is_voter(id) {
            ServerState::Learner
        } else if self.is_leader(id) {
            ServerState::Leader
        } else if self.is_leading(id) {
            ServerState::Candidate
        } else {
            ServerState::Follower
        }
    }

    /// The log is committed up to `upto`, if that is further than before.
    pub open spec fn committed_to(self, upto: Option<LogId<NID>>) -> Self {
        if opt_precedes(self.committed, upto) {
            RaftStateView {
                committed: upto,
                membership: self.membership.committed_to(upto),
                ..self
            }
        } else {
            self
        }
    }

    /// The entries up to `upto` are gone.
    pub open spec fn purged(self, upto: LogId<NID>) -> Self {
        RaftStateView {
            purged_next: upto.index + 1,
            log: purged_to(self.log, upto),
            ..self
        }
    }

    /// The state makes sense.
    pub open spec fn valid(self) -> bool {
        positions_agree(
            self.log,
            self.vote,
            self.purged_next,
            self.purge_upto,
            self.snapshot.last_log_id,
            self.committed,
        )
    }
}

/// The log is a log and starts where it was purged to; what is committed, in the snapshot or
/// about to be purged is in the log; purging goes no further than planned, and is planned no
/// further than the snapshot and what is committed; the snapshot goes no further than what is
/// committed; no entry is from a later leader than the vote.
#[verifier::opaque]
pub open spec fn positions_agree<NID: NodeId>(
    log: Seq<LogId<NID>>,
    vote: Vote<NID>,
    purged_next: int,
    purge_upto: Option<LogId<NID>>,
    snapshot: Option<LogId<NID>>,
    committed: Option<LogId<NID>>,
) -> bool {
    &&& is_log(log)
    &&& next_index(last_of(log)) <= u64::MAX
    &&& purged_next >= 0
    &&& purged_next == 0 && log.len() > 0 ==> log[0].index == 0
    &&& purged_next > 0 ==> log.len() > 0 && log[0].index + 1 == purged_next
    &&& committed matches Some(c) ==> holds(log, c)
    &&& snapshot matches Some(s) ==> holds(log, s)
    &&& purge_upto matches Some(p) ==> holds(log, p)
    &&& purged_next <= next_index(purge_upto) <= next_index(committed)
    &&& next_index(snapshot) <= next_index(committed)
    &&& snapshot is Some ==> next_index(purge_upto) <= next_index(snapshot)
    &&& last_of(log) matches Some(l) ==> !vote.leader().precedes(l.leader_id)
}

/// The state of a node: what it has stored, and the part that it plays.
#[derive(Debug, PartialEq, Eq)]
pub struct RaftState<NID: NodeId, N: Node> {
    /// The greatest vote that the node has seen.
    pub vote: Vote<NID>,
    /// The last log id that is known to be committed.
    pub committed: Option<LogId<NID>>,
    /// The index after the last purged entry.
    pub purged_next: u64,
    /// The ids of all log entries, and that of the last purged one.
    pub log_ids: LogIdList<NID>,
    /// The committed membership and the one in force.
    pub membership_state: MembershipState<NID, N>,
    /// The last snapshot.
    pub snapshot_meta: SnapshotMeta<NID, N>,
    /// The part that the node plays.
    pub server_state: ServerState,
    /// The log id up to which the log may be purged.
    pub purge_upto: Option<LogId<NID>>,
}

impl<NID: NodeId, N: Node> View for RaftState<NID, N> {
    type V = RaftStateView<NID, N::V>;

    open spec fn view(&self) -> RaftStateView<NID, N::V> {
        RaftStateView {
            vote: self.vote,
            committed: self.committed,
            purged_next: self.purged_next as int,
            log: self.log_ids@,
            membership: self.membership_state@,
            snapshot: self.snapshot_meta@,
            server_state: self.server_state,
            purge_upto: self.purge_upto,
        }
    }
}

impl<NID: NodeId, N: Node> RaftState<NID, N> {
    /// The last log id.
    pub fn last_log_id(&self) -> (r: Option<LogId<NID>>)
        ensures
            r == self@.last_log_id(),
    {
        self.log_ids.last()
    }

    /// The log id at `index`, if it is in the log.
    pub fn get_log_id(&self, index: u64) -> (r: Option<LogId<NID>>)
        ensures
            r == id_at(self@.log, index as int),
    {
        self.log_ids.get(index)
    }

    /// The id of the last purged entry.
    pub fn last_purged_log_id(&self) -> (r: Option<LogId<NID>>)
        ensures
            r == self@.last_purged(),
    {
        if self.purged_next == 0 {
            None
        } else {
            self.log_ids.first()
        }
    }

    /// Whether the node has the entry: it is committed here, or its id is in the log.
    pub fn has_log_id(&self, id: &LogId<NID>) -> (r: bool)
        ensures
            r == self@.has_log_id(*id),
    {
        let is_committed = match &self.committed {
            Some(c) => id.index <= c.index,
            None => false,
        };
        if is_committed {
            return true;
        }
        match self.get_log_id(id.index) {
            Some(local) => local.is_same(id),
            None => false,
        }
    }

    /// The position of the first entry that the node does not have.
    pub fn first_conflicting_index<Ent: RaftEntry<NID, N>>(&self, entries: &[Ent]) -> (r: usize)
        ensures
            r == self@.first_missing(ids_of(entry_views::<NID, N, Ent>(entries@)), 0),
            r <= entries@.len(),
            forall|k: int| 0 <= k < r ==> self@.has_log_id((#[trigger] entries@[k]).log_id()),
            r < entries@.len() ==> !self@.has_log_id(entries@[r as int].log_id()),
    {
        let ghost ids = ids_of(entry_views::<NID, N, Ent>(entries@));
        let mut i: usize = 0;
        while i < entries.len()
            invariant
                i <= entries@.len(),
                ids == ids_of(entry_views::<NID, N, Ent>(entries@)),
                self@.first_missing(ids, 0) == self@.first_missing(ids, i as int),
                forall|k: int| 0 <= k < i ==> self@.has_log_id((#[trigger] entries@[k]).log_id()),
            decreases entries@.len() - i,
        {
            assert(ids[i as int] == entries@[i as int].log_id());
            if !self.has_log_id(entries[i].get_log_id()) {
                return i;
            }
            i += 1;
        }
        i
    }

    /// Whether the node is candidate or leader: its vote is for itself.
    pub fn is_leading(&self, id: &NID) -> (r: bool)
        ensures
            r == self@.is_leading(*id),
    {
        same_id(&self.vote.node_id, id)
    }

    /// Whether the node is leader: its vote is for itself and a quorum has granted it.
    pub fn is_leader(&self, id: &NID) -> (r: bool)
        ensures
            r == self@.is_leader(*id),
    {
        self.is_leading(id) && self.vote.committed
    }

    /// Whether the node votes.
    pub fn is_voter(&self, id: &NID) -> (r: bool)
        ensures
            r == self@.is_voter(*id),
    {
        self.membership_state.effective.is_voter(id)
    }

    /// The part that the node plays, by its vote and the membership in force.
    pub fn calc_server_state(&self, id: &NID) -> (r: ServerState)
        ensures
            r == self@.role_of(*id),
    {
        if !self.is_voter(id) {
            ServerState::Learner
        } else if self.is_leader(id) {
            ServerState::Leader
        } else if self.is_leading(id) {
            ServerState::Candidate
        } else {
            ServerState::Follower
        }
    }

    /// Adds the ids of `entries[since..]` to the log.
    pub fn extend_log_ids<Ent: RaftEntry<NID, N>>(&mut self, entries: &[Ent], since: usize)
        requires
            since <= entries@.len(),
            is_log(ids_of(entry_views::<NID, N, Ent>(entries@))),
            since < entries@.len() && old(self)@.log.len() > 0 ==> entries@[since as int].log_id().index
                == old(self)@.log.last().index + 1,
        ensures
            final(self)@ == (RaftStateView {
                log: old(self)@.log + ids_of(entry_views::<NID, N, Ent>(entries@)).skip(
                    since as int,
                ),
                ..old(self)@
            }),
    {
        let ghost ids = ids_of(entry_views::<NID, N, Ent>(entries@));
        let mut i: usize = since;
        assert(ids.subrange(since as int, since as int) =~= Seq::empty());
        assert(self@.log =~= old(self)@.log + ids.subrange(since as int, i as int));
        while i < entries.len()
            invariant
                since <= i <= entries@.len(),
                ids == ids_of(entry_views::<NID, N, Ent>(entries@)),
                is_log(ids),
                self@ == (RaftStateView {
                    log: old(self)@.log + ids.subrange(since as int, i as int),
                    ..old(self)@
                }),
                since < entries@.len() && old(self)@.log.len() > 0 ==> ids[since as int].index
                    == old(self)@.log.last().index + 1,
            decreases entries@.len() - i,
        {
            proof {
                assert(ids[i as int] == entries@[i as int].log_id());
                if self@.log.len() > 0 {
                    if i > since {
                        assert(self@.log.last() == ids[i - 1]);
                        assert(ids[i as int].index == ids[i - 1].index + 1);
                    } else {
                        assert(self@.log =~= old(self)@.log);
                    }
                }
            }
            self.log_ids.append(*entries[i].get_log_id());
            assert(self@.log =~= old(self)@.log + ids.subrange(since as int, i + 1));
            i += 1;
        }
        assert(ids.subrange(since as int, i as int) =~= ids.skip(since as int));
    }

    /// Notes that the log is committed up to `upto`. If that is further than before, the
    /// former position is returned.
    pub fn update_committed(&mut self, upto: &Option<LogId<NID>>) -> (r: Option<
        Option<LogId<NID>>,
    >)
        ensures
            final(self)@ == old(self)@.committed_to(*upto),
            r == (if opt_precedes(old(self)@.committed, *upto) {
                Some(old(self)@.committed)
            } else {
                None
            }),
    {
        if opt_is_before(&self.committed, upto) {
            let prev = self.committed;
            self.committed = *upto;
            self.membership_state.commit(upto);
            Some(prev)
        } else {
            None
        }
    }

    /// Drops the entries up to `upto`.
    pub fn purge_log(&mut self, upto: &LogId<NID>)
        requires
            upto.index < u64::MAX,
        ensures
            final(self)@ == old(self)@.purged(*upto),
    {
        self.purged_next = upto.index + 1;
        self.log_ids.purge(upto);
    }
}

impl<NID: NodeId, N: Node> Clone for RaftState<NID, N> {
    fn clone(&self) -> (r: Self)
        ensures
            r@ == self@,
    {
        RaftState {
            vote: self.vote,
            committed: self.committed,
            purged_next: self.purged_next,
            log_ids: self.log_ids.clone(),
            membership_state: self.membership_state.clone(),
            snapshot_meta: self.snapshot_meta.clone(),
            server_state: self.server_state,
            purge_upto: self.purge_upto,
        }
    }
}

impl<NID: NodeId, M> RaftStateView<NID, M> {
    /// The state of a node that has nothing stored.
    pub open spec fn pristine() -> Self {
        RaftStateView {
            vote: Vote::least(),
            committed: None,
            purged_next: 0,
            log: Seq::empty(),
            membership: MembershipStateView {
                committed: EffectiveMembershipView::none(),
                effective: EffectiveMembershipView::none(),
            },
            snapshot: SnapshotView {
                last_log_id: None,
                last_membership: EffectiveMembershipView::none(),
                snapshot_id: Seq::empty(),
            },
            server_state: ServerState::Learner,
            purge_upto: None,
        }
    }
}

impl<NID: NodeId, N: Node> Default for RaftState<NID, N> {
    fn default() -> (r: Self)
        ensures
            r@ == RaftStateView::<NID, N::V>::pristine(),
            r@.valid(),
    {
        let r = RaftState {
            vote: Vote::default(),
            committed: None,
            purged_next: 0,
            log_ids: LogIdList::empty(),
            membership_state: MembershipState::default(),
            snapshot_meta: SnapshotMeta {
                last_log_id: None,
                last_membership: EffectiveMembership::default(),
                snapshot_id: String::new(),
            },
            server_state: ServerState::Learner,
            purge_upto: None,
        };
        assert(r@ =~= RaftStateView::<NID, N::V>::pristine());
        proof {
            reveal(positions_agree);
        }
        r
    }
}

} // verus!
