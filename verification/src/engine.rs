//! The engine: the complete Raft algorithm of a node, without any I/O.

use crate::command::{Command, CommandView, EngineOutput, OutputView};
use crate::config::EngineConfig;
use crate::entry::{entry_view, entry_views, ids_of, EntryView, RaftEntry};
use crate::handler::following_handler::FollowingHandler;
use crate::handler::log_handler::LogHandler;
use crate::handler::replication_handler::ReplicationHandler;
use crate::handler::server_state_handler::ServerStateHandler;
use crate::handler::snapshot_handler::SnapshotHandler;
use crate::handler::vote_handler::VoteHandler;
use crate::leader::InternalServerState;
use crate::log_id::{
    cut_at, holds, id_at, index_after, next_index, opt_is_before, opt_precedes, LogId,
};
use crate::membership::{EffectiveMembership, EffectiveMembershipView, Membership, MembershipView};
use crate::message::{
    AppendEntriesResponse, InitializeError, NotAMembershipEntry, NotAllowed, NotInMembers,
    RejectVoteRequest, VoteRequest, VoteResponse,
};
use crate::node::{same_id, Node, NodeId};
use crate::request::shows_log;
use crate::raft_state::{RaftState, RaftStateView, ServerState, SnapshotMeta, SnapshotView};
use crate::view::{engine_view, EngineView, LeadingView, LocalView};
use crate::vote::Vote;
use vstd::prelude::*;

verus! {

impl<NID: NodeId, M> EngineView<NID, M> {
    /// What a node that leads works on.
    pub open spec fn leading(self) -> LeadingView<NID, M> {
        LeadingView { local: self.local, leader: self.leader->0 }
    }

    /// The engine after a node that leads has done some work.
    pub open spec fn led(self, l: LeadingView<NID, M>) -> Self {
        EngineView { local: l.local, leader: Some(l.leader), ..self }
    }

    /// A command is queued.
    pub open spec fn commanded(self, c: CommandView<NID, M>) -> Self {
        EngineView { local: LocalView { output: self.local.output.push(c), ..self.local }, ..self }
    }

    /// The node starts: a node that was leader goes on as leader at once; any other is
    /// follower if it votes, and learner otherwise.
    pub open spec fn started_up(self) -> Self {
        let id = self.config.id;
        if self.local.state.is_leader(id) {
            let e = self.took_side();
            e.led(e.leading().streams_rebuilt(self.config).replication_initiated(self.config))
        } else {
            let server_state = if self.local.state.is_voter(id) {
                ServerState::Follower
            } else {
                ServerState::Learner
            };
            EngineView {
                local: LocalView {
                    state: RaftStateView { server_state, ..self.local.state },
                    ..self.local
                },
                ..self
            }
        }
    }

    /// A quorum has granted the vote: the node is leader. Replication is set up before the
    /// first entry of the new leader is appended, since that entry may be committed at once.
    #[verifier::opaque]
    pub open spec fn leader_established(self) -> Self {
        let e = self.saw_vote(self.local.state.vote.granted());
        e.led(
            e.leading().streams_rebuilt(self.config).blank_appended(
                self.config,
            ).replication_initiated(self.config),
        )
    }

    /// The node votes for itself in the next term.
    pub open spec fn stood(self) -> Self {
        let e = self.saw_vote(
            Vote {
                term: (self.local.state.vote.term + 1) as u64,
                node_id: self.config.id,
                committed: false,
            },
        );
        EngineView { leader: Some((e.leader->0).granted(self.config.id)), ..e }
    }

    /// The node can stand for election: there is a next term, and room for the first entry of
    /// a new leader if it is to become leader at once.
    pub open spec fn can_stand(self) -> bool {
        &&& self.local.state.vote.term < u64::MAX
        &&& (self.stood().leader->0).is_granted() ==> next_index(self.local.state.last_log_id())
            < u64::MAX
    }

    /// The node stands for election. If its own vote is a quorum it is leader at once;
    /// otherwise it asks the other nodes for their votes.
    #[verifier::opaque]
    pub open spec fn elected(self) -> Self {
        let e = self.stood();
        if (e.leader->0).is_granted() {
            e.leader_established()
        } else {
            let asked = e.commanded(
                CommandView::SendVote {
                    vote_req: VoteRequest {
                        vote: e.local.state.vote,
                        last_log_id: e.local.state.last_log_id(),
                    },
                },
            );
            EngineView { local: asked.local.role_updated(self.config.id), ..asked }.commanded(
                CommandView::InstallElectionTimer { can_be_leader: true },
            )
        }
    }
}

impl<NID: NodeId, M> RaftStateView<NID, M> {
    /// Nothing is stored: there is no log and the vote is the least one.
    pub open spec fn is_pristine(self) -> bool {
        self.last_log_id() is None && self.vote == Vote::<NID>::least()
    }

    /// The ids of the next `n` entries that this node proposes.
    pub open spec fn next_ids(self, n: int) -> Seq<LogId<NID>> {
        Seq::new(
            n as nat,
            |i: int|
                LogId {
                    leader_id: self.vote.leader(),
                    index: (next_index(self.last_log_id()) + i) as u64,
                },
        )
    }
}

impl<NID: NodeId, M> EngineView<NID, M> {
    /// Entries with these ids, which came with the event, are appended to the log.
    pub open spec fn entries_taken(self, ids: Seq<LogId<NID>>) -> Self {
        EngineView {
            local: LocalView {
                state: RaftStateView { log: self.local.state.log + ids, ..self.local.state },
                ..self.local
            },
            ..self
        }.commanded(CommandView::AppendInputEntries { from: 0, to: ids.len() as int })
    }

    /// The cluster is initialized: its membership comes into force, and the node stands for
    /// election.
    pub open spec fn initialized(self, id: LogId<NID>, m: MembershipView<NID, M>) -> Self {
        let em = EffectiveMembershipView { log_id: Some(id), membership: m };
        let e = self.entries_taken(seq![id]);
        let in_force = EngineView {
            local: LocalView {
                state: RaftStateView {
                    membership: e.local.state.membership.appended(em),
                    ..e.local.state
                },
                ..e.local
            },
            ..e
        }.commanded(CommandView::UpdateMembership { membership: em });
        EngineView {
            local: in_force.local.role_updated(self.config.id),
            ..in_force
        }.commanded(CommandView::MoveInputCursorBy { n: 1 }).elected()
    }

    /// The cluster is to be initialized with an entry that holds a membership, or none. If the
    /// node is pristine the entry is appended; the rest happens only if this node is a voter
    /// of the membership.
    pub open spec fn initialize_tried(self, membership: Option<MembershipView<NID, M>>) -> Self {
        let id = self.local.state.next_ids(1)[0];
        if !self.local.state.is_pristine() {
            self
        } else {
            match membership {
                Some(m) if m.voters().contains(self.config.id) => self.initialized(id, m),
                _ => self.entries_taken(seq![id]),
            }
        }
    }

    /// The vote that a candidate asks for is granted: the log of the candidate reaches at
    /// least as far as the log of this node, and the vote is not less than the vote of this
    /// node.
    pub open spec fn grants(self, req: VoteRequest<NID>) -> bool {
        &&& !opt_precedes(req.last_log_id, self.local.state.last_log_id())
        &&& !req.vote.precedes(self.local.state.vote)
    }

    /// A candidate asks for a vote.
    pub open spec fn vote_requested(self, req: VoteRequest<NID>) -> Self {
        if self.grants(req) {
            self.saw_vote(req.vote)
        } else {
            self
        }
    }

    /// The answer of a node to a request for its vote can be handled. While this node leads,
    /// no node grants a vote that is less than the vote of this node, and none refuses one
    /// to a node that is no voter. If the answer completes a quorum, the vote of this node is
    /// still for itself, and there is room for the first entry of a new leader.
    pub open spec fn takes_answer(self, target: NID, resp: VoteResponse<NID>) -> bool {
        let s = self.local.state;
        self.leader matches Some(l) ==> {
            &&& resp.vote.precedes(s.vote) ==> !resp.vote_granted
            &&& !resp.vote_granted ==> s.is_voter(self.config.id)
            &&& resp.vote_granted && l.granted(target).is_granted() ==> s.is_leading(
                self.config.id,
            ) && next_index(s.last_log_id()) < u64::MAX
        }
    }

    /// A node answers the request for its vote. An answer that comes when this node no longer
    /// leads counts for nothing. A granted vote makes this node leader if it completes a
    /// quorum. After a refusal, the node stores the vote that it is refused by if that is
    /// greater than its own, and tries again after some time; later if the other node has
    /// the longer log.
    pub open spec fn vote_answered(self, target: NID, resp: VoteResponse<NID>) -> Self {
        let s = self.local.state;
        match self.leader {
            None => self,
            Some(l) => if resp.vote_granted {
                let e = EngineView { leader: Some(l.granted(target)), ..self };
                if l.granted(target).is_granted() {
                    e.leader_established()
                } else {
                    e
                }
            } else {
                let e = if s.vote.precedes(resp.vote) {
                    EngineView {
                        local: LocalView {
                            state: RaftStateView { vote: resp.vote, ..s },
                            ..self.local
                        },
                        ..self
                    }.commanded(CommandView::SaveVote { vote: resp.vote })
                } else {
                    self
                };
                e.commanded(
                    CommandView::InstallElectionTimer {
                        can_be_leader: !opt_precedes(s.last_log_id(), resp.last_log_id),
                    },
                )
            },
        }
    }

    /// Clients can propose `n` entries to this node: it leads, and there is room for them.
    pub open spec fn can_propose(self, n: int) -> bool {
        &&& n > 0 ==> self.leader is Some
        &&& next_index(self.local.state.last_log_id()) + n <= u64::MAX
    }

    /// The entries are in the log of a leader. Those before a membership are committed by the
    /// quorums before it, if this node alone is a quorum; those from it on by its own.
    pub open spec fn entries_appended(self, entries: Seq<EntryView<NID, M>>) -> Self {
        if entries.len() == 0 {
            self
        } else {
            let n = entries.len() as int;
            let e = self.entries_taken(ids_of(entries));
            let done = e.leading().absorbed(self.config, entries, n).local_progressed(
                self.config,
                Some(entries.last().log_id),
            ).replication_initiated(self.config);
            e.led(done).commanded(CommandView::MoveInputCursorBy { n })
        }
    }

    /// A leader that is no voter of a committed membership follows.
    pub open spec fn stepped_down(self) -> Self {
        if self.has_to_step_down() {
            self.became_following()
        } else {
            self
        }
    }

    /// The node leads, but the membership in force is committed and does not let it vote.
    pub open spec fn has_to_step_down(self) -> bool {
        let s = self.local.state;
        &&& !opt_precedes(s.committed, s.membership.effective.log_id)
        &&& !s.is_voter(self.config.id)
        &&& s.is_leading(self.config.id)
    }

    /// The snapshot can be taken note of: there is room behind its last entry.
    pub open spec fn takes_snapshot(self, meta: SnapshotView<NID, M>) -> bool {
        self.local.is_newer_snapshot(meta) ==> next_index(meta.last_log_id) <= u64::MAX
    }

    /// The snapshot fits the state: if it covers more than the last one, it ends with an
    /// entry in the log that is committed and not before the last one to be purged.
    pub open spec fn trusts_snapshot(self, meta: SnapshotView<NID, M>) -> bool {
        let s = self.local.state;
        self.local.is_newer_snapshot(meta) ==> {
            &&& holds(s.log, meta.last_log_id->0)
            &&& next_index(s.purge_upto) <= next_index(meta.last_log_id) <= next_index(s.committed)
        }
    }

    /// A snapshot was made. If it covers more than the last one, the log is purged
    /// accordingly; by a node that leads only if nothing that is to go is being sent.
    pub open spec fn snapshot_finished(self, meta: SnapshotView<NID, M>) -> Self {
        if !self.local.is_newer_snapshot(meta) {
            self
        } else {
            let taken = self.local.snapshot_updated(meta);
            let planned = EngineView {
                local: LocalView { state: taken.state.purge_planned(self.config), ..taken },
                ..self
            };
            if self.leader is Some {
                planned.led(planned.leading().purged_if_unused())
            } else {
                EngineView { local: planned.local.purged(), ..planned }
            }
        }
    }

    /// The node accepts a leader with this vote, and has the entry before those that the
    /// leader sends.
    pub open spec fn follows_from(self, vote: Vote<NID>, prev: Option<LogId<NID>>) -> bool {
        &&& !vote.precedes(self.local.state.vote)
        &&& prev matches Some(p) ==> self.local.state.has_log_id(p)
    }

    /// The request of a leader that sends entries can be handled: a leader that is accepted is
    /// another node, and what is missing of what it sends continues the log. In a valid state
    /// that is so if the request shows a part of a log.
    pub open spec fn takes_request(
        self,
        vote: Vote<NID>,
        prev: Option<LogId<NID>>,
        ids: Seq<LogId<NID>>,
    ) -> bool {
        let s = self.local.state;
        &&& next_index(s.last_log_id()) <= u64::MAX
        &&& !vote.precedes(s.vote) ==> vote.node_id != self.config.id
        &&& self.follows_from(vote, prev) ==> s.is_continued_by(ids) || (s.valid() && shows_log(
            prev,
            ids,
        ))
    }

    /// The request of a leader that sends entries fits the state: a leader that is accepted is
    /// another node, and what it sends fits what is here.
    pub open spec fn trusts_request(
        self,
        vote: Vote<NID>,
        prev: Option<LogId<NID>>,
        ids: Seq<LogId<NID>>,
        leader_committed: Option<LogId<NID>>,
    ) -> bool {
        &&& !vote.precedes(self.local.state.vote) ==> vote.node_id != self.config.id
        &&& self.follows_from(vote, prev) ==> self.local.state.fits_request(
            vote,
            prev,
            ids,
            leader_committed,
        )
    }

    /// The answer to a leader that sends entries.
    pub open spec fn append_response(
        self,
        vote: Vote<NID>,
        prev: Option<LogId<NID>>,
    ) -> AppendEntriesResponse<NID> {
        if vote.precedes(self.local.state.vote) {
            AppendEntriesResponse::HigherVote(self.local.state.vote)
        } else if self.follows_from(vote, prev) {
            AppendEntriesResponse::Success
        } else {
            AppendEntriesResponse::Conflict
        }
    }

    /// A leader sends entries. If its vote is less than the vote of this node, nothing
    /// happens. If the entry before them is not here, the log is cut there. Otherwise the log
    /// is cut at the first entry that is not here, the entries from there on are appended,
    /// and what the leader has committed is committed.
    pub open spec fn entries_received(
        self,
        vote: Vote<NID>,
        prev: Option<LogId<NID>>,
        entries: Seq<EntryView<NID, M>>,
        leader_committed: Option<LogId<NID>>,
    ) -> Self {
        let id = self.config.id;
        let ids = ids_of(entries);
        let e = self.saw_vote(vote);
        if vote.precedes(self.local.state.vote) {
            self
        } else if !self.follows_from(vote, prev) {
            EngineView { local: e.local.truncated(id, prev->0.index as int), ..e }
        } else {
            let since = e.local.state.first_missing(ids, 0);
            let stored = if since < ids.len() {
                e.local.truncated(id, ids[since].index as int).appended(id, entries, since)
            } else {
                e.local
            };
            EngineView { local: stored.follower_committed(leader_committed, prev, ids), ..e }
        }
    }
}

impl<NID: NodeId, M> LeadingView<NID, M> {
    /// The first `n` of the entries that a leader has appended take effect. Before a
    /// membership comes into force, the entries before it count as stored on this node.
    pub open spec fn absorbed(
        self,
        config: EngineConfig<NID>,
        entries: Seq<EntryView<NID, M>>,
        n: int,
    ) -> Self
        decreases n,
    {
        if n <= 0 {
            self
        } else {
            let l = self.absorbed(config, entries, n - 1);
            let EntryView { log_id, membership } = entries[n - 1];
            match membership {
                None => l,
                Some(m) => (if log_id.index > 0 {
                    l.local_progressed(config, id_at(l.local.state.log, log_id.index - 1))
                } else {
                    l
                }).membership_appended(config, log_id, m),
            }
        }
    }
}

/// The Raft algorithm of one node. It performs no I/O: it updates its own state, and queues
/// commands by which a runtime makes the change durable and talks to other nodes.
#[derive(Debug, PartialEq, Eq)]
pub struct Engine<NID: NodeId, N: Node> {
    pub config: EngineConfig<NID>,
    /// The state of this node.
    pub state: RaftState<NID, N>,
    /// Whether the node leads or follows.
    pub internal_server_state: InternalServerState<NID>,
    /// What is queued for the runtime.
    pub output: EngineOutput<NID, N>,
}

impl<NID: NodeId, N: Node> View for Engine<NID, N> {
    type V = EngineView<NID, N::V>;

    open spec fn view(&self) -> EngineView<NID, N::V> {
        engine_view(self.config, self.state, self.output, self.internal_server_state)
    }
}

impl<NID: NodeId, N: Node> Clone for Engine<NID, N> {
    fn clone(&self) -> (r: Self)
        ensures
            r@ == self@,
    {
        Engine {
            config: self.config,
            state: self.state.clone(),
            internal_server_state: self.internal_server_state.clone(),
            output: self.output.clone(),
        }
    }
}

impl<NID: NodeId, N: Node> Default for Engine<NID, N> {
    fn default() -> (r: Self)
        ensures
            r@.config.id == NID::default_spec(),
            r@.config.max_in_snapshot_log_to_keep == 1000,
            r@.config.purge_batch_size == 256,
            r@.config.max_payload_entries == 300,
            r@.local == (LocalView {
                state: RaftStateView::<NID, N::V>::pristine(),
                output: OutputView::<NID, N::V>::none(),
            }),
            r@.leader is None,
            r@.valid(),
            r@.in_step(),
    {
        Engine::new(RaftState::default(), EngineConfig::default())
    }
}

impl<NID: NodeId, N: Node> Engine<NID, N> {
    /// Makes an engine that follows and has nothing queued.
    pub fn new(init_state: RaftState<NID, N>, config: EngineConfig<NID>) -> (r: Self)
        ensures
            r@ == (EngineView {
                config,
                local: LocalView { state: init_state@, output: OutputView::none() },
                leader: None,
            }),
            r@.valid() <==> init_state@.valid(),
            r@.in_step(),
    {
        Engine {
            config,
            state: init_state,
            internal_server_state: InternalServerState::default(),
            output: EngineOutput::default(),
        }
    }

    /// Starts the node: as leader if it was leader, as follower or learner otherwise.
    pub fn startup(&mut self)
        requires
            old(self)@.valid(),
        ensures
            final(self)@ == old(self)@.started_up(),
            final(self)@.valid(),
            old(self)@.in_step() ==> final(self)@.in_step(),
    {
        proof {
            if self@.in_step() {
                self@.lemma_startup_leads();
            }
        }
        if self.state.is_leader(&self.config.id) {
            proof {
                self@.local.state.lemma_positions();
                self@.lemma_took_side();
            }
            self.vote_handler().update_internal_server_state();
            proof {
                self@.leading().lemma_streams_rebuilt(self.config);
                self@.leading().streams_rebuilt(self.config).lemma_replication_initiated(
                    self.config,
                );
            }
            let mut rh = self.replication_handler();
            rh.rebuild_replication_streams();
            rh.initiate_replication();
            return;
        }
        self.state.server_state = if self.state.is_voter(&self.config.id) {
            ServerState::Follower
        } else {
            ServerState::Learner
        };
    }

    /// Initializes the cluster with its first entry, which has to hold a membership with this
    /// node among the voters. The node has to be pristine. Unlike other entries, the first
    /// one is not proposed by a leader: afterwards the node stands for election.
    ///
    /// The entry gets its id and is queued to be appended before its content is looked at, so
    /// an error about the content leaves it so.
    pub fn initialize<Ent: RaftEntry<NID, N>>(&mut self, entries: &mut [Ent]) -> (r: Result<
        (),
        InitializeError<NID, N>,
    >)
        requires
            old(self)@.valid(),
            old(entries)@.len() == 1,
        ensures
            final(self)@ == old(self)@.initialize_tried(old(entries)@[0].membership()),
            final(self)@.valid(),
            old(self)@.in_step() ==> final(self)@.in_step(),
            final(entries)@ == (if old(self)@.local.state.is_pristine() {
                seq![old(entries)@[0].with_log_id(old(self)@.local.state.next_ids(1)[0])]
            } else {
                old(entries)@
            }),
            ({
                let s = old(self)@.local.state;
                let m = old(entries)@[0].membership();
                let me = old(self)@.config.id;
                match r {
                    Ok(()) => s.is_pristine() && (m matches Some(m) && m.voters().contains(me)),
                    Err(InitializeError::NotAllowed(e)) => !s.is_pristine() && e == (NotAllowed {
                        last_log_id: s.last_log_id(),
                        vote: s.vote,
                    }),
                    Err(InitializeError::NotInMembers(e)) => s.is_pristine() && (m matches Some(m)
                        && !m.voters().contains(me) && e.node_id == me && e.membership@ == m),
                    Err(InitializeError::NotAMembershipEntry(_)) => s.is_pristine() && m is None,
                }
            }),
    {
        proof {
            if self@.in_step() {
                self@.lemma_initialize_leads(entries@[0].membership());
            }
        }
        match self.check_initialize() {
            Ok(()) => {},
            Err(e) => {
                return Err(InitializeError::NotAllowed(e));
            },
        }
        let ghost s = self@.local.state;
        let ghost id = s.next_ids(1)[0];
        self.take_entries(entries);
        proof {
            old(entries)@[0].with_log_id_changes_only_id(id);
            assert(s.next_ids(1) =~= seq![id]);
            assert(entries@ =~= seq![old(entries)@[0].with_log_id(id)]);
        }
        match entries[0].get_membership() {
            Some(m) => {
                match self.check_members_contain_me(m) {
                    Ok(()) => {},
                    Err(e) => {
                        return Err(InitializeError::NotInMembers(e));
                    },
                }
                let em = EffectiveMembership::new(Some(*entries[0].get_log_id()), m.clone());
                self.output.push_command(Command::UpdateMembership { membership: em.clone() });
                self.state.membership_state.append(em);
                self.server_state_handler().update_server_state_if_changed();
            },
            None => {
                return Err(InitializeError::NotAMembershipEntry(NotAMembershipEntry {  }));
            },
        }
        self.output.push_command(Command::MoveInputCursorBy { n: 1 });
        self.elect();
        Ok(())
    }

    /// Appends entries that clients propose to this leader, gives them their ids, and commits
    /// what this node alone can commit. If there is a membership among the entries, the
    /// caller has to see to it that the one before it is committed.
    pub fn leader_append_entries<Ent: RaftEntry<NID, N>>(&mut self, entries: &mut [Ent])
        requires
            old(self)@.valid(),
            old(self)@.can_propose(old(entries)@.len() as int),
        ensures
            final(entries)@.len() == old(entries)@.len(),
            forall|i: int|
                0 <= i < old(entries)@.len() ==> #[trigger] final(entries)@[i] == old(
                    entries,
                )@[i].with_log_id(
                    old(self)@.local.state.next_ids(old(entries)@.len() as int)[i],
                ),
            final(self)@ == old(self)@.entries_appended(
                entry_views::<NID, N, Ent>(final(entries)@),
            ),
            final(self)@.valid(),
            old(self)@.in_step() ==> final(self)@.in_step(),
    {
        let l = entries.len();
        if l == 0 {
            return;
        }
        let ghost s = self@.local.state;
        let ghost ids = s.next_ids(l as int);
        self.take_entries(entries);
        let ghost views = entry_views::<NID, N, Ent>(entries@);
        assert(ids_of(views) == ids);
        let ghost e = self@;
        proof {
            if old(self)@.in_step() {
                let memberships = Seq::new(views.len(), |i: int| views[i].membership);
                assert forall|i: int| 0 <= i < l implies views[i].log_id == ids[i] by {
                    assert(ids_of(views)[i] == views[i].log_id);
                }
                assert(old(self)@.proposed(memberships) =~= views);
                old(self)@.lemma_proposed_leads(memberships);
            }
        }
        self.absorb_entries(entries);
        proof {
            e.leading().lemma_absorbed_log(e.config, views, l as int);
            assert(self@.local.state.log == s.log + ids);
            assert(views.last().log_id == ids.last());
            self@.local.state.lemma_positions();
            crate::validity::lemma_last_held(self@.local.state.log);
        }
        self.finish_append(*entries[l - 1].get_log_id());
        self.output.push_command(Command::MoveInputCursorBy { n: l });
    }

    /// Gives the entries their ids and appends them to the log.
    fn take_entries<Ent: RaftEntry<NID, N>>(&mut self, entries: &mut [Ent])
        requires
            old(self)@.valid(),
            next_index(old(self)@.local.state.last_log_id()) + old(entries)@.len() <= u64::MAX,
        ensures
            final(entries)@.len() == old(entries)@.len(),
            forall|i: int|
                0 <= i < old(entries)@.len() ==> #[trigger] final(entries)@[i] == old(
                    entries,
                )@[i].with_log_id(
                    old(self)@.local.state.next_ids(old(entries)@.len() as int)[i],
                ),
            ids_of(entry_views::<NID, N, Ent>(final(entries)@)) == old(self)@.local.state.next_ids(
                old(entries)@.len() as int,
            ),
            final(self)@ == old(self)@.entries_taken(
                old(self)@.local.state.next_ids(old(entries)@.len() as int),
            ),
            final(self)@.valid(),
    {
        let l = entries.len();
        let ghost s = self@.local.state;
        let ghost ids = s.next_ids(l as int);
        self.assign_log_ids(entries);
        let ghost views = entry_views::<NID, N, Ent>(entries@);
        proof {
            s.lemma_positions();
            assert forall|i: int| 0 <= i < l implies ids_of(views)[i] == ids[i] by {
                old(entries)@[i].with_log_id_changes_only_id(ids[i]);
            }
            assert(ids_of(views) =~= ids);
            s.lemma_next_ids(l as int);
            assert(ids.skip(0) =~= ids);
            crate::log_id::lemma_leader_order_is_total(s.vote.leader(), s.vote.leader());
            s.lemma_log_extended(ids);
            self@.lemma_log_extended_by(ids);
        }
        self.state.extend_log_ids(entries, 0);
        self.output.push_command(Command::AppendInputEntries { range: 0..l });
    }

    /// Lets the memberships among the entries that this leader has appended take effect.
    fn absorb_entries<Ent: RaftEntry<NID, N>>(&mut self, entries: &[Ent])
        requires
            old(self)@.valid(),
            old(self)@.leader is Some,
        ensures
            final(self)@ == old(self)@.led(
                old(self)@.leading().absorbed(
                    old(self)@.config,
                    entry_views::<NID, N, Ent>(entries@),
                    entries@.len() as int,
                ),
            ),
            final(self)@.valid(),
    {
        let ghost views = entry_views::<NID, N, Ent>(entries@);
        let ghost e = self@;
        let l = entries.len();
        let mut i: usize = 0;
        assert(self@ =~= e.led(e.leading().absorbed(e.config, views, 0)));
        while i < l
            invariant
                i <= l,
                l == entries@.len(),
                views == entry_views::<NID, N, Ent>(entries@),
                e.leader is Some,
                self@ == e.led(e.leading().absorbed(e.config, views, i as int)),
                self@.valid(),
            decreases l - i,
        {
            assert(views[i as int] == entry_view::<NID, N, Ent>(entries@[i as int]));
            match entries[i].get_membership() {
                Some(m) => {
                    let log_id = *entries[i].get_log_id();
                    if log_id.index > 0 {
                        let prev_log_id = self.state.get_log_id(log_id.index - 1);
                        proof {
                            self@.local.state.lemma_positions();
                            crate::validity::lemma_id_at_held(
                                self@.local.state.log,
                                log_id.index - 1,
                            );
                            self@.leading().lemma_local_progressed(self.config, prev_log_id);
                        }
                        self.replication_handler().update_local_progress(prev_log_id);
                    }
                    proof {
                        self@.leading().lemma_bounded();
                        self@.leading().lemma_membership_appended(self.config, log_id, m@);
                    }
                    self.replication_handler().append_membership(&log_id, m);
                },
                None => {},
            }
            assert(self@ =~= e.led(e.leading().absorbed(e.config, views, i + 1)));
            i += 1;
        }
    }

    /// Takes note that this leader has stored its log up to `last`, and sends it on.
    fn finish_append(&mut self, last: LogId<NID>)
        requires
            old(self)@.valid(),
            old(self)@.leader is Some,
            holds(old(self)@.local.state.log, last),
        ensures
            final(self)@ == old(self)@.led(
                old(self)@.leading().local_progressed(
                    old(self)@.config,
                    Some(last),
                ).replication_initiated(old(self)@.config),
            ),
            final(self)@.valid(),
    {
        proof {
            self@.local.state.lemma_positions();
            self@.leading().lemma_local_progressed(self.config, Some(last));
            let done = self@.leading().local_progressed(self.config, Some(last));
            done.lemma_bounded();
            done.lemma_replication_initiated(self.config);
        }
        let mut rh = self.replication_handler();
        rh.update_local_progress(Some(last));
        rh.initiate_replication();
    }

    /// Appends entries that a leader sends, and commits what the leader has committed.
    /// Entries that are in conflict with those of the leader are deleted first.
    #[verifier::rlimit(30)]
    pub fn handle_append_entries_req<Ent: RaftEntry<NID, N>>(
        &mut self,
        vote: &Vote<NID>,
        prev_log_id: Option<LogId<NID>>,
        entries: &[Ent],
        leader_committed: Option<LogId<NID>>,
    ) -> (r: AppendEntriesResponse<NID>)
        requires
            old(self)@.takes_request(
                *vote,
                prev_log_id,
                ids_of(entry_views::<NID, N, Ent>(entries@)),
            ),
        ensures
            r == old(self)@.append_response(*vote, prev_log_id),
            final(self)@ == old(self)@.entries_received(
                *vote,
                prev_log_id,
                entry_views::<NID, N, Ent>(entries@),
                leader_committed,
            ),
            r is HigherVote ==> final(self)@ == old(self)@,
            r !is HigherVote ==> final(self)@.local.state.vote == *vote && final(self)@.leader
                is None,
            old(self)@.valid() && r is Conflict ==> final(self)@.local.state.log == cut_at(
                old(self)@.local.state.log,
                prev_log_id->0.index as int,
            ),
            old(self)@.valid() && r is Success && shows_log(
                prev_log_id,
                ids_of(entry_views::<NID, N, Ent>(entries@)),
            ) ==> final(self)@.local.state.log == old(self)@.local.state.log_after(
                ids_of(entry_views::<NID, N, Ent>(entries@)),
            ),
            old(self)@.valid() && shows_log(
                prev_log_id,
                ids_of(entry_views::<NID, N, Ent>(entries@)),
            ) ==> {
                let (s, t) = (old(self)@.local.state, final(self)@.local.state);
                &&& !opt_precedes(t.committed, s.committed)
                &&& forall|i: int|
                    i < next_index(s.committed) ==> #[trigger] id_at(t.log, i) == id_at(s.log, i)
            },
            old(self)@.valid() && old(self)@.trusts_request(
                *vote,
                prev_log_id,
                ids_of(entry_views::<NID, N, Ent>(entries@)),
                leader_committed,
            ) ==> final(self)@.valid(),
            old(self)@.in_step() ==> final(self)@.in_step(),
    {
        let ghost views = entry_views::<NID, N, Ent>(entries@);
        let ghost ids = ids_of(views);
        proof {
            let e = self@;
            e.lemma_append_answered(*vote, prev_log_id, views, leader_committed);
            crate::vote::lemma_vote_order_is_total(*vote, e.local.state.vote);
            if e.valid() && shows_log(prev_log_id, ids) {
                e.law_committed_entries_survive(*vote, prev_log_id, views, leader_committed);
            }
            if e.valid() && e.trusts_request(*vote, prev_log_id, ids, leader_committed) {
                e.lemma_entries_received(*vote, prev_log_id, views, leader_committed);
            }
            if e.follows_from(*vote, prev_log_id) {
                if e.local.state.valid() && shows_log(prev_log_id, ids) {
                    e.local.state.lemma_request_continues(prev_log_id, ids);
                }
                e.local.state.lemma_same_missing(e.saw_vote(*vote).local.state, ids, 0);
                e.local.state.lemma_first_missing(ids, 0);
            }
        }
        match self.vote_handler().handle_message_vote(vote) {
            Ok(()) => {},
            Err(rejected) => {
                return match rejected {
                    RejectVoteRequest::ByVote(v) => AppendEntriesResponse::HigherVote(v),
                    RejectVoteRequest::ByLastLogId(_) => vstd::pervasive::unreached(),
                };
            },
        }
        assert(self@ == old(self)@.saw_vote(*vote));
        match prev_log_id {
            Some(prev) => {
                if !self.state.has_log_id(&prev) {
                    self.following_handler().truncate_logs(prev.index);
                    return AppendEntriesResponse::Conflict;
                }
            },
            None => {},
        }
        let l = entries.len();
        let since = self.state.first_conflicting_index(entries);
        if since < l {
            assert(ids[since as int] == entries@[since as int].log_id());
            let at = entries[since].get_log_id().index;
            self.following_handler().truncate_logs(at);
            proof {
                reveal(LocalView::truncated);
            }
            self.following_handler().follower_do_append_entries(entries, since);
        }
        self.following_handler().follower_commit_entries(leader_committed, prev_log_id, entries);
        AppendEntriesResponse::Success
    }

    /// Whether a request to append entries can be handled.
    pub fn can_take_request<Ent: RaftEntry<NID, N>>(
        &self,
        vote: &Vote<NID>,
        prev_log_id: &Option<LogId<NID>>,
        entries: &[Ent],
    ) -> (r: bool)
        ensures
            r == self@.takes_request(
                *vote,
                *prev_log_id,
                ids_of(entry_views::<NID, N, Ent>(entries@)),
            ),
    {
        let ghost ids = ids_of(entry_views::<NID, N, Ent>(entries@));
        let has_room = match self.state.last_log_id() {
            Some(id) => id.index < u64::MAX,
            None => true,
        };
        if !has_room || vote.is_before(&self.state.vote) {
            return has_room;
        }
        let has_prev = match prev_log_id {
            Some(prev) => self.state.has_log_id(prev),
            None => true,
        };
        proof {
            let s = self@.local.state;
            if has_prev && s.valid() && shows_log(*prev_log_id, ids) {
                s.lemma_request_continues(*prev_log_id, ids);
            }
        }
        !same_id(&vote.node_id, &self.config.id) && (!has_prev || self.state.is_log_continued(
            entries,
        ))
    }

    /// Whether a request to append entries fits the state, so that it is valid afterwards if
    /// it was before.
    pub fn can_trust_request<Ent: RaftEntry<NID, N>>(
        &self,
        vote: &Vote<NID>,
        prev_log_id: &Option<LogId<NID>>,
        entries: &[Ent],
        leader_committed: &Option<LogId<NID>>,
    ) -> (r: bool)
        ensures
            r == self@.trusts_request(
                *vote,
                *prev_log_id,
                ids_of(entry_views::<NID, N, Ent>(entries@)),
                *leader_committed,
            ),
    {
        if vote.is_before(&self.state.vote) {
            return true;
        }
        let has_prev = match prev_log_id {
            Some(prev) => self.state.has_log_id(prev),
            None => true,
        };
        !same_id(&vote.node_id, &self.config.id) && (!has_prev || self.state.is_request_fit(
            vote,
            prev_log_id,
            entries,
            leader_committed,
        ))
    }

    /// Takes office: a quorum has granted the vote.
    pub fn establish_leader(&mut self)
        requires
            old(self)@.valid(),
            old(self)@.local.state.is_leading(old(self)@.config.id),
            next_index(old(self)@.local.state.last_log_id()) < u64::MAX,
        ensures
            final(self)@ == old(self)@.leader_established(),
            old(self)@.in_step() ==> final(self)@.in_step(),
            final(self)@.local.state.vote == old(self)@.local.state.vote.granted(),
            final(self)@.local.state.log == old(self)@.local.state.log.push(
                old(self)@.local.state.next_ids(1)[0],
            ),
            final(self)@.valid(),
    {
        proof {
            self@.law_office_opens_with_blank();
            if self@.in_step() {
                self@.lemma_leader_established_leads();
            }
            reveal(EngineView::leader_established);
            self@.local.state.lemma_positions();
            self@.lemma_saw_vote(self@.local.state.vote.granted());
        }
        self.vote_handler().commit_vote();
        proof {
            let l = self@.leading();
            l.lemma_streams_rebuilt(self.config);
            l.streams_rebuilt(self.config).lemma_blank_appended(self.config);
            let b = l.streams_rebuilt(self.config).blank_appended(self.config);
            b.lemma_bounded();
            b.lemma_replication_initiated(self.config);
        }
        let mut rh = self.replication_handler();
        rh.rebuild_replication_streams();
        rh.append_blank_log();
        rh.initiate_replication();
    }

    /// Stands for election.
    pub fn elect(&mut self)
        requires
            old(self)@.valid(),
            old(self)@.can_stand(),
        ensures
            final(self)@ == old(self)@.elected(),
            old(self)@.in_step() ==> final(self)@.in_step(),
            final(self)@.local.state.vote == (Vote {
                term: (old(self)@.local.state.vote.term + 1) as u64,
                node_id: old(self)@.config.id,
                committed: (old(self)@.stood().leader->0).is_granted(),
            }),
            final(self)@.valid(),
    {
        let vote = Vote::new(self.state.vote.term + 1, self.config.id);
        proof {
            if self@.in_step() {
                self@.lemma_elected_leads();
            }
            reveal(EngineView::elected);
            self@.local.state.lemma_positions();
            self@.lemma_saw_vote(vote);
            crate::vote::lemma_vote_order_is_total(self@.local.state.vote, vote);
        }
        let r = self.vote_handler().handle_message_vote(&vote);
        assert(r is Ok);
        let mut quorum_granted = false;
        match &mut self.internal_server_state {
            InternalServerState::Leading(leader) => {
                leader.grant_vote_by(self.config.id);
                quorum_granted = leader.is_vote_granted();
            },
            InternalServerState::Following => {},
        }
        assert(self@ =~= old(self)@.stood());
        if quorum_granted {
            self.establish_leader();
            return;
        }
        let vote_req = VoteRequest { vote: self.state.vote, last_log_id: self.state.last_log_id() };
        self.output.push_command(Command::SendVote { vote_req });
        self.server_state_handler().update_server_state_if_changed();
        self.output.push_command(Command::InstallElectionTimer { can_be_leader: true });
    }

    /// Answers a candidate that asks for a vote. The vote is granted if the log of the
    /// candidate reaches at least as far as the log of this node, and the vote is not less
    /// than the vote of this node. The answer carries the vote that this node has then.
    pub fn handle_vote_req(&mut self, req: VoteRequest<NID>) -> (r: VoteResponse<NID>)
        requires
            old(self)@.valid(),
        ensures
            r.vote_granted <==> old(self)@.grants(req),
            r.vote_granted <==> !opt_precedes(
                req.last_log_id,
                old(self)@.local.state.last_log_id(),
            ) && !req.vote.precedes(old(self)@.local.state.vote),
            final(self)@ == old(self)@.vote_requested(req),
            r.vote == final(self)@.local.state.vote,
            r.vote_granted ==> r.vote == req.vote,
            r.last_log_id == final(self)@.local.state.last_log_id(),
            final(self)@.valid(),
            old(self)@.in_step() ==> final(self)@.in_step(),
    {
        proof {
            if self@.in_step() {
                self@.lemma_saw_vote_in_step(req.vote);
            }
            self@.local.state.lemma_positions();
            self@.lemma_saw_vote(req.vote);
            crate::vote::lemma_vote_order_is_total(self@.local.state.vote, req.vote);
        }
        let last_log_id = self.state.last_log_id();
        let res = if opt_is_before(&req.last_log_id, &last_log_id) {
            Err(RejectVoteRequest::ByLastLogId(last_log_id))
        } else {
            self.vote_handler().handle_message_vote(&req.vote)
        };
        let vote_granted = res.is_ok();
        VoteResponse {
            vote: self.state.vote,
            vote_granted,
            last_log_id: self.state.last_log_id(),
        }
    }

    /// Takes note of the answer to a request for a vote.
    pub fn handle_vote_resp(&mut self, target: NID, resp: VoteResponse<NID>)
        requires
            old(self)@.valid(),
            old(self)@.takes_answer(target, resp),
        ensures
            final(self)@ == old(self)@.vote_answered(target, resp),
            final(self)@.valid(),
            old(self)@.in_step() ==> final(self)@.in_step(),
    {
        proof {
            if self@.in_step() {
                self@.lemma_vote_answered_leads(target, resp);
            }
        }
        let mut quorum_granted = false;
        match &mut self.internal_server_state {
            InternalServerState::Leading(leader) => {
                if resp.vote_granted {
                    leader.grant_vote_by(target);
                    quorum_granted = leader.is_vote_granted();
                }
            },
            InternalServerState::Following => {
                return;
            },
        }
        if resp.vote_granted {
            if quorum_granted {
                self.establish_leader();
            }
            return;
        }
        if self.state.vote.is_before(&resp.vote) {
            proof {
                self@.local.state.lemma_vote_raised(resp.vote);
            }
            self.state.vote = resp.vote;
            self.output.push_command(Command::SaveVote { vote: resp.vote });
        }
        let can_be_leader = !opt_is_before(&self.state.last_log_id(), &resp.last_log_id);
        self.output.push_command(Command::InstallElectionTimer { can_be_leader });
    }

    /// Steps down if this node leads, but the membership in force is committed and does not
    /// let it vote.
    pub fn leader_step_down(&mut self)
        requires
            old(self)@.valid(),
        ensures
            final(self)@ == old(self)@.stepped_down(),
            final(self)@.valid(),
            old(self)@.in_step() ==> final(self)@.in_step(),
    {
        proof {
            self@.lemma_took_side();
        }
        let em = &self.state.membership_state.effective;
        if !opt_is_before(&self.state.committed, &em.log_id) && !em.is_voter(&self.config.id)
            && self.state.is_leading(&self.config.id) {
            self.vote_handler().become_following();
        }
    }

    /// Takes note of a snapshot that was made, and purges the log accordingly.
    pub fn finish_building_snapshot(&mut self, meta: SnapshotMeta<NID, N>)
        requires
            old(self)@.valid(),
            old(self)@.takes_snapshot(meta@),
        ensures
            final(self)@ == old(self)@.snapshot_finished(meta@),
            old(self)@.trusts_snapshot(meta@) ==> final(self)@.valid(),
            old(self)@.in_step() ==> final(self)@.in_step(),
    {
        proof {
            if self@.trusts_snapshot(meta@) {
                self@.lemma_snapshot_finished(meta@);
            }
            self@.local.state.lemma_positions();
        }
        let updated = self.snapshot_handler().update_snapshot(meta);
        if !updated {
            return;
        }
        self.log_handler().update_purge_upto();
        proof {
            let s = old(self)@.local.snapshot_updated(meta@).state;
            crate::validity::lemma_id_at_held(s.log, s.purgeable_end(self.config) - 1);
            assert(next_index(self@.local.state.purge_upto) <= u64::MAX);
        }
        if self.internal_server_state.is_leading() {
            self.replication_handler().try_purge_log();
        } else {
            self.log_handler().purge_log();
        }
    }

    /// Whether the node can be initialized: only if it has no log and its vote is the least
    /// one.
    pub fn check_initialize(&self) -> (r: Result<(), NotAllowed<NID>>)
        ensures
            r == (if self@.local.state.is_pristine() {
                Ok(())
            } else {
                Err(
                    NotAllowed {
                        last_log_id: self@.local.state.last_log_id(),
                        vote: self@.local.state.vote,
                    },
                )
            }),
    {
        let last_log_id = self.state.last_log_id();
        if last_log_id.is_none() && self.state.vote.is_same(&Vote::default()) {
            return Ok(());
        }
        Err(NotAllowed { last_log_id, vote: self.state.vote })
    }

    /// Whether this node votes in the membership that it is to be initialized with.
    pub fn check_members_contain_me(&self, m: &Membership<NID, N>) -> (r: Result<
        (),
        NotInMembers<NID, N>,
    >)
        ensures
            r is Ok <==> m@.voters().contains(self@.config.id),
            r matches Err(e) ==> e.node_id == self@.config.id && e.membership@ == m@,
    {
        if !m.is_voter(&self.config.id) {
            Err(NotInMembers { node_id: self.config.id, membership: m.clone() })
        } else {
            Ok(())
        }
    }

    /// Gives the entries the ids that follow the last log id, under the leadership that the
    /// vote is for.
    pub fn assign_log_ids<Ent: RaftEntry<NID, N>>(&self, entries: &mut [Ent])
        requires
            next_index(self@.local.state.last_log_id()) + old(entries)@.len() <= u64::MAX,
        ensures
            final(entries)@.len() == old(entries)@.len(),
            forall|i: int|
                0 <= i < old(entries)@.len() ==> #[trigger] final(entries)@[i] == old(
                    entries,
                )@[i].with_log_id(self@.local.state.next_ids(old(entries)@.len() as int)[i]),
    {
        let leader_id = self.state.vote.leader_id();
        let first = index_after(&self.state.last_log_id());
        let n = entries.len();
        let ghost ids = self@.local.state.next_ids(n as int);
        let mut i: usize = 0;
        while i < n
            invariant
                i <= n,
                n == entries@.len(),
                n == old(entries)@.len(),
                first + n <= u64::MAX,
                leader_id == self@.local.state.vote.leader(),
                first == next_index(self@.local.state.last_log_id()),
                ids == self@.local.state.next_ids(n as int),
                forall|k: int|
                    0 <= k < i ==> #[trigger] entries@[k] == old(entries)@[k].with_log_id(ids[k]),
                forall|k: int| i <= k < n ==> #[trigger] entries@[k] == old(entries)@[k],
            decreases n - i,
        {
            let id = LogId::new(leader_id, first + i as u64);
            assert(id == ids[i as int]);
            entries[i].set_log_id(&id);
            i += 1;
        }
    }

    /// The part that the node plays, by its vote and the membership in force.
    pub fn calc_server_state(&self) -> (r: ServerState)
        ensures
            r == self@.local.state.role_of(self@.config.id),
    {
        self.state.calc_server_state(&self.config.id)
    }

    // The handlers borrow the fields of the engine that they need.

    /// Votes, and whether the node leads or follows.
    pub fn vote_handler(&mut self) -> (h: VoteHandler<'_, NID, N>)
        ensures
            h@ == old(self)@,
            final(self).config == old(self).config,
            final(self).state == *final(h.state),
            final(self).output == *final(h.output),
            final(self).internal_server_state == *final(h.internal_server_state),
    {
        VoteHandler {
            config: &self.config,
            state: &mut self.state,
            output: &mut self.output,
            internal_server_state: &mut self.internal_server_state,
        }
    }

    /// Purging.
    pub fn log_handler(&mut self) -> (h: LogHandler<'_, NID, N>)
        ensures
            h@ == old(self)@.local,
            *h.config == old(self).config,
            final(self).config == old(self).config,
            final(self).state == *final(h.state),
            final(self).output == *final(h.output),
            final(self).internal_server_state == old(self).internal_server_state,
    {
        LogHandler { config: &self.config, state: &mut self.state, output: &mut self.output }
    }

    /// Snapshots.
    pub fn snapshot_handler(&mut self) -> (h: SnapshotHandler<'_, NID, N>)
        ensures
            h@ == old(self)@.local,
            final(self).config == old(self).config,
            final(self).state == *final(h.state),
            final(self).output == *final(h.output),
            final(self).internal_server_state == old(self).internal_server_state,
    {
        SnapshotHandler { state: &mut self.state, output: &mut self.output }
    }

    /// The work of a leader. Only for a node that leads.
    pub fn replication_handler(&mut self) -> (h: ReplicationHandler<'_, NID, N>)
        requires
            old(self)@.leader is Some,
        ensures
            h@ == old(self)@.leading(),
            *h.config == old(self).config,
            final(self).config == old(self).config,
            final(self).state == *final(h.state),
            final(self).output == *final(h.output),
            final(self).internal_server_state == InternalServerState::Leading(*final(h.leader)),
    {
        match &mut self.internal_server_state {
            InternalServerState::Leading(leader) => ReplicationHandler {
                config: &self.config,
                leader,
                state: &mut self.state,
                output: &mut self.output,
            },
            InternalServerState::Following => vstd::pervasive::unreached(),
        }
    }

    /// The work of a follower or learner. Only for a node that follows.
    pub fn following_handler(&mut self) -> (h: FollowingHandler<'_, NID, N>)
        requires
            old(self)@.leader is None,
        ensures
            h@ == old(self)@.local,
            *h.config == old(self).config,
            final(self).config == old(self).config,
            final(self).state == *final(h.state),
            final(self).output == *final(h.output),
            final(self).internal_server_state == old(self).internal_server_state,
    {
        FollowingHandler { config: &self.config, state: &mut self.state, output: &mut self.output }
    }

    /// The part that the node plays.
    pub fn server_state_handler(&mut self) -> (h: ServerStateHandler<'_, NID, N>)
        ensures
            h@ == old(self)@.local,
            *h.config == old(self).config,
            final(self).config == old(self).config,
            final(self).state == *final(h.state),
            final(self).output == *final(h.output),
            final(self).internal_server_state == old(self).internal_server_state,
    {
        ServerStateHandler { config: &self.config, state: &mut self.state, output: &mut self.output }
    }
}

} // verus!
