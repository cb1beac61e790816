//! What can be relied on when a node answers requests, makes snapshots and steps down.

use crate::command::CommandView;
use crate::config::EngineConfig;
use crate::entry::{ids_of, EntryView};
use crate::handler::following_handler::{earlier, later};
use crate::log_id::{
    cut_at, fit, holds, id_at, is_log, last_of, lemma_log_id_order_is_total, lemma_log_ids_fit,
    lemma_opt_order, lemma_order_chain, next_index, opt_precedes, LogId,
};
use crate::message::{AppendEntriesResponse, VoteRequest, VoteResponse};
use crate::node::NodeId;
use crate::request::{shown_log, shows_log};
use crate::raft_state::{RaftStateView, ServerState, SnapshotView};
use crate::view::{EngineView, LeadingView, LocalView};
use crate::vote::{lemma_vote_order_is_total, Vote};
use vstd::prelude::*;

verus! {

impl<NID: NodeId, M> RaftStateView<NID, M> {
    /// The ids in the log are in total order: an entry that comes later in the log has the
    /// greater id. So the last id of a log tells how far the log reaches.
    pub proof fn law_log_ids_are_in_order(self, i: int, j: int)
        requires
            self.valid(),
            0 <= i < j < self.log.len(),
        ensures
            self.log[i].precedes(self.log[j]),
            self.log[j].index == self.log[i].index + (j - i),
    {
        self.lemma_positions();
        let (a, b) = (self.log[i], self.log[j]);
        crate::log_id::lemma_leader_order_is_total(a.leader_id, b.leader_id);
    }
}

impl<NID: NodeId, M> EngineView<NID, M> {
    /// A node grants a vote by taking it over as its own, and refuses one without a change.
    pub proof fn law_granted_vote_is_own(self, req: VoteRequest<NID>)
        ensures
            ({
                let after = self.vote_requested(req);
                &&& self.grants(req) ==> after.local.state.vote == req.vote
                &&& !self.grants(req) ==> after == self
                &&& after.local.state.log == self.local.state.log
            }),
    {
        lemma_vote_order_is_total(self.local.state.vote, req.vote);
    }

    /// A node refuses a candidate whose log does not reach as far as its own, whatever the
    /// vote.
    pub proof fn law_shorter_log_is_refused(self, req: VoteRequest<NID>)
        requires
            opt_precedes(req.last_log_id, self.local.state.last_log_id()),
        ensures
            !self.grants(req),
            self.vote_requested(req) == self,
    {
    }

    /// An answer to a request for a vote that comes when the node no longer leads counts for
    /// nothing.
    pub proof fn law_late_answer_is_ignored(self, target: NID, resp: VoteResponse<NID>)
        requires
            self.leader is None,
        ensures
            self.vote_answered(target, resp) == self,
    {
    }

    /// A candidate that is refused stays candidate: all it does is to store a greater vote,
    /// and to wait before it tries again, longer if the other node has the longer log.
    pub proof fn law_refused_candidate_stays(self, target: NID, resp: VoteResponse<NID>)
        requires
            self.leader is Some,
            !resp.vote_granted,
        ensures
            ({
                let after = self.vote_answered(target, resp);
                let greater = self.local.state.vote.precedes(resp.vote);
                &&& after.leader == self.leader
                &&& after.local.state == (RaftStateView {
                    vote: if greater {
                        resp.vote
                    } else {
                        self.local.state.vote
                    },
                    ..self.local.state
                })
                &&& after.local.output.commands.last() == CommandView::<
                    NID,
                    M,
                >::InstallElectionTimer {
                    can_be_leader: !opt_precedes(
                        self.local.state.last_log_id(),
                        resp.last_log_id,
                    ),
                }
            }),
    {
    }

    /// A leader with a lesser vote than that of the node is told so, and changes nothing.
    pub proof fn law_refused_leader_changes_nothing(
        self,
        vote: Vote<NID>,
        prev: Option<LogId<NID>>,
        entries: Seq<EntryView<NID, M>>,
        leader_committed: Option<LogId<NID>>,
    )
        requires
            vote.precedes(self.local.state.vote),
        ensures
            self.append_response(vote, prev) == AppendEntriesResponse::HigherVote(
                self.local.state.vote,
            ),
            self.entries_received(vote, prev, entries, leader_committed) == self,
    {
    }

    /// A node that accepts a leader takes over its vote and follows it.
    pub proof fn law_accepted_leader_is_followed(
        self,
        vote: Vote<NID>,
        prev: Option<LogId<NID>>,
        entries: Seq<EntryView<NID, M>>,
        leader_committed: Option<LogId<NID>>,
    )
        requires
            !vote.precedes(self.local.state.vote),
            vote.node_id != self.config.id,
        ensures
            ({
                let after = self.entries_received(vote, prev, entries, leader_committed);
                &&& after.local.state.vote == vote
                &&& after.leader is None
            }),
    {
        reveal(LocalView::truncated);
        reveal(LocalView::appended);
        lemma_vote_order_is_total(vote, self.local.state.vote);
    }

    /// If a node does not have the entry before those that a leader sends, its log ends
    /// before the place of that entry afterwards, and is otherwise as it was. So the leader
    /// finds the place where the logs agree by going back.
    pub proof fn law_conflict_cuts_log(
        self,
        vote: Vote<NID>,
        prev: Option<LogId<NID>>,
        entries: Seq<EntryView<NID, M>>,
        leader_committed: Option<LogId<NID>>,
    )
        requires
            self.valid(),
            self.append_response(vote, prev) == AppendEntriesResponse::<NID>::Conflict,
        ensures
            ({
                let after = self.entries_received(vote, prev, entries, leader_committed);
                let at = prev->0.index as int;
                &&& next_index(after.local.state.last_log_id()) <= at
                &&& after.local.state.log == cut_at(self.local.state.log, at)
                &&& after.local.state.committed == self.local.state.committed
            }),
    {
        lemma_vote_order_is_total(vote, self.local.state.vote);
        self.lemma_saw_vote(vote);
        let e = self.saw_vote(vote);
        let at = prev->0.index as int;
        self.local.state.lemma_positions();
        e.local.lemma_truncated(self.config.id, at);
        crate::validity::lemma_cut_log(self.local.state.log, at);
    }

    /// If a node accepts what a leader sends, its log is cut at the first entry that it does
    /// not have and continued from there. Afterwards every entry that the request shows is
    /// in the log, or was at or before the committed position. The node commits up to where
    /// the leader has committed, or to the end of what the request shows, if that is earlier
    /// and further than before.
    pub proof fn law_success_means_stored(
        self,
        vote: Vote<NID>,
        prev: Option<LogId<NID>>,
        entries: Seq<EntryView<NID, M>>,
        leader_committed: Option<LogId<NID>>,
    )
        requires
            self.valid(),
            shows_log(prev, ids_of(entries)),
            self.append_response(vote, prev) == AppendEntriesResponse::<NID>::Success,
        ensures
            ({
                let after = self.entries_received(
                    vote,
                    prev,
                    entries,
                    leader_committed,
                ).local.state;
                let s = self.local.state;
                let ids = ids_of(entries);
                let shown = shown_log(prev, ids);
                let upto = earlier(leader_committed, last_of(shown));
                &&& after.log == s.log_after(ids)
                &&& forall|k: int|
                    0 <= k < shown.len() ==> (#[trigger] shown[k]).index < next_index(s.committed)
                        || holds(after.log, shown[k])
                &&& after.committed == (if opt_precedes(s.committed, upto) {
                    upto
                } else {
                    s.committed
                })
            }),
    {
        let ids = ids_of(entries);
        let shown = shown_log(prev, ids);
        lemma_vote_order_is_total(vote, self.local.state.vote);
        self.lemma_saw_vote(vote);
        let e = self.saw_vote(vote);
        let s = e.local.state;
        e.local.lemma_stored_log(self.config.id, prev, entries);
        lemma_last_shown(prev, ids);
        let after = self.entries_received(vote, prev, entries, leader_committed);
        s.lemma_same_missing(self.local.state, ids, 0);
        assert(after.local.state.log == s.log_after(ids));
        assert forall|k: int| 0 <= k < shown.len() implies (#[trigger] shown[k]).index
            < next_index(s.committed) || holds(after.local.state.log, shown[k]) by {
            s.lemma_shown_stored(prev, ids, k);
        }
    }

    /// If a node accepts what a leader sends, and it fits what is here, the node has every
    /// entry that the request shows, and has committed no more than the leader unless it had
    /// before.
    pub proof fn law_trusted_request_is_stored(
        self,
        vote: Vote<NID>,
        prev: Option<LogId<NID>>,
        entries: Seq<EntryView<NID, M>>,
        leader_committed: Option<LogId<NID>>,
    )
        requires
            self.valid(),
            self.trusts_request(vote, prev, ids_of(entries), leader_committed),
            self.append_response(vote, prev) == AppendEntriesResponse::<NID>::Success,
        ensures
            ({
                let after = self.entries_received(
                    vote,
                    prev,
                    entries,
                    leader_committed,
                ).local.state;
                let shown = shown_log(prev, ids_of(entries));
                &&& forall|k: int| 0 <= k < shown.len() ==> after.has_log_id(#[trigger] shown[k])
                &&& next_index(after.committed) <= next_index(self.local.state.committed)
                    || next_index(after.committed) <= next_index(leader_committed)
            }),
    {
        let shown = shown_log(prev, ids_of(entries));
        let upto = earlier(leader_committed, last_of(shown));
        self.law_success_means_stored(vote, prev, entries, leader_committed);
        if let (Some(u), Some(c)) = (upto, self.local.state.committed) {
            lemma_log_id_order_is_total(u, c);
            assert(fit(u, c));
        }
        if let (Some(lc), Some(l)) = (leader_committed, last_of(shown)) {
            assert(fit(shown[shown.len() - 1], lc));
            lemma_log_id_order_is_total(lc, l);
        }
    }

    /// Whatever a leader sends, the node keeps the vote and the committed position that it
    /// has, or takes over greater ones, and the ids of the log up to the committed position
    /// stay as they are. If what the request shows up to there agrees with what is
    /// committed, what is committed afterwards is in the log.
    pub proof fn law_committed_entries_survive(
        self,
        vote: Vote<NID>,
        prev: Option<LogId<NID>>,
        entries: Seq<EntryView<NID, M>>,
        leader_committed: Option<LogId<NID>>,
    )
        requires
            self.valid(),
            self.follows_from(vote, prev) ==> shows_log(prev, ids_of(entries)),
        ensures
            ({
                let s = self.local.state;
                let after = self.entries_received(
                    vote,
                    prev,
                    entries,
                    leader_committed,
                ).local.state;
                &&& !after.vote.precedes(s.vote)
                &&& !opt_precedes(after.committed, s.committed)
                &&& forall|i: int|
                    i < next_index(s.committed) ==> #[trigger] id_at(after.log, i) == id_at(
                        s.log,
                        i,
                    )
                &&& (self.follows_from(vote, prev) ==> s.agrees_with(prev, ids_of(entries)))
                    ==> !opt_precedes(after.last_log_id(), after.committed)
            }),
    {
        let s = self.local.state;
        let ids = ids_of(entries);
        let shown = shown_log(prev, ids);
        let after = self.entries_received(vote, prev, entries, leader_committed).local.state;
        lemma_vote_order_is_total(vote, s.vote);
        lemma_vote_order_is_total(s.vote, s.vote);
        lemma_opt_order(s.committed, s.committed);
        s.lemma_positions();
        s.lemma_committed_is_last();
        if vote.precedes(s.vote) {
        } else if !self.follows_from(vote, prev) {
            self.law_conflict_cuts_log(vote, prev, entries, leader_committed);
            reveal(LocalView::truncated);
            assert forall|i: int| i < next_index(s.committed) implies #[trigger] id_at(
                after.log,
                i,
            ) == id_at(s.log, i) by {
                lemma_same_before_cut(s.log, prev->0.index as int, i);
            }
            let cut = after.log;
            if let Some(c) = s.committed {
                crate::validity::lemma_cut_log_holds(s.log, prev->0.index as int, c);
                lemma_held_is_not_last(cut, c);
            }
        } else {
            let upto = earlier(leader_committed, last_of(shown));
            self.law_success_means_stored(vote, prev, entries, leader_committed);
            reveal(LocalView::truncated);
            reveal(LocalView::appended);
            lemma_opt_order(s.committed, upto);
            s.lemma_first_missing(ids, 0);
            s.lemma_request_continues(prev, ids);
            assert forall|i: int| i < next_index(s.committed) implies #[trigger] id_at(
                after.log,
                i,
            ) == id_at(s.log, i) by {
                s.lemma_same_before_committed(prev, ids, i);
            }
            if s.agrees_with(prev, ids) {
                s.lemma_committed_stays_behind(prev, ids, upto);
                lemma_opt_order(leader_committed, last_of(shown));
                lemma_opt_order(last_of(shown), last_of(shown));
            }
        }
    }

    /// What the answer to a leader that sends entries says about the log, the vote and the
    /// side of the node afterwards.
    pub proof fn lemma_append_answered(
        self,
        vote: Vote<NID>,
        prev: Option<LogId<NID>>,
        entries: Seq<EntryView<NID, M>>,
        leader_committed: Option<LogId<NID>>,
    )
        requires
            !vote.precedes(self.local.state.vote) ==> vote.node_id != self.config.id,
        ensures
            ({
                let r = self.append_response(vote, prev);
                let after = self.entries_received(vote, prev, entries, leader_committed);
                let s = self.local.state;
                &&& r is HigherVote ==> after == self
                &&& r !is HigherVote ==> after.local.state.vote == vote && after.leader is None
                &&& self.valid() && r is Conflict ==> after.local.state.log == cut_at(
                    s.log,
                    prev->0.index as int,
                )
                &&& self.valid() && r is Success && shows_log(prev, ids_of(entries))
                    ==> after.local.state.log == s.log_after(ids_of(entries))
            }),
    {
        if !vote.precedes(self.local.state.vote) {
            self.law_accepted_leader_is_followed(vote, prev, entries, leader_committed);
            if self.valid() {
                if !self.follows_from(vote, prev) {
                    self.law_conflict_cuts_log(vote, prev, entries, leader_committed);
                } else if shows_log(prev, ids_of(entries)) {
                    self.law_success_means_stored(vote, prev, entries, leader_committed);
                }
            }
        }
    }

    /// A request that is sent again is accepted again, and changes nothing but that the node
    /// waits longer for the next one. The one request of which this does not hold shows an
    /// entry that is not in the log, and counted as present only because it was at or before
    /// the committed position, which the request itself has moved back behind that entry.
    pub proof fn law_resent_request_changes_nothing(
        self,
        vote: Vote<NID>,
        prev: Option<LogId<NID>>,
        entries: Seq<EntryView<NID, M>>,
        leader_committed: Option<LogId<NID>>,
    )
        requires
            self.valid(),
            vote.node_id != self.config.id,
            shows_log(prev, ids_of(entries)),
            self.append_response(vote, prev) == AppendEntriesResponse::<NID>::Success,
            ({
                let shown = shown_log(prev, ids_of(entries));
                let once = self.entries_received(vote, prev, entries, leader_committed);
                forall|k: int|
                    0 <= k < shown.len() && (#[trigger] shown[k]).index < next_index(
                        self.local.state.committed,
                    ) ==> once.local.state.has_log_id(shown[k])
            }),
        ensures
            ({
                let once = self.entries_received(vote, prev, entries, leader_committed);
                let twice = once.entries_received(vote, prev, entries, leader_committed);
                &&& once.takes_request(vote, prev, ids_of(entries))
                &&& once.append_response(vote, prev) == AppendEntriesResponse::<NID>::Success
                &&& twice == once.commanded(
                    CommandView::InstallElectionTimer { can_be_leader: !vote.committed },
                )
            }),
    {
        let once = self.entries_received(vote, prev, entries, leader_committed);
        let ids = ids_of(entries);
        let shown = shown_log(prev, ids);
        let upto = earlier(leader_committed, last_of(shown));
        self.law_success_means_stored(vote, prev, entries, leader_committed);
        self.law_accepted_leader_is_followed(vote, prev, entries, leader_committed);
        lemma_last_shown(prev, ids);
        lemma_vote_order_is_total(vote, vote);
        lemma_opt_order(upto, upto);
        self.local.state.lemma_positions();
        self.local.state.lemma_first_missing(ids, 0);
        self.local.state.lemma_request_continues(prev, ids);
        let s = once.local.state;
        let heard = once.saw_vote(vote);
        assert(heard == once.became_following());
        assert(heard.local.state == s);
        if let Some(p) = prev {
            assert(s.has_log_id(shown[0]));
        }
        assert forall|k: int| 0 <= k < ids.len() implies s.has_log_id(#[trigger] ids[k]) by {
            let j = if prev is Some {
                k + 1
            } else {
                k
            };
            assert(shown[j] == ids[k]);
        }
        s.lemma_first_missing(ids, 0);
        assert(s.first_missing(ids, 0) == ids.len());
    }

    /// A request that fits what is here can be sent again without a change.
    pub proof fn law_trusted_request_can_be_resent(
        self,
        vote: Vote<NID>,
        prev: Option<LogId<NID>>,
        entries: Seq<EntryView<NID, M>>,
        leader_committed: Option<LogId<NID>>,
    )
        requires
            self.valid(),
            self.trusts_request(vote, prev, ids_of(entries), leader_committed),
            self.append_response(vote, prev) == AppendEntriesResponse::<NID>::Success,
        ensures
            ({
                let once = self.entries_received(vote, prev, entries, leader_committed);
                let twice = once.entries_received(vote, prev, entries, leader_committed);
                &&& once.append_response(vote, prev) == AppendEntriesResponse::<NID>::Success
                &&& twice == once.commanded(
                    CommandView::InstallElectionTimer { can_be_leader: !vote.committed },
                )
            }),
    {
        self.law_trusted_request_is_stored(vote, prev, entries, leader_committed);
        self.law_resent_request_changes_nothing(vote, prev, entries, leader_committed);
    }

    /// A leader keeps leading until a membership without it is committed.
    pub proof fn law_leader_stays_until_commit(self)
        requires
            self.local.state.is_voter(self.config.id) || opt_precedes(
                self.local.state.committed,
                self.local.state.membership.effective.log_id,
            ),
        ensures
            self.stepped_down() == self,
    {
    }

    /// A leader steps down once a membership without it is committed: it follows, and is a
    /// learner.
    pub proof fn law_leader_steps_down(self)
        requires
            self.leader is Some,
            self.local.state.is_leading(self.config.id),
            !self.local.state.is_voter(self.config.id),
            !opt_precedes(
                self.local.state.committed,
                self.local.state.membership.effective.log_id,
            ),
        ensures
            ({
                let after = self.stepped_down();
                &&& after.leader is None
                &&& after.local.state == (RaftStateView {
                    server_state: ServerState::Learner,
                    ..self.local.state
                })
                &&& self.local.state.server_state is Leader
                    ==> after.local.output.commands.last() is QuitLeader
            }),
    {
    }

    /// A node that leads purges nothing while an entry that is to go is being sent to another
    /// node.
    pub proof fn law_entries_in_use_are_kept(self, meta: SnapshotView<NID, M>)
        requires
            self.leader matches Some(l) && {
                let taken = self.local.snapshot_updated(meta).state;
                taken.purge_planned(self.config).purge_upto matches Some(p)
                    && l.progress.uses_log(p)
            },
        ensures
            self.snapshot_finished(meta).local.state.log == self.local.state.log,
            self.snapshot_finished(meta).local.state.purged_next
                == self.local.state.purged_next,
    {
    }

    /// A node that follows purges at once what is to go.
    pub proof fn law_follower_purges_at_once(self, meta: SnapshotView<NID, M>)
        requires
            self.valid(),
            self.trusts_snapshot(meta),
            self.leader is None,
            self.local.is_newer_snapshot(meta),
        ensures
            ({
                let planned = self.local.snapshot_updated(meta).state.purge_planned(self.config);
                let after = self.snapshot_finished(meta).local.state;
                planned.purge_upto matches Some(p) ==> after.purged_next == p.index + 1
            }),
    {
        self.local.lemma_snapshot_planned(meta, self.config);
        let planned = self.local.snapshot_updated(meta).state.purge_planned(self.config);
        planned.lemma_positions();
        if let (Some(p), Some(l)) = (planned.purge_upto, planned.last_purged()) {
            crate::validity::lemma_member_held(planned.log, 0);
            crate::log_id::lemma_log_ids_fit(planned.log, l, p);
            lemma_opt_order(Some(l), Some(p));
            reveal(crate::raft_state::positions_agree);
        }
    }

    /// A snapshot that covers no more than the last one changes nothing.
    pub proof fn law_old_snapshot_is_ignored(self, meta: SnapshotView<NID, M>)
        requires
            !opt_precedes(self.local.state.snapshot.last_log_id, meta.last_log_id),
        ensures
            self.snapshot_finished(meta) == self,
    {
    }

    /// What is purged is in the snapshot.
    pub proof fn law_purged_is_in_snapshot(self, meta: SnapshotView<NID, M>)
        requires
            self.valid(),
            self.trusts_snapshot(meta),
            self.local.is_newer_snapshot(meta),
        ensures
            ({
                let after = self.snapshot_finished(meta).local.state;
                &&& after.snapshot == meta
                &&& after.purged_next <= next_index(meta.last_log_id)
            }),
    {
        self.lemma_snapshot_finished(meta);
        reveal(crate::raft_state::positions_agree);
    }

    /// A node that was leader when it stopped is leader as soon as it starts, under the same
    /// vote.
    pub proof fn law_leader_is_restored(self)
        requires
            self.local.state.is_leader(self.config.id),
        ensures
            ({
                let after = self.started_up();
                &&& after.leader is Some
                &&& after.local.state == (RaftStateView {
                    server_state: self.local.state.role_of(self.config.id),
                    ..self.local.state
                })
            }),
    {
        reveal(LeadingView::streams_rebuilt);
        reveal(LeadingView::replication_initiated);
    }

    /// A node that was not leader when it stopped queues nothing when it starts. It is
    /// follower if it votes, and learner otherwise.
    pub proof fn law_others_start_quietly(self)
        requires
            !self.local.state.is_leader(self.config.id),
        ensures
            ({
                let after = self.started_up();
                &&& after.local.output == self.local.output
                &&& after.leader == self.leader
                &&& after.local.state.server_state == if self.local.state.is_voter(
                    self.config.id,
                ) {
                    ServerState::Follower
                } else {
                    ServerState::Learner
                }
                &&& after.local.state == (RaftStateView {
                    server_state: after.local.state.server_state,
                    ..self.local.state
                })
            }),
    {
    }
}

impl<NID: NodeId, M> RaftStateView<NID, M> {
    /// A purge is planned only for a whole batch, and leaves as many entries of the snapshot
    /// in the log as the configuration says.
    pub proof fn law_purge_keeps_enough(self, config: EngineConfig<NID>)
        requires
            self.valid(),
        ensures
            self.next_purge(config) matches Some(p) ==> {
                &&& p.index + 1 + config.max_in_snapshot_log_to_keep == next_index(
                    self.snapshot.last_log_id,
                )
                &&& next_index(self.last_purged()) + config.purge_batch_size <= p.index + 1
            },
    {
        self.lemma_positions();
        crate::validity::lemma_id_at_held(self.log, self.purgeable_end(config) - 1);
    }
}

impl<NID: NodeId, M> RaftStateView<NID, M> {
    /// What is committed does not come after the end of the log.
    proof fn lemma_committed_is_last(self)
        requires
            self.valid(),
        ensures
            !opt_precedes(self.last_log_id(), self.committed),
    {
        self.lemma_positions();
        if let Some(c) = self.committed {
            lemma_held_is_not_last(self.log, c);
        }
    }

    /// Storing what a request shows leaves the ids up to the committed position as they are.
    proof fn lemma_same_before_committed(
        self,
        prev: Option<LogId<NID>>,
        ids: Seq<LogId<NID>>,
        i: int,
    )
        requires
            self.valid(),
            prev matches Some(p) ==> self.has_log_id(p),
            shows_log(prev, ids),
            i < next_index(self.committed),
        ensures
            id_at(self.log_after(ids), i) == id_at(self.log, i),
    {
        self.lemma_positions();
        self.lemma_first_missing(ids, 0);
        self.lemma_request_continues(prev, ids);
        let c = self.committed->0;
        if self.first_missing(ids, 0) < ids.len() && self.committed is Some {
            self.lemma_kept_before(prev, ids, c);
            crate::validity::lemma_id_at_held(self.log, i);
            if let Some(x) = id_at(self.log, i) {
                self.lemma_kept_before(prev, ids, x);
            }
        }
    }

    /// Once what a request shows is stored, nothing that it shows and nothing before that comes
    /// after the end of the log.
    proof fn lemma_committed_stays_behind(
        self,
        prev: Option<LogId<NID>>,
        ids: Seq<LogId<NID>>,
        upto: Option<LogId<NID>>,
    )
        requires
            self.valid(),
            prev matches Some(p) ==> self.has_log_id(p),
            shows_log(prev, ids),
            self.agrees_with(prev, ids),
            !opt_precedes(last_of(shown_log(prev, ids)), upto),
        ensures
            !opt_precedes(last_of(self.log_after(ids)), upto),
            !opt_precedes(last_of(self.log_after(ids)), self.committed),
    {
        let shown = shown_log(prev, ids);
        let after = self.log_after(ids);
        let last = last_of(after);
        self.lemma_positions();
        self.lemma_committed_is_last();
        if let Some(c) = self.committed {
            self.lemma_first_missing(ids, 0);
            self.lemma_request_continues(prev, ids);
            self.lemma_log_after(prev, ids, c);
            lemma_held_is_not_last(after, c);
        }
        if let Some(x) = last_of(shown) {
            let k = shown.len() - 1;
            assert(shown[k] == x);
            self.lemma_log_after(prev, ids, x);
            self.lemma_shown_stored(prev, ids, k);
            if holds(after, x) {
                lemma_held_is_not_last(after, x);
            } else {
                let c = self.committed->0;
                assert(holds(self.log, x) || fit(x, c));
                if holds(self.log, x) {
                    lemma_log_ids_fit(self.log, x, c);
                }
                assert(fit(x, c));
                lemma_opt_order(Some(x), Some(c));
                lemma_order_chain(Some(x), self.committed, last);
            }
            lemma_order_chain(upto, Some(x), last);
        }
    }
}

/// What a log holds does not come after its end.
proof fn lemma_held_is_not_last<NID: NodeId>(log: Seq<LogId<NID>>, x: LogId<NID>)
    requires
        is_log(log),
        holds(log, x),
    ensures
        !opt_precedes(last_of(log), Some(x)),
{
    crate::validity::lemma_last_held(log);
    lemma_log_ids_fit(log, log.last(), x);
    lemma_log_id_order_is_total(log.last(), x);
}

/// A log that is cut has the same ids before the cut.
proof fn lemma_same_before_cut<NID: NodeId>(log: Seq<LogId<NID>>, at: int, i: int)
    requires
        is_log(log),
        i < at,
    ensures
        id_at(cut_at(log, at), i) == id_at(log, i),
{
    let cut = cut_at(log, at);
    if log.len() > 0 {
        assert(log[log.len() - 1].index == log[0].index + (log.len() - 1));
        if log[0].index < at <= log.last().index {
            assert(cut.last() == log[at - log[0].index - 1]);
            assert(log[at - log[0].index - 1].index == log[0].index + (at - log[0].index - 1));
        }
    }
}

/// The last entry that a request shows.
proof fn lemma_last_shown<NID: NodeId>(prev: Option<LogId<NID>>, ids: Seq<LogId<NID>>)
    requires
        crate::log_id::is_log(shown_log(prev, ids)),
    ensures
        last_of(shown_log(prev, ids)) == later(last_of(ids), prev),
{
    let shown = shown_log(prev, ids);
    if let Some(p) = prev {
        if ids.len() > 0 {
            assert(shown[0] == p);
            assert(shown.last() == ids.last());
            assert(shown[shown.len() - 1] == ids.last());
            crate::log_id::lemma_leader_order_is_total(p.leader_id, ids.last().leader_id);
        } else {
            assert(shown =~= seq![p]);
        }
    } else {
        lemma_opt_order(last_of(ids), None);
    }
}

} // verus!
