//! What a node does with the entries that a leader sends: which it deletes, which it stores,
//! which membership is in force afterwards, and what it commits.

use crate::command::CommandView;
use crate::entry::{ids_of, EntryView};
use crate::handler::following_handler::{earlier, later, memberships_in};
use crate::history::lemma_extends_on;
use crate::log_id::{
    cut_at, holds, id_at, is_log, last_of, lemma_opt_order, lemma_order_chain, next_index,
    opt_precedes, LogId,
};
use crate::meaning::{law_cut_keeps_what_is_before, law_positions_in_log};
use crate::membership::EffectiveMembershipView;
use crate::message::AppendEntriesResponse;
use crate::node::NodeId;
use crate::raft_state::{positions_agree, RaftStateView};
use crate::request::{shown_log, shows_log};
use crate::view::{EngineView, LocalView};
use crate::vote::{lemma_vote_order_is_total, Vote};
use vstd::prelude::*;

verus! {

impl<NID: NodeId, M> RaftStateView<NID, M> {
    /// The entry is at or before the committed position, or its id is in the log.
    pub open spec fn is_present(self, x: LogId<NID>) -> bool {
        (self.committed matches Some(c) && x.index <= c.index) || self.log.contains(x)
    }

    /// The log has entries from the index `at` on.
    pub open spec fn reaches(self, at: int) -> bool {
        self.log.len() > 0 && self.log[self.log.len() - 1].index >= at
    }

    /// The membership in force is in an entry at the index `at` or behind it, and the log has
    /// entries there.
    pub open spec fn loses_membership(self, at: int) -> bool {
        self.reaches(at) && (self.membership.effective.log_id matches Some(l) && l.index >= at)
    }

    proof fn lemma_present(self, x: LogId<NID>)
        requires
            is_log(self.log),
        ensures
            self.is_present(x) <==> self.has_log_id(x),
            self.log.contains(x) <==> holds(self.log, x),
    {
        if self.log.len() > 0 {
            law_positions_in_log(self.log, 0, x);
        }
    }

    proof fn lemma_first_missing_is(self, ids: Seq<LogId<NID>>, k: int)
        requires
            is_log(self.log),
            0 <= k <= ids.len(),
            forall|j: int| 0 <= j < k ==> self.is_present(#[trigger] ids[j]),
            k < ids.len() ==> !self.is_present(ids[k]),
        ensures
            self.first_missing(ids, 0) == k,
    {
        self.lemma_first_missing(ids, 0);
        let since = self.first_missing(ids, 0);
        if since < ids.len() {
            self.lemma_present(ids[since]);
        }
        if k < ids.len() {
            self.lemma_present(ids[k]);
        }
    }
}

/// None of the entries from the place `from` up to `to` holds a membership.
pub open spec fn is_plain<NID, M>(entries: Seq<EntryView<NID, M>>, from: int, to: int) -> bool {
    forall|i: int| from <= i < to ==> (#[trigger] entries[i]).membership is None
}

/// Of the entries from the place `from` up to `to`, the one at `j` is the last that holds a
/// membership.
pub open spec fn is_last_membership<NID, M>(
    entries: Seq<EntryView<NID, M>>,
    from: int,
    to: int,
    j: int,
) -> bool {
    from <= j < to && entries[j].membership is Some && is_plain(entries, j + 1, to)
}

/// The membership that the entry at the place `j` puts in force.
pub open spec fn membership_at<NID, M>(
    entries: Seq<EntryView<NID, M>>,
    j: int,
) -> EffectiveMembershipView<NID, M> {
    EffectiveMembershipView {
        log_id: Some(entries[j].log_id),
        membership: entries[j].membership->0,
    }
}

/// Without a membership among the entries, none is found.
proof fn lemma_no_membership_found<NID, M>(entries: Seq<EntryView<NID, M>>)
    requires
        is_plain(entries, 0, entries.len() as int),
    ensures
        memberships_in(entries).len() == 0,
    decreases entries.len(),
{
    if entries.len() > 0 {
        let front = entries.drop_last();
        assert(entries.last() == entries[entries.len() - 1]);
        assert forall|i: int| 0 <= i < front.len() implies (
        #[trigger] front[i]).membership is None by {
            assert(front[i] == entries[i]);
        }
        lemma_no_membership_found(front);
    }
}

/// The last membership among the entries is found last, and those before it before it.
proof fn lemma_last_membership_found<NID, M>(entries: Seq<EntryView<NID, M>>, j: int)
    requires
        is_last_membership(entries, 0, entries.len() as int, j),
    ensures
        memberships_in(entries).len() > 0,
        memberships_in(entries).last() == membership_at(entries, j),
        memberships_in(entries).drop_last() == memberships_in(entries.take(j)),
    decreases entries.len(),
{
    let front = entries.drop_last();
    let n = entries.len() - 1;
    assert(entries.last() == entries[n]);
    if j == n {
        assert(entries.take(j) =~= front);
        assert(memberships_in(entries).drop_last() =~= memberships_in(front));
    } else {
        assert(entries[n].membership is None);
        assert(front[j] == entries[j]);
        assert forall|i: int| j + 1 <= i < n implies (#[trigger] front[i]).membership is None by {
            assert(front[i] == entries[i]);
        }
        lemma_last_membership_found(front, j);
        assert(front.take(j) =~= entries.take(j));
    }
}

impl<NID: NodeId, M> LocalView<NID, M> {
    /// Cutting the log deletes the entries from `at` on and tells the runtime. If the
    /// membership in force was in one of them, the committed one is in force again.
    proof fn lemma_cut_effects(self, id: NID, at: int)
        requires
            self.state.valid(),
            next_index(self.state.committed) <= at,
        ensures
            ({
                let (s, after) = (self.state, self.truncated(id, at));
                let t = after.state;
                &&& t == (RaftStateView {
                    log: t.log,
                    membership: t.membership,
                    server_state: t.server_state,
                    ..s
                })
                &&& t.log == cut_at(s.log, at)
                &&& s.loses_membership(at) ==> {
                    &&& t.membership.effective == s.membership.committed
                    &&& self.queues(
                        after,
                        CommandView::UpdateMembership { membership: s.membership.committed },
                    )
                    &&& t.server_state == t.role_of(id)
                }
                &&& !s.loses_membership(at) ==> t.membership == s.membership && t.server_state
                    == s.server_state
                &&& t.membership.committed == s.membership.committed
                &&& s.reaches(at) ==> self.queues(
                    after,
                    CommandView::DeleteConflictLog { since: s.log[at - s.log[0].index] },
                ) && s.log[at - s.log[0].index].index == at
                &&& !s.reaches(at) ==> after == self
                &&& after.output.extends(self.output)
            }),
    {
        self.lemma_truncated(id, at);
        self.lemma_truncated_leads(id, at);
        reveal(LocalView::leads_to);
        reveal(LocalView::truncated);
        reveal(positions_agree);
        let s = self.state;
        let after = self.truncated(id, at);
        let n = self.output.commands.len() as int;
        if s.log.len() > 0 {
            assert(s.log[s.log.len() - 1].index == s.log[0].index + (s.log.len() - 1));
        }
        if s.reaches(at) {
            assert(id_at(s.log, at) == Some(s.log[at - s.log[0].index]));
            assert(after.output.commands[n] == CommandView::<NID, M>::DeleteConflictLog {
                since: s.log[at - s.log[0].index],
            });
            if s.loses_membership(at) {
                assert(after.output.commands[n + 1] == CommandView::<NID, M>::UpdateMembership {
                    membership: s.membership.committed,
                });
            }
        }
    }

    /// Appending what a leader sent tells the runtime, and puts the last membership among it
    /// in force.
    proof fn lemma_append_effects(self, id: NID, entries: Seq<EntryView<NID, M>>, since: int)
        requires
            0 <= since < entries.len(),
        ensures
            ({
                let (s, after) = (self.state, self.appended(id, entries, since));
                let t = after.state;
                &&& t == (RaftStateView {
                    log: s.log + ids_of(entries).skip(since),
                    membership: t.membership,
                    server_state: t.server_state,
                    ..s
                })
                &&& self.queues(
                    after,
                    CommandView::AppendInputEntries { from: since, to: entries.len() as int },
                )
                &&& self.queues(
                    after,
                    CommandView::MoveInputCursorBy { n: entries.len() as int },
                )
                &&& after.output.extends(self.output)
                &&& is_plain(entries, since, entries.len() as int) ==> t.membership == s.membership
                    && t.server_state == s.server_state
            }),
    {
        reveal(LocalView::appended);
        let after = self.appended(id, entries, since);
        let n = self.output.commands.len() as int;
        let cs = after.output.commands;
        let more = entries.skip(since);
        assert(cs[n] == CommandView::<NID, M>::AppendInputEntries {
            from: since,
            to: entries.len() as int,
        });
        assert(cs[cs.len() - 1] == CommandView::<NID, M>::MoveInputCursorBy {
            n: entries.len() as int,
        });
        assert(cs.subrange(0, n) =~= self.output.commands);
        if is_plain(entries, since, entries.len() as int) {
            assert forall|i: int| 0 <= i < more.len() implies (
            #[trigger] more[i]).membership is None by {
                assert(more[i] == entries[since + i]);
            }
            lemma_no_membership_found(more);
        }
    }

    /// The last membership that is appended is in force, and the runtime is told so. The one
    /// before it counts as committed.
    proof fn lemma_append_membership(
        self,
        id: NID,
        entries: Seq<EntryView<NID, M>>,
        since: int,
        j: int,
    )
        requires
            0 <= since,
            is_last_membership(entries, since, entries.len() as int, j),
        ensures
            ({
                let (s, after) = (self.state, self.appended(id, entries, since));
                let t = after.state;
                let em = membership_at(entries, j);
                &&& t.membership.effective == em
                &&& is_plain(entries, since, j) ==> t.membership.committed
                    == s.membership.effective
                &&& forall|h: int|
                    #![trigger is_last_membership(entries, since, j, h)]
                    is_last_membership(entries, since, j, h) ==> t.membership.committed
                        == membership_at(entries, h)
                &&& self.queues(after, CommandView::UpdateMembership { membership: em })
                &&& t.server_state == t.role_of(id)
            }),
    {
        reveal(LocalView::appended);
        let (s, after) = (self.state, self.appended(id, entries, since));
        let n = self.output.commands.len() as int;
        let more = entries.skip(since);
        let before = entries.subrange(since, j);
        let ms = memberships_in(more);
        let j0 = j - since;
        assert(more[j0] == entries[j]);
        assert forall|i: int| j0 + 1 <= i < more.len() implies (
        #[trigger] more[i]).membership is None by {
            assert(more[i] == entries[since + i]);
        }
        lemma_last_membership_found(more, j0);
        assert(more.take(j0) =~= before);
        assert(after.output.commands[n + 1] == CommandView::<NID, M>::UpdateMembership {
            membership: ms.last(),
        });
        if is_plain(entries, since, j) {
            assert forall|i: int| 0 <= i < before.len() implies (
            #[trigger] before[i]).membership is None by {
                assert(before[i] == entries[since + i]);
            }
            lemma_no_membership_found(before);
        }
        assert forall|h: int|
            #![trigger is_last_membership(entries, since, j, h)]
            is_last_membership(entries, since, j, h) implies after.state.membership.committed
            == membership_at(entries, h) by {
            let h0 = h - since;
            assert(before[h0] == entries[h]);
            assert forall|i: int| h0 + 1 <= i < before.len() implies (
            #[trigger] before[i]).membership is None by {
                assert(before[i] == entries[since + i]);
            }
            lemma_last_membership_found(before, h0);
            assert(ms.drop_last().last() == ms[ms.len() - 2]);
        }
    }

    /// Committing what the leader has committed tells the runtime, and changes nothing else
    /// but that the membership in force may be committed.
    proof fn lemma_commit_effects(
        self,
        leader_committed: Option<LogId<NID>>,
        prev: Option<LogId<NID>>,
        ids: Seq<LogId<NID>>,
    )
        ensures
            ({
                let (s, after) = (self.state, self.follower_committed(leader_committed, prev, ids));
                let t = after.state;
                &&& t == (RaftStateView {
                    committed: t.committed,
                    membership: t.membership,
                    ..s
                })
                &&& t.membership.effective == s.membership.effective
                &&& t.membership.committed == (if t.committed != s.committed && !opt_precedes(
                    t.committed,
                    s.membership.effective.log_id,
                ) {
                    s.membership.effective
                } else {
                    s.membership.committed
                })
                &&& t.committed != s.committed ==> t.committed is Some && self.queues(
                    after,
                    CommandView::FollowerCommit {
                        already_committed: s.committed,
                        upto: t.committed->0,
                    },
                )
                &&& after.output.extends(self.output)
            }),
    {
        let after = self.follower_committed(leader_committed, prev, ids);
        let n = self.output.commands.len() as int;
        let upto = earlier(leader_committed, later(last_of(ids), prev));
        lemma_opt_order(self.state.committed, upto);
        lemma_opt_order(self.state.committed, self.state.committed);
        if after.state.committed != self.state.committed {
            assert(after.output.commands[n] == CommandView::<NID, M>::FollowerCommit {
                already_committed: self.state.committed,
                upto: after.state.committed->0,
            });
        }
        assert(after.output.commands.subrange(0, n) =~= self.output.commands);
    }
}

impl<NID: NodeId, M> EngineView<NID, M> {
    /// A leader is refused just if its vote is less than that of the node, which is then named.
    /// An accepted one has success just if the node has the entry before those that are sent.
    pub proof fn law_leader_is_answered(self, vote: Vote<NID>, prev: Option<LogId<NID>>)
        requires
            self.valid(),
        ensures
            ({
                let s = self.local.state;
                let r = self.append_response(vote, prev);
                &&& vote.precedes(s.vote) <==> r is HigherVote
                &&& r is HigherVote ==> r == AppendEntriesResponse::HigherVote(s.vote)
                &&& r is Success <==> !vote.precedes(s.vote) && (prev matches Some(p)
                    ==> s.is_present(p))
            }),
    {
        self.local.state.lemma_positions();
        if let Some(p) = prev {
            self.local.state.lemma_present(p);
        }
    }

    /// If the entry before those that are sent is not here, the entries from its place on are
    /// deleted, and no others. If the membership in force was in one of the deleted entries,
    /// the committed one is in force again, the runtime is told, and the node plays the part
    /// that it has by that; otherwise the membership stays.
    pub proof fn law_conflict_reverts_membership(
        self,
        vote: Vote<NID>,
        prev: Option<LogId<NID>>,
        entries: Seq<EntryView<NID, M>>,
        leader_committed: Option<LogId<NID>>,
        x: LogId<NID>,
    )
        requires
            self.valid(),
            vote.node_id != self.config.id,
            self.append_response(vote, prev) == AppendEntriesResponse::<NID>::Conflict,
        ensures
            ({
                let s = self.local.state;
                let after = self.entries_received(vote, prev, entries, leader_committed);
                let t = after.local.state;
                let at = prev->0.index as int;
                &&& t.log.contains(x) <==> s.log.contains(x) && x.index < at
                &&& t == (RaftStateView {
                    vote,
                    log: t.log,
                    membership: t.membership,
                    server_state: t.server_state,
                    ..s
                })
                &&& s.loses_membership(at) ==> {
                    &&& t.membership.effective == s.membership.committed
                    &&& self.local.queues(
                        after.local,
                        CommandView::UpdateMembership { membership: s.membership.committed },
                    )
                    &&& t.server_state == t.role_of(self.config.id)
                }
                &&& !s.loses_membership(at) ==> t.membership == s.membership
                &&& !s.loses_membership(at) && self.leader is None ==> t.server_state
                    == s.server_state
                &&& self.leader is Some ==> t.server_state == t.role_of(self.config.id)
                &&& t.membership.committed == s.membership.committed
                &&& s.reaches(at) ==> self.local.queues(
                    after.local,
                    CommandView::DeleteConflictLog { since: s.log[at - s.log[0].index] },
                ) && s.log[at - s.log[0].index].index == at
                &&& self.local.queues(
                    after.local,
                    CommandView::InstallElectionTimer { can_be_leader: !vote.committed },
                )
            }),
    {
        let s = self.local.state;
        let id = self.config.id;
        let at = prev->0.index as int;
        lemma_vote_order_is_total(vote, s.vote);
        self.law_side_follows_vote(vote);
        self.lemma_saw_vote(vote);
        self.lemma_saw_vote_leads(vote);
        s.lemma_positions();
        let e = self.saw_vote(vote);
        let after = e.local.truncated(id, at);
        assert(e.local.output.extends(self.local.output)) by {
            reveal(LocalView::leads_to);
        }
        assert(e.local.state.reaches(at) == s.reaches(at));
        assert(e.local.state.loses_membership(at) == s.loses_membership(at));
        e.local.lemma_cut_effects(id, at);
        law_cut_keeps_what_is_before(s.log, at, x);
        self.local.lemma_queued_before(
            e.local,
            after,
            CommandView::InstallElectionTimer { can_be_leader: !vote.committed },
        );
        if s.reaches(at) {
            self.local.lemma_queued_behind(
                e.local,
                after,
                CommandView::DeleteConflictLog { since: s.log[at - s.log[0].index] },
            );
        }
        if s.loses_membership(at) {
            self.local.lemma_queued_behind(
                e.local,
                after,
                CommandView::UpdateMembership { membership: s.membership.committed },
            );
        }
    }

    /// If all entries that are sent are here, the log and the membership in force stay.
    pub proof fn law_known_entries_change_nothing(
        self,
        vote: Vote<NID>,
        prev: Option<LogId<NID>>,
        entries: Seq<EntryView<NID, M>>,
        leader_committed: Option<LogId<NID>>,
    )
        requires
            self.valid(),
            vote.node_id != self.config.id,
            self.append_response(vote, prev) == AppendEntriesResponse::<NID>::Success,
            forall|j: int|
                0 <= j < entries.len() ==> self.local.state.is_present(
                    (#[trigger] entries[j]).log_id,
                ),
        ensures
            ({
                let s = self.local.state;
                let after = self.entries_received(vote, prev, entries, leader_committed);
                let t = after.local.state;
                &&& t == (RaftStateView {
                    vote,
                    committed: t.committed,
                    membership: t.membership,
                    server_state: t.server_state,
                    ..s
                })
                &&& t.membership.effective == s.membership.effective
                &&& self.leader is None ==> t.server_state == s.server_state
                &&& self.leader is Some ==> t.server_state == t.role_of(self.config.id)
                &&& self.local.queues(
                    after.local,
                    CommandView::InstallElectionTimer { can_be_leader: !vote.committed },
                )
            }),
    {
        let s = self.local.state;
        let ids = ids_of(entries);
        lemma_vote_order_is_total(vote, s.vote);
        self.law_side_follows_vote(vote);
        s.lemma_positions();
        let e = self.saw_vote(vote);
        s.lemma_same_missing(e.local.state, ids, 0);
        assert forall|j: int| 0 <= j < ids.len() implies s.is_present(#[trigger] ids[j]) by {
            assert(ids[j] == entries[j].log_id);
        }
        s.lemma_first_missing_is(ids, ids.len() as int);
        e.local.lemma_commit_effects(leader_committed, prev, ids);
        self.local.lemma_queued_before(
            e.local,
            e.local.follower_committed(leader_committed, prev, ids),
            CommandView::InstallElectionTimer { can_be_leader: !vote.committed },
        );
    }

    /// The steps by which missing entries are stored.
    proof fn lemma_stored_in_steps(
        self,
        vote: Vote<NID>,
        prev: Option<LogId<NID>>,
        entries: Seq<EntryView<NID, M>>,
        leader_committed: Option<LogId<NID>>,
        k: int,
    )
        requires
            self.valid(),
            vote.node_id != self.config.id,
            shows_log(prev, ids_of(entries)),
            self.append_response(vote, prev) == AppendEntriesResponse::<NID>::Success,
            0 <= k < entries.len(),
            !self.local.state.is_present(entries[k].log_id),
            forall|i: int|
                0 <= i < k ==> self.local.state.is_present((#[trigger] entries[i]).log_id),
        ensures
            ({
                let (s, id) = (self.local.state, self.config.id);
                let ids = ids_of(entries);
                let at = entries[k].log_id.index as int;
                let heard = self.saw_vote(vote).local;
                let cut = heard.truncated(id, at);
                let stored = cut.appended(id, entries, k);
                let done = stored.follower_committed(leader_committed, prev, ids);
                &&& self.entries_received(vote, prev, entries, leader_committed).local == done
                &&& is_log(s.log)
                &&& s.first_missing(ids, 0) == k
                &&& heard.state == (RaftStateView {
                    vote,
                    server_state: heard.state.server_state,
                    ..s
                })
                &&& self.leader is None ==> heard.state.server_state == s.server_state
                &&& self.leader is Some ==> heard.state.server_state == heard.state.role_of(id)
                &&& heard.state.valid()
                &&& next_index(s.committed) <= at
                &&& stored.state.log == s.log_after(ids)
                &&& heard.state.reaches(at) == s.reaches(at)
                &&& heard.state.loses_membership(at) == s.loses_membership(at)
                &&& heard.output.extends(self.local.output)
                &&& self.local.queues(
                    heard,
                    CommandView::InstallElectionTimer { can_be_leader: !vote.committed },
                )
            }),
    {
        let s = self.local.state;
        let ids = ids_of(entries);
        lemma_vote_order_is_total(vote, s.vote);
        self.law_side_follows_vote(vote);
        self.lemma_saw_vote(vote);
        self.lemma_saw_vote_leads(vote);
        s.lemma_positions();
        assert forall|i: int| 0 <= i < k implies s.is_present(#[trigger] ids[i]) by {
            assert(ids[i] == entries[i].log_id);
        }
        s.lemma_first_missing_is(ids, k);
        let e = self.saw_vote(vote).local;
        assert(e.output.extends(self.local.output)) by {
            reveal(LocalView::leads_to);
        }
        s.lemma_same_missing(e.state, ids, 0);
        e.lemma_stored_log(self.config.id, prev, entries);
    }

    /// If the entry at the place `k` is the first of those that are sent that is not here, the
    /// entries from its index on are deleted, and those that are sent are stored from it on.
    /// The runtime is told so.
    pub proof fn law_missing_entries_are_stored(
        self,
        vote: Vote<NID>,
        prev: Option<LogId<NID>>,
        entries: Seq<EntryView<NID, M>>,
        leader_committed: Option<LogId<NID>>,
        k: int,
        x: LogId<NID>,
    )
        requires
            self.valid(),
            vote.node_id != self.config.id,
            shows_log(prev, ids_of(entries)),
            self.append_response(vote, prev) == AppendEntriesResponse::<NID>::Success,
            0 <= k < entries.len(),
            !self.local.state.is_present(entries[k].log_id),
            forall|i: int|
                0 <= i < k ==> self.local.state.is_present((#[trigger] entries[i]).log_id),
        ensures
            ({
                let s = self.local.state;
                let after = self.entries_received(vote, prev, entries, leader_committed);
                let t = after.local.state;
                let at = entries[k].log_id.index as int;
                &&& t == (RaftStateView {
                    vote,
                    log: t.log,
                    committed: t.committed,
                    membership: t.membership,
                    server_state: t.server_state,
                    ..s
                })
                &&& t.log.contains(x) <==> (s.log.contains(x) && x.index < at) || exists|i: int|
                    k <= i < entries.len() && (#[trigger] entries[i]).log_id == x
                &&& t.log.last() == entries.last().log_id
                &&& s.reaches(at) ==> self.local.queues(
                    after.local,
                    CommandView::DeleteConflictLog { since: s.log[at - s.log[0].index] },
                ) && s.log[at - s.log[0].index].index == at
                &&& self.local.queues(
                    after.local,
                    CommandView::AppendInputEntries { from: k, to: entries.len() as int },
                )
                &&& self.local.queues(
                    after.local,
                    CommandView::MoveInputCursorBy { n: entries.len() as int },
                )
                &&& self.local.queues(
                    after.local,
                    CommandView::InstallElectionTimer { can_be_leader: !vote.committed },
                )
            }),
    {
        let s = self.local.state;
        let id = self.config.id;
        let ids = ids_of(entries);
        let at = entries[k].log_id.index as int;
        let e = self.saw_vote(vote).local;
        let cut = e.truncated(id, at);
        let app = cut.appended(id, entries, k);
        let done = app.follower_committed(leader_committed, prev, ids);
        self.lemma_stored_in_steps(vote, prev, entries, leader_committed, k);
        e.lemma_cut_effects(id, at);
        cut.lemma_append_effects(id, entries, k);
        app.lemma_commit_effects(leader_committed, prev, ids);
        self.lemma_told_on_the_way(e, cut, app, done);
        s.lemma_stored_ids(ids, k, x);
        let timer = CommandView::<NID, M>::InstallElectionTimer {
            can_be_leader: !vote.committed,
        };
        self.local.lemma_queued_before(e, done, timer);
        assert(ids.last() == entries.last().log_id);
        assert((exists|i: int| k <= i < entries.len() && (#[trigger] entries[i]).log_id == x)
            <==> exists|i: int| k <= i < ids.len() && #[trigger] ids[i] == x) by {
            if exists|i: int| k <= i < entries.len() && (#[trigger] entries[i]).log_id == x {
                let i = choose|i: int|
                    k <= i < entries.len() && (#[trigger] entries[i]).log_id == x;
                assert(ids[i] == x);
            }
            if exists|i: int| k <= i < ids.len() && #[trigger] ids[i] == x {
                let i = choose|i: int| k <= i < ids.len() && #[trigger] ids[i] == x;
                assert(entries[i].log_id == x);
            }
        }
    }

    /// If none of the entries that are stored holds a membership, the committed one is in force
    /// afterwards if the one in force was deleted, and otherwise the same as before. The
    /// runtime is told of the change, and the node plays the part that it has by it.
    pub proof fn law_plain_entries_keep_membership(
        self,
        vote: Vote<NID>,
        prev: Option<LogId<NID>>,
        entries: Seq<EntryView<NID, M>>,
        leader_committed: Option<LogId<NID>>,
        k: int,
    )
        requires
            self.valid(),
            vote.node_id != self.config.id,
            shows_log(prev, ids_of(entries)),
            self.append_response(vote, prev) == AppendEntriesResponse::<NID>::Success,
            0 <= k < entries.len(),
            !self.local.state.is_present(entries[k].log_id),
            forall|i: int|
                0 <= i < k ==> self.local.state.is_present((#[trigger] entries[i]).log_id),
            is_plain(entries, k, entries.len() as int),
        ensures
            ({
                let s = self.local.state;
                let after = self.entries_received(vote, prev, entries, leader_committed);
                let t = after.local.state;
                let at = entries[k].log_id.index as int;
                let base = if s.loses_membership(at) {
                    s.membership.committed
                } else {
                    s.membership.effective
                };
                &&& t.membership.effective == base
                &&& t.membership.committed == (if t.committed != s.committed && !opt_precedes(
                    t.committed,
                    base.log_id,
                ) {
                    base
                } else {
                    s.membership.committed
                })
                &&& s.loses_membership(at) ==> self.local.queues(
                    after.local,
                    CommandView::UpdateMembership { membership: base },
                ) && t.server_state == t.role_of(self.config.id)
                &&& !s.loses_membership(at) && self.leader is None ==> t.server_state
                    == s.server_state
                &&& self.leader is Some ==> t.server_state == t.role_of(self.config.id)
            }),
    {
        let id = self.config.id;
        let at = entries[k].log_id.index as int;
        let e = self.saw_vote(vote).local;
        let cut = e.truncated(id, at);
        let app = cut.appended(id, entries, k);
        let done = app.follower_committed(leader_committed, prev, ids_of(entries));
        self.lemma_stored_in_steps(vote, prev, entries, leader_committed, k);
        e.lemma_cut_effects(id, at);
        cut.lemma_append_effects(id, entries, k);
        app.lemma_commit_effects(leader_committed, prev, ids_of(entries));
        self.lemma_told_on_the_way(e, cut, app, done);
    }

    /// The last membership among the entries that are stored is in force afterwards. The
    /// runtime is told so, and the node plays the part that it has by it. The membership
    /// before it counts as committed, unless that itself is committed: the one in the entry
    /// before, or if there is none the one that was in force after the log was cut.
    pub proof fn law_stored_membership_is_in_force(
        self,
        vote: Vote<NID>,
        prev: Option<LogId<NID>>,
        entries: Seq<EntryView<NID, M>>,
        leader_committed: Option<LogId<NID>>,
        k: int,
        j: int,
    )
        requires
            self.valid(),
            vote.node_id != self.config.id,
            shows_log(prev, ids_of(entries)),
            self.append_response(vote, prev) == AppendEntriesResponse::<NID>::Success,
            0 <= k < entries.len(),
            !self.local.state.is_present(entries[k].log_id),
            forall|i: int|
                0 <= i < k ==> self.local.state.is_present((#[trigger] entries[i]).log_id),
            is_last_membership(entries, k, entries.len() as int, j),
        ensures
            ({
                let s = self.local.state;
                let after = self.entries_received(vote, prev, entries, leader_committed);
                let t = after.local.state;
                let at = entries[k].log_id.index as int;
                let em = membership_at(entries, j);
                let settled = t.committed != s.committed && !opt_precedes(t.committed, em.log_id);
                &&& t.membership.effective == em
                &&& self.local.queues(after.local, CommandView::UpdateMembership { membership: em })
                &&& t.server_state == t.role_of(self.config.id)
                &&& settled ==> t.membership.committed == em
                &&& !settled && is_plain(entries, k, j) ==> t.membership.committed == (
                if s.loses_membership(at) {
                    s.membership.committed
                } else {
                    s.membership.effective
                })
                &&& !settled ==> forall|h: int|
                    #![trigger is_last_membership(entries, k, j, h)]
                    is_last_membership(entries, k, j, h) ==> t.membership.committed
                        == membership_at(entries, h)
            }),
    {
        let id = self.config.id;
        let at = entries[k].log_id.index as int;
        let e = self.saw_vote(vote).local;
        let cut = e.truncated(id, at);
        let app = cut.appended(id, entries, k);
        let done = app.follower_committed(leader_committed, prev, ids_of(entries));
        self.lemma_stored_in_steps(vote, prev, entries, leader_committed, k);
        e.lemma_cut_effects(id, at);
        cut.lemma_append_effects(id, entries, k);
        cut.lemma_append_membership(id, entries, k, j);
        app.lemma_commit_effects(leader_committed, prev, ids_of(entries));
        self.lemma_told_on_the_way(e, cut, app, done);
    }

    /// What is told on the way is told in the end.
    proof fn lemma_told_on_the_way(
        self,
        heard: LocalView<NID, M>,
        cut: LocalView<NID, M>,
        stored: LocalView<NID, M>,
        done: LocalView<NID, M>,
    )
        requires
            heard.output.extends(self.local.output),
            cut.output.extends(heard.output),
            stored.output.extends(cut.output),
            done.output.extends(stored.output),
        ensures
            done.output.extends(heard.output),
            forall|c: CommandView<NID, M>| #[trigger]
                heard.queues(cut, c) ==> self.local.queues(done, c),
            forall|c: CommandView<NID, M>| #[trigger]
                cut.queues(stored, c) ==> self.local.queues(done, c),
    {
        lemma_extends_on(self.local.output, heard.output, cut.output);
        lemma_extends_on(heard.output, cut.output, stored.output);
        lemma_extends_on(heard.output, stored.output, done.output);
        lemma_extends_on(cut.output, stored.output, done.output);
        assert forall|c: CommandView<NID, M>| #[trigger]
            heard.queues(cut, c) implies self.local.queues(done, c) by {
            self.local.lemma_queued_behind(heard, cut, c);
            self.local.lemma_queued_before(cut, done, c);
        }
        assert forall|c: CommandView<NID, M>| #[trigger]
            cut.queues(stored, c) implies self.local.queues(done, c) by {
            self.local.lemma_queued_behind(cut, stored, c);
            self.local.lemma_queued_before(stored, done, c);
        }
    }

    /// A node that accepts what a leader sends commits as far as both the leader has committed
    /// and the request reaches, and no further, and never goes back. The runtime is told how
    /// far, and from where on.
    pub proof fn law_follower_commits_with_leader(
        self,
        vote: Vote<NID>,
        prev: Option<LogId<NID>>,
        entries: Seq<EntryView<NID, M>>,
        leader_committed: Option<LogId<NID>>,
    )
        requires
            self.valid(),
            vote.node_id != self.config.id,
            shows_log(prev, ids_of(entries)),
            self.append_response(vote, prev) == AppendEntriesResponse::<NID>::Success,
        ensures
            ({
                let s = self.local.state;
                let after = self.entries_received(vote, prev, entries, leader_committed);
                let t = after.local.state;
                let end = if entries.len() > 0 {
                    Some(entries.last().log_id)
                } else {
                    prev
                };
                &&& !opt_precedes(t.committed, s.committed)
                &&& !(opt_precedes(t.committed, leader_committed) && opt_precedes(
                    t.committed,
                    end,
                ))
                &&& t.committed != s.committed ==> {
                    &&& opt_precedes(s.committed, t.committed)
                    &&& !opt_precedes(leader_committed, t.committed)
                    &&& !opt_precedes(end, t.committed)
                    &&& t.committed == leader_committed || t.committed == end
                    &&& after.local.output.commands.last() == CommandView::<
                        NID,
                        M,
                    >::FollowerCommit { already_committed: s.committed, upto: t.committed->0 }
                }
            }),
    {
        let s = self.local.state;
        let ids = ids_of(entries);
        let shown = shown_log(prev, ids);
        let end = if entries.len() > 0 {
            Some(entries.last().log_id)
        } else {
            prev
        };
        self.law_success_means_stored(vote, prev, entries, leader_committed);
        if entries.len() > 0 {
            assert(ids.last() == entries.last().log_id);
            assert(shown.last() == ids.last());
        }
        assert(last_of(shown) == end);
        let upto = earlier(leader_committed, end);
        lemma_opt_order(s.committed, upto);
        lemma_opt_order(leader_committed, end);
        lemma_opt_order(upto, upto);
        lemma_order_chain(upto, s.committed, leader_committed);
        lemma_order_chain(upto, s.committed, end);
        lemma_opt_order(s.committed, leader_committed);
        lemma_opt_order(s.committed, end);
        lemma_opt_order(s.committed, s.committed);
        lemma_opt_order(end, end);
        lemma_opt_order(leader_committed, leader_committed);
        let e = self.saw_vote(vote);
        lemma_vote_order_is_total(vote, s.vote);
        self.law_side_follows_vote(vote);
        self.lemma_saw_vote(vote);
        e.local.lemma_stored_log(self.config.id, prev, entries);
    }

    /// The membership in force is always in the log, or at or before the committed position,
    /// or there from the start. It stays so whatever a leader sends: if its entry is deleted,
    /// the committed one is in force again.
    pub proof fn law_membership_in_force_is_in_log(
        self,
        vote: Vote<NID>,
        prev: Option<LogId<NID>>,
        entries: Seq<EntryView<NID, M>>,
        leader_committed: Option<LogId<NID>>,
    )
        requires
            self.valid(),
            !vote.precedes(self.local.state.vote) ==> vote.node_id != self.config.id,
            self.follows_from(vote, prev) ==> shows_log(prev, ids_of(entries)),
            ({
                let s = self.local.state;
                &&& s.membership.effective.log_id matches Some(l) ==> s.is_present(l)
                &&& s.membership.committed.log_id matches Some(l) ==> (
                s.committed matches Some(c) && l.index <= c.index)
            }),
        ensures
            ({
                let s = self.local.state;
                let t = self.entries_received(
                    vote,
                    prev,
                    entries,
                    leader_committed,
                ).local.state;
                t.membership.effective.log_id matches Some(l) ==> (s.committed matches Some(c)
                    && l.index <= c.index) || t.log.contains(l)
            }),
    {
        let s = self.local.state;
        let ids = ids_of(entries);
        lemma_vote_order_is_total(vote, s.vote);
        s.lemma_positions();
        let t = self.entries_received(vote, prev, entries, leader_committed).local.state;
        let old = s.membership.effective.log_id;
        if vote.precedes(s.vote) {
        } else if !self.follows_from(vote, prev) {
            let x = match old {
                Some(l) => l,
                None => prev->0,
            };
            self.law_conflict_reverts_membership(vote, prev, entries, leader_committed, x);
            if let Some(l) = old {
                s.lemma_reaches(l, prev->0.index as int);
            }
        } else {
            let k = s.first_missing(ids, 0);
            s.lemma_first_missing(ids, 0);
            assert forall|i: int| 0 <= i < k implies s.is_present(
                (#[trigger] entries[i]).log_id,
            ) by {
                assert(s.has_log_id(ids[i]));
                s.lemma_present(ids[i]);
            }
            if k == ids.len() {
                self.law_known_entries_change_nothing(vote, prev, entries, leader_committed);
            } else {
                assert(ids[k] == entries[k].log_id);
                s.lemma_present(ids[k]);
                if exists|j: int|
                    k <= j < entries.len() && (#[trigger] entries[j]).membership is Some {
                    let j = lemma_last_membership(entries, k);
                    self.law_missing_entries_are_stored(
                        vote,
                        prev,
                        entries,
                        leader_committed,
                        k,
                        entries[j].log_id,
                    );
                    self.law_stored_membership_is_in_force(
                        vote,
                        prev,
                        entries,
                        leader_committed,
                        k,
                        j,
                    );
                } else {
                    let x = match old {
                        Some(l) => l,
                        None => ids[k],
                    };
                    self.law_missing_entries_are_stored(
                        vote,
                        prev,
                        entries,
                        leader_committed,
                        k,
                        x,
                    );
                    self.law_plain_entries_keep_membership(
                        vote,
                        prev,
                        entries,
                        leader_committed,
                        k,
                    );
                    if let Some(l) = old {
                        s.lemma_reaches(l, ids[k].index as int);
                    }
                }
            }
        }
    }
}

/// The last membership among the entries from `k` on.
proof fn lemma_last_membership<NID, M>(entries: Seq<EntryView<NID, M>>, k: int) -> (j: int)
    requires
        0 <= k,
        exists|j: int| k <= j < entries.len() && (#[trigger] entries[j]).membership is Some,
    ensures
        is_last_membership(entries, k, entries.len() as int, j),
    decreases entries.len() - k,
{
    let j = choose|j: int| k <= j < entries.len() && (#[trigger] entries[j]).membership is Some;
    if exists|i: int| j < i < entries.len() && (#[trigger] entries[i]).membership is Some {
        lemma_last_membership(entries, j + 1)
    } else {
        j
    }
}

impl<NID: NodeId, M> RaftStateView<NID, M> {
    /// An entry of the log that is behind an index is reached from there.
    proof fn lemma_reaches(self, x: LogId<NID>, at: int)
        requires
            is_log(self.log),
        ensures
            self.log.contains(x) && x.index >= at ==> self.reaches(at),
    {
        if self.log.contains(x) {
            let i = choose|i: int| 0 <= i < self.log.len() && self.log[i] == x;
            assert(self.log[self.log.len() - 1].index == self.log[i].index + (self.log.len() - 1
                - i));
        }
    }

    /// Which ids are in the log after those from `k` on were stored.
    proof fn lemma_stored_ids(self, ids: Seq<LogId<NID>>, k: int, x: LogId<NID>)
        requires
            is_log(self.log),
            0 <= k < ids.len(),
            self.first_missing(ids, 0) == k,
        ensures
            self.log_after(ids).contains(x) <==> (self.log.contains(x) && x.index < ids[k].index)
                || exists|i: int| k <= i < ids.len() && #[trigger] ids[i] == x,
            self.log_after(ids).last() == ids.last(),
    {
        let at = ids[k].index as int;
        let cut = cut_at(self.log, at);
        let more = ids.skip(k);
        let after = self.log_after(ids);
        law_cut_keeps_what_is_before(self.log, at, x);
        assert(after == cut + more);
        if cut.contains(x) {
            let i = choose|i: int| 0 <= i < cut.len() && cut[i] == x;
            assert(after[i] == x);
        }
        if exists|i: int| k <= i < ids.len() && #[trigger] ids[i] == x {
            let i = choose|i: int| k <= i < ids.len() && #[trigger] ids[i] == x;
            assert(after[cut.len() + (i - k)] == x);
        }
        if after.contains(x) {
            let i = choose|i: int| 0 <= i < after.len() && after[i] == x;
            if i < cut.len() {
                assert(cut[i] == x);
            } else {
                assert(ids[i - cut.len() + k] == x);
            }
        }
    }
}

} // verus!
