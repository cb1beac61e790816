//! What happens to a node over time: the events, and what no event ever undoes.

use crate::command::{CommandView, OutputView};
use crate::config::EngineConfig;
use crate::entry::{ids_of, EntryView};
use crate::handler::following_handler::{earlier, later};
use crate::handler::replication_handler::requests;
use crate::leader::LeaderView;
use crate::log_id::{
    cut_at, holds, is_log, last_of, lemma_leader_order_is_total, next_index, opt_precedes, LogId,
};
use crate::membership::{EffectiveMembershipView, MembershipView};
use crate::message::{AppendEntriesResponse, VoteRequest, VoteResponse};
use crate::node::NodeId;
use crate::raft_state::{positions_agree, RaftStateView, SnapshotView};
use crate::validity::{
    lemma_cut_log_holds, lemma_id_at_held, lemma_last_held, lemma_longer_log_holds,
    lemma_purged_log, lemma_uncommitted_held,
};
use crate::view::{EngineView, LeadingView, LocalView};
use crate::vote::{lemma_vote_order_is_total, lemma_vote_order_is_transitive, Vote};
use vstd::prelude::*;

verus! {

impl<NID: NodeId, M> RaftStateView<NID, M> {
    /// Nothing that a node has promised is undone: its vote is not less, it has committed no
    /// less, and what it had committed is still in its log, unless it is purged.
    pub open spec fn keeps_promises(self, after: Self) -> bool {
        &&& !after.vote.precedes(self.vote)
        &&& next_index(self.committed) <= next_index(after.committed)
        &&& self.purged_next <= after.purged_next
        &&& forall|id: LogId<NID>| #[trigger]
            holds(self.log, id) && id.index < next_index(self.committed) && after.purged_next
                <= id.index + 1 ==> holds(after.log, id)
    }
}

impl<NID: NodeId, M> LocalView<NID, M> {
    /// The node keeps its promises, and the commands that were queued still are, in the same
    /// order.
    #[verifier::opaque]
    pub open spec fn leads_to(self, after: Self) -> bool {
        self.state.keeps_promises(after.state) && after.output.extends(self.output)
    }

    proof fn lemma_leads_to_same(self, after: Self)
        requires
            after.output.extends(self.output),
            self.state.log == after.state.log,
            self.state.vote == after.state.vote,
            self.state.committed == after.state.committed,
            self.state.purged_next == after.state.purged_next,
        ensures
            self.leads_to(after),
    {
        reveal(LocalView::leads_to);
        lemma_vote_order_is_total(self.state.vote, self.state.vote);
    }

    /// What leads on leads there.
    pub proof fn lemma_leads_on(self, middle: Self, after: Self)
        requires
            self.leads_to(middle),
            middle.leads_to(after),
        ensures
            self.leads_to(after),
    {
        reveal(LocalView::leads_to);
        let (a, b, c) = (self.state.vote, middle.state.vote, after.state.vote);
        lemma_vote_order_is_total(a, b);
        lemma_vote_order_is_total(b, c);
        lemma_vote_order_is_total(a, c);
        lemma_leader_order_is_total(a.leader(), b.leader());
        lemma_leader_order_is_total(b.leader(), c.leader());
        assert(after.output.commands.subrange(0, self.output.commands.len() as int)
            =~= self.output.commands) by {
            assert forall|i: int| 0 <= i < self.output.commands.len() implies
                after.output.commands[i] == self.output.commands[i] by {
                assert(middle.output.commands.subrange(
                    0,
                    self.output.commands.len() as int,
                )[i] == self.output.commands[i]);
                assert(after.output.commands.subrange(
                    0,
                    middle.output.commands.len() as int,
                )[i] == middle.output.commands[i]);
            }
        }
    }

    /// Queueing a command undoes nothing.
    proof fn lemma_commanded(self, c: CommandView<NID, M>)
        ensures
            self.leads_to(LocalView { output: self.output.push(c), ..self }),
    {
        lemma_push_extends(self.output, c);
        self.lemma_leads_to_same(LocalView { output: self.output.push(c), ..self });
    }

    /// A change of the part that the node plays undoes nothing.
    proof fn lemma_role_updated(self, id: NID)
        ensures
            self.leads_to(self.role_updated(id)),
    {
        lemma_push_extends(self.output, CommandView::BecomeLeader);
        lemma_push_extends(self.output, CommandView::QuitLeader);
        assert(self.output.commands.subrange(0, self.output.commands.len() as int)
            =~= self.output.commands);
        self.lemma_leads_to_same(self.role_updated(id));
    }

    /// A longer log undoes nothing.
    proof fn lemma_extended(self, after: Self, more: Seq<LogId<NID>>)
        requires
            is_log(self.state.log),
            is_log(self.state.log + more),
            after.output.extends(self.output),
            after.state.log == self.state.log + more,
            self.state.vote == after.state.vote,
            self.state.committed == after.state.committed,
            self.state.purged_next == after.state.purged_next,
        ensures
            self.leads_to(after),
    {
        reveal(LocalView::leads_to);
        lemma_vote_order_is_total(self.state.vote, self.state.vote);
        assert forall|id: LogId<NID>| #[trigger] holds(self.state.log, id) implies holds(
            after.state.log,
            id,
        ) by {
            lemma_longer_log_holds(self.state.log, more, id);
        }
    }

    /// Committing more undoes nothing.
    proof fn lemma_committed(self, after: Self)
        requires
            after.output.extends(self.output),
            self.state.log == after.state.log,
            self.state.vote == after.state.vote,
            self.state.purged_next == after.state.purged_next,
            next_index(self.state.committed) <= next_index(after.state.committed),
        ensures
            self.leads_to(after),
    {
        reveal(LocalView::leads_to);
        lemma_vote_order_is_total(self.state.vote, self.state.vote);
    }

    /// Purging undoes nothing but what it purges.
    proof fn lemma_purged(self)
        requires
            self.state.valid(),
        ensures
            self.leads_to(self.purged()),
    {
        reveal(LocalView::leads_to);
        reveal(positions_agree);
        lemma_vote_order_is_total(self.state.vote, self.state.vote);
        assert(self.output.commands.subrange(0, self.output.commands.len() as int)
            =~= self.output.commands);
        if let Some(p) = self.state.purge_upto {
            lemma_purged_log(self.state.log, p);
            lemma_push_extends(self.output, CommandView::PurgeLog { upto: p });
            assert(self.state.purged_next <= p.index + 1);
        }
    }
}

/// A command that is queued comes behind the others.
pub proof fn lemma_push_extends<NID, M>(o: OutputView<NID, M>, c: CommandView<NID, M>)
    ensures
        o.push(c).extends(o),
{
    assert(o.commands.push(c).subrange(0, o.commands.len() as int) =~= o.commands);
}

/// What is queued stays queued.
pub proof fn lemma_extends_on<NID, M>(
    a: OutputView<NID, M>,
    b: OutputView<NID, M>,
    c: OutputView<NID, M>,
)
    requires
        b.extends(a),
        c.extends(b),
    ensures
        c.extends(a),
{
    assert(c.commands.subrange(0, a.commands.len() as int) =~= a.commands) by {
        assert forall|i: int| 0 <= i < a.commands.len() implies c.commands[i] == a.commands[i] by {
            assert(b.commands.subrange(0, a.commands.len() as int)[i] == a.commands[i]);
            assert(c.commands.subrange(0, b.commands.len() as int)[i] == b.commands[i]);
        }
    }
}

proof fn lemma_push_all_extends<NID, M>(o: OutputView<NID, M>, cs: Seq<CommandView<NID, M>>)
    ensures
        o.push_all(cs).extends(o),
    decreases cs.len(),
{
    if cs.len() == 0 {
        assert(o.commands.subrange(0, o.commands.len() as int) =~= o.commands);
    } else {
        lemma_push_all_extends(o, cs.drop_last());
        lemma_push_extends(o.push_all(cs.drop_last()), cs.last());
        lemma_extends_on(o, o.push_all(cs.drop_last()), o.push_all(cs));
    }
}

impl<NID: NodeId, M> LeadingView<NID, M> {
    /// Rebuilding the streams undoes nothing.
    pub proof fn lemma_streams_rebuilt_leads(self, config: EngineConfig<NID>)
        ensures
            self.local.leads_to(self.streams_rebuilt(config).local),
    {
        reveal(LeadingView::streams_rebuilt);
        let after = self.streams_rebuilt(config).local;
        lemma_push_extends(self.local.output, after.output.commands.last());
        self.local.lemma_leads_to_same(after);
    }

    /// Sending undoes nothing.
    pub proof fn lemma_replication_initiated_leads(self, config: EngineConfig<NID>)
        ensures
            self.local.leads_to(self.replication_initiated(config).local),
    {
        reveal(LeadingView::replication_initiated);
        let max = config.max_payload_entries as int;
        let p = self.leader.progress;
        let s = self.local.state;
        lemma_push_all_extends(
            self.local.output,
            requests(p.voters, config.id, s, max) + requests(p.learners, config.id, s, max),
        );
        self.local.lemma_leads_to_same(self.replication_initiated(config).local);
    }

    proof fn lemma_accepted_committed_leads(self)
        requires
            self.valid(),
        ensures
            self.local.leads_to(self.accepted_committed().local),
    {
        reveal(LeadingView::accepted_committed);
        let s = self.local.state;
        let after = self.accepted_committed().local;
        self.leader.progress.lemma_accepted_on_log(s.log);
        match self.leader.progress.quorum_accepted() {
            Some(upto) if upto.leader_id == s.vote.leader() && opt_precedes(
                s.committed,
                Some(upto),
            ) => {
                lemma_uncommitted_held(s, upto);
                s.lemma_committed(upto);
                let c1 = CommandView::ReplicateCommitted { committed: Some(upto) };
                let c2 = CommandView::LeaderCommit { already_committed: s.committed, upto };
                lemma_push_extends(self.local.output, c1);
                lemma_push_extends(self.local.output.push(c1), c2);
                lemma_extends_on(
                    self.local.output,
                    self.local.output.push(c1),
                    self.local.output.push(c1).push(c2),
                );
                self.local.lemma_committed(after);
            },
            _ => {
                self.local.lemma_leads_to_itself();
            },
        }
    }

    proof fn lemma_local_progressed_leads(self, config: EngineConfig<NID>, upto: Option<LogId<NID>>)
        requires
            self.valid(),
            upto matches Some(u) ==> holds(self.local.state.log, u),
        ensures
            self.local.leads_to(self.local_progressed(config, upto).local),
    {
        reveal(LeadingView::local_progressed);
        self.local.lemma_leads_to_itself();
        match (upto, self.leader.progress.entry(config.id)) {
            (Some(u), Some(e)) => {
                self.local.state.lemma_positions();
                crate::validity::lemma_holds_on_log(self.local.state.log, u);
                self.leader.progress.lemma_with_is_on(
                    self.local.state.log,
                    config.id,
                    e.matched(u),
                );
                LeadingView {
                    leader: LeaderView {
                        progress: self.leader.progress.with(config.id, e.matched(u)),
                        ..self.leader
                    },
                    ..self
                }.lemma_accepted_committed_leads();
            },
            _ => {},
        }
    }

    /// Appending an entry without content undoes nothing.
    pub proof fn lemma_blank_appended_leads(self, config: EngineConfig<NID>)
        requires
            self.valid(),
            next_index(self.local.state.last_log_id()) < u64::MAX,
        ensures
            self.local.leads_to(self.blank_appended(config).local),
    {
        reveal(LeadingView::blank_appended);
        let id = self.next_log_id();
        let s = self.local.state;
        let more = seq![id];
        lemma_leader_order_is_total(id.leader_id, id.leader_id);
        self.lemma_log_extended(more);
        assert(s.log.push(id) =~= s.log + more);
        let after = LeadingView {
            local: LocalView {
                state: RaftStateView { log: s.log.push(id), ..s },
                output: self.local.output.push(CommandView::AppendBlankLog { log_id: id }),
            },
            ..self
        };
        s.lemma_positions();
        after.local.state.lemma_positions();
        lemma_push_extends(self.local.output, CommandView::AppendBlankLog { log_id: id });
        self.local.lemma_extended(after.local, more);
        lemma_last_held(after.local.state.log);
        after.lemma_local_progressed_leads(config, Some(id));
        self.local.lemma_leads_on(after.local, self.blank_appended(config).local);
    }

    proof fn lemma_membership_appended_leads(
        self,
        config: EngineConfig<NID>,
        log_id: LogId<NID>,
        m: MembershipView<NID, M>,
    )
        ensures
            self.local.leads_to(self.membership_appended(config, log_id, m).local),
    {
        reveal(LeadingView::membership_appended);
        let em = EffectiveMembershipView { log_id: Some(log_id), membership: m };
        let l = LeadingView {
            leader: LeaderView {
                progress: self.leader.progress.for_membership(
                    m,
                    crate::progress::ProgressEntry::unknown(
                        next_index(self.local.state.last_log_id()),
                    ),
                ),
                ..self.leader
            },
            local: LocalView {
                state: RaftStateView {
                    membership: self.local.state.membership.appended(em),
                    ..self.local.state
                },
                output: self.local.output.push(CommandView::UpdateMembership { membership: em }),
            },
        };
        lemma_push_extends(self.local.output, CommandView::UpdateMembership { membership: em });
        self.local.lemma_leads_to_same(l.local);
        l.lemma_streams_rebuilt_leads(config);
        self.local.lemma_leads_on(l.local, l.streams_rebuilt(config).local);
        l.streams_rebuilt(config).lemma_replication_initiated_leads(config);
        self.local.lemma_leads_on(
            l.streams_rebuilt(config).local,
            l.streams_rebuilt(config).replication_initiated(config).local,
        );
    }

    /// The effects of entries that a leader has appended keep its state valid and undo
    /// nothing.
    pub proof fn lemma_absorbed_leads(
        self,
        config: EngineConfig<NID>,
        entries: Seq<EntryView<NID, M>>,
        n: int,
    )
        requires
            self.valid(),
        ensures
            self.absorbed(config, entries, n).valid(),
            self.local.leads_to(self.absorbed(config, entries, n).local),
        decreases n,
    {
        if n <= 0 {
            self.local.lemma_leads_to_itself();
        } else {
            self.lemma_absorbed_leads(config, entries, n - 1);
            self.lemma_one_absorbed_leads(config, entries, n);
            self.local.lemma_leads_on(
                self.absorbed(config, entries, n - 1).local,
                self.absorbed(config, entries, n).local,
            );
        }
    }

    proof fn lemma_one_absorbed_leads(
        self,
        config: EngineConfig<NID>,
        entries: Seq<EntryView<NID, M>>,
        n: int,
    )
        requires
            0 < n,
            self.absorbed(config, entries, n - 1).valid(),
        ensures
            self.absorbed(config, entries, n).valid(),
            self.absorbed(config, entries, n - 1).local.leads_to(
                self.absorbed(config, entries, n).local,
            ),
    {
        let l = self.absorbed(config, entries, n - 1);
        let log_id = entries[n - 1].log_id;
        l.local.lemma_leads_to_itself();
        if let Some(m) = entries[n - 1].membership {
            let prev = crate::log_id::id_at(l.local.state.log, log_id.index - 1);
            l.local.state.lemma_positions();
            lemma_id_at_held(l.local.state.log, log_id.index - 1);
            l.lemma_local_progressed(config, prev);
            l.lemma_local_progressed_leads(config, prev);
            let p = if log_id.index > 0 {
                l.local_progressed(config, prev)
            } else {
                l
            };
            p.lemma_membership_appended(config, log_id, m);
            p.lemma_membership_appended_leads(config, log_id, m);
            l.local.lemma_leads_on(p.local, p.membership_appended(config, log_id, m).local);
        }
    }

    /// The more of the entries have taken effect, the more is committed.
    pub proof fn lemma_absorbed_commits(
        self,
        config: EngineConfig<NID>,
        entries: Seq<EntryView<NID, M>>,
        m: int,
        n: int,
    )
        requires
            self.valid(),
            0 <= m <= n,
        ensures
            next_index(self.absorbed(config, entries, m).local.state.committed) <= next_index(
                self.absorbed(config, entries, n).local.state.committed,
            ),
        decreases n,
    {
        if m < n {
            self.lemma_absorbed_commits(config, entries, m, n - 1);
            self.lemma_absorbed_leads(config, entries, n - 1);
            self.lemma_one_absorbed_leads(config, entries, n);
            reveal(LocalView::leads_to);
        }
    }

    /// Whatever counts as stored on this node, no less is committed than before.
    pub proof fn lemma_progress_commits(self, config: EngineConfig<NID>, upto: Option<LogId<NID>>)
        requires
            self.valid(),
            upto matches Some(u) ==> holds(self.local.state.log, u),
        ensures
            next_index(self.local.state.committed) <= next_index(
                self.local_progressed(config, upto).local.state.committed,
            ),
    {
        self.lemma_local_progressed_leads(config, upto);
        reveal(LocalView::leads_to);
    }
}

impl<NID: NodeId, M> LocalView<NID, M> {
    proof fn lemma_leads_to_itself(self)
        ensures
            self.leads_to(self),
    {
        assert(self.output.commands.subrange(0, self.output.commands.len() as int)
            =~= self.output.commands);
        self.lemma_leads_to_same(self);
    }
}

impl<NID: NodeId, M> LocalView<NID, M> {
    /// Cutting the log after what is committed undoes nothing.
    pub proof fn lemma_truncated_leads(self, id: NID, since: int)
        requires
            self.state.valid(),
            next_index(self.state.committed) <= since,
        ensures
            self.leads_to(self.truncated(id, since)),
    {
        self.lemma_leads_to_itself();
        self.state.lemma_positions();
        if let Some(at) = crate::log_id::id_at(self.state.log, since) {
            let c1 = CommandView::DeleteConflictLog { since: at };
            let cut = LocalView {
                state: RaftStateView {
                    log: cut_at(self.state.log, since),
                    membership: self.state.membership.cut(since),
                    ..self.state
                },
                output: self.output.push(c1),
            };
            lemma_push_extends(self.output, c1);
            assert(self.leads_to(cut)) by {
                reveal(LocalView::leads_to);
                lemma_vote_order_is_total(self.state.vote, self.state.vote);
                assert forall|id: LogId<NID>| #[trigger]
                    holds(self.state.log, id) && id.index < next_index(self.state.committed)
                    implies holds(cut.state.log, id) by {
                    lemma_cut_log_holds(self.state.log, since, id);
                }
            }
            let c2 = CommandView::UpdateMembership { membership: cut.state.membership.effective };
            let told = LocalView { output: cut.output.push(c2), ..cut };
            cut.lemma_commanded(c2);
            self.lemma_leads_on(cut, told);
            told.lemma_role_updated(id);
            self.lemma_leads_on(told, told.role_updated(id));
        }
        reveal(LocalView::truncated);
    }

    /// Appending entries undoes nothing.
    proof fn lemma_appended_leads(self, id: NID, entries: Seq<EntryView<NID, M>>, since: int)
        requires
            self.state.valid(),
            is_log(self.state.log + ids_of(entries).skip(since)),
        ensures
            self.leads_to(self.appended(id, entries, since)),
    {
        reveal(LocalView::appended);
        self.lemma_leads_to_itself();
        self.state.lemma_positions();
        if since < entries.len() {
            let n = entries.len() as int;
            let c1 = CommandView::AppendInputEntries { from: since, to: n };
            let a = LocalView {
                state: RaftStateView {
                    log: self.state.log + ids_of(entries).skip(since),
                    ..self.state
                },
                output: self.output.push(c1),
            };
            lemma_push_extends(self.output, c1);
            self.lemma_extended(a, ids_of(entries).skip(since));
            let ms = crate::handler::following_handler::memberships_in(entries.skip(since));
            let b = a.memberships_received(id, ms);
            if ms.len() > 0 {
                let c2 = CommandView::UpdateMembership { membership: ms.last() };
                let m = LocalView {
                    state: RaftStateView {
                        membership: a.state.membership.received(ms),
                        ..a.state
                    },
                    output: a.output.push(c2),
                };
                lemma_push_extends(a.output, c2);
                a.lemma_leads_to_same(m);
                self.lemma_leads_on(a, m);
                m.lemma_role_updated(id);
                self.lemma_leads_on(m, b);
            }
            b.lemma_commanded(CommandView::MoveInputCursorBy { n });
            self.lemma_leads_on(b, self.appended(id, entries, since));
        }
    }

    /// Committing what a leader has committed undoes nothing.
    proof fn lemma_follower_committed_leads(
        self,
        leader_committed: Option<LogId<NID>>,
        prev: Option<LogId<NID>>,
        ids: Seq<LogId<NID>>,
    )
        requires
            self.state.valid(),
            self.follower_committed(leader_committed, prev, ids).state.valid(),
        ensures
            self.leads_to(self.follower_committed(leader_committed, prev, ids)),
    {
        self.lemma_leads_to_itself();
        let after = self.follower_committed(leader_committed, prev, ids);
        match earlier(leader_committed, later(last_of(ids), prev)) {
            Some(upto) if opt_precedes(self.state.committed, Some(upto)) => {
                after.state.lemma_positions();
                self.state.lemma_positions();
                self.state.lemma_committed(upto);
                lemma_push_extends(
                    self.output,
                    CommandView::FollowerCommit { already_committed: self.state.committed, upto },
                );
                self.lemma_committed(after);
            },
            _ => {},
        }
    }

    /// Another vote undoes nothing if it is greater.
    proof fn lemma_vote_raised_leads(self, vote: Vote<NID>)
        requires
            self.state.vote.precedes(vote),
        ensures
            self.leads_to(
                LocalView {
                    state: RaftStateView { vote, ..self.state },
                    output: self.output.push(CommandView::SaveVote { vote }),
                },
            ),
    {
        reveal(LocalView::leads_to);
        lemma_vote_order_is_total(self.state.vote, vote);
        lemma_push_extends(self.output, CommandView::SaveVote { vote });
    }
}

impl<NID: NodeId, M> EngineView<NID, M> {
    proof fn lemma_took_side_leads(self)
        ensures
            self.local.leads_to(self.took_side().local),
            self.local.leads_to(self.became_following().local),
    {
        self.local.lemma_role_updated(self.config.id);
        let c = CommandView::InstallElectionTimer {
            can_be_leader: !self.local.state.vote.committed,
        };
        let waiting = LocalView { output: self.local.output.push(c), ..self.local };
        self.local.lemma_commanded(c);
        waiting.lemma_role_updated(self.config.id);
        self.local.lemma_leads_on(waiting, waiting.role_updated(self.config.id));
    }

    /// Taking note of a vote undoes nothing.
    pub proof fn lemma_saw_vote_leads(self, vote: Vote<NID>)
        ensures
            self.local.leads_to(self.saw_vote(vote).local),
            self.saw_vote(vote).config == self.config,
            self.saw_vote(vote).local.state.log == self.local.state.log,
            self.local.state.vote.precedes(vote) ==> self.saw_vote(vote).local.state.vote == vote,
            !self.local.state.vote.precedes(vote) ==> self.saw_vote(vote).local.state.vote
                == self.local.state.vote,
            self.saw_vote(vote).leader is Some <==> self.saw_vote(vote).local.state.is_leading(
                self.config.id,
            ),
    {
        if self.local.state.vote.precedes(vote) {
            self.local.lemma_vote_raised_leads(vote);
            let e = EngineView {
                local: LocalView {
                    state: RaftStateView { vote, ..self.local.state },
                    output: self.local.output.push(CommandView::SaveVote { vote }),
                },
                ..self
            };
            e.lemma_took_side_leads();
            self.local.lemma_leads_on(e.local, e.took_side().local);
        } else {
            self.lemma_took_side_leads();
        }
    }

    /// Taking office keeps the state valid and undoes nothing.
    pub proof fn lemma_leader_established(self)
        requires
            self.valid(),
            self.local.state.is_leading(self.config.id),
            next_index(self.local.state.last_log_id()) < u64::MAX,
        ensures
            self.leader_established().valid(),
            self.leader_established().config == self.config,
            self.local.leads_to(self.leader_established().local),
    {
        reveal(EngineView::leader_established);
        let vote = self.local.state.vote.granted();
        lemma_vote_order_is_total(self.local.state.vote, vote);
        self.lemma_saw_vote(vote);
        self.lemma_saw_vote_leads(vote);
        let l = self.saw_vote(vote).leading();
        let a = l.streams_rebuilt(self.config);
        let b = a.blank_appended(self.config);
        let c = b.replication_initiated(self.config);
        l.lemma_streams_rebuilt(self.config);
        l.lemma_streams_rebuilt_leads(self.config);
        a.lemma_blank_appended(self.config);
        a.lemma_blank_appended_leads(self.config);
        b.lemma_replication_initiated(self.config);
        b.lemma_replication_initiated_leads(self.config);
        self.local.lemma_leads_on(l.local, a.local);
        self.local.lemma_leads_on(a.local, b.local);
        self.local.lemma_leads_on(b.local, c.local);
    }

    /// Standing for election keeps the state valid and undoes nothing.
    pub proof fn lemma_elected(self)
        requires
            self.valid(),
            self.can_stand(),
        ensures
            self.elected().valid(),
            self.elected().config == self.config,
            self.local.leads_to(self.elected().local),
    {
        reveal(EngineView::elected);
        let vote = Vote {
            term: (self.local.state.vote.term + 1) as u64,
            node_id: self.config.id,
            committed: false,
        };
        self.lemma_saw_vote(vote);
        self.lemma_saw_vote_leads(vote);
        let e = self.stood();
        assert(e.local == self.saw_vote(vote).local);
        assert(e.valid());
        if (e.leader->0).is_granted() {
            e.lemma_leader_established();
            self.local.lemma_leads_on(e.local, e.leader_established().local);
        } else {
            let c1 = CommandView::SendVote {
                vote_req: VoteRequest {
                    vote: e.local.state.vote,
                    last_log_id: e.local.state.last_log_id(),
                },
            };
            let c2 = CommandView::InstallElectionTimer { can_be_leader: true };
            let asked = e.commanded(c1);
            let roled = asked.local.role_updated(self.config.id);
            e.local.lemma_commanded(c1);
            self.local.lemma_leads_on(e.local, asked.local);
            asked.local.lemma_role_updated(self.config.id);
            self.local.lemma_leads_on(asked.local, roled);
            roled.lemma_commanded(c2);
            self.local.lemma_leads_on(roled, self.elected().local);
        }
    }

    /// Appending entries at the end of the log keeps the state valid and undoes nothing.
    pub proof fn lemma_entries_taken(self, n: int)
        requires
            self.valid(),
            0 <= n,
            next_index(self.local.state.last_log_id()) + n <= u64::MAX,
        ensures
            self.entries_taken(self.local.state.next_ids(n)).valid(),
            self.local.leads_to(self.entries_taken(self.local.state.next_ids(n)).local),
    {
        let s = self.local.state;
        let ids = s.next_ids(n);
        s.lemma_positions();
        s.lemma_next_ids(n);
        lemma_leader_order_is_total(s.vote.leader(), s.vote.leader());
        s.lemma_log_extended(ids);
        self.lemma_log_extended_by(ids);
        let after = self.entries_taken(ids);
        after.local.state.lemma_positions();
        lemma_push_extends(
            self.local.output,
            CommandView::AppendInputEntries { from: 0, to: ids.len() as int },
        );
        self.local.lemma_extended(after.local, ids);
    }
}

/// What a node is told or asked to do.
#[verifier::reject_recursive_types(NID)]
pub enum Event<NID, M> {
    /// The node starts.
    Startup,
    /// The cluster is to be initialized with an entry that holds the given membership, or
    /// none.
    Initialize { membership: Option<MembershipView<NID, M>> },
    /// The election timer has fired.
    Elect,
    /// A candidate asks for a vote.
    VoteReq { req: VoteRequest<NID> },
    /// A node answers the request for a vote.
    VoteResp { target: NID, resp: VoteResponse<NID> },
    /// Clients propose entries, which hold the given memberships, or none.
    Propose { memberships: Seq<Option<MembershipView<NID, M>>> },
    /// A leader sends entries.
    AppendReq {
        vote: Vote<NID>,
        prev: Option<LogId<NID>>,
        entries: Seq<EntryView<NID, M>>,
        leader_committed: Option<LogId<NID>>,
    },
    /// It is time to check whether the node may still lead.
    StepDown,
    /// A snapshot was made.
    Snapshot { meta: SnapshotView<NID, M> },
}

impl<NID: NodeId, M> EngineView<NID, M> {
    /// A node that is initialized has cast a vote.
    proof fn lemma_initialized_vote(self, m: MembershipView<NID, M>)
        requires
            self.valid(),
            self.local.state.is_pristine(),
        ensures
            Vote::<NID>::least().precedes(
                self.initialized(self.local.state.next_ids(1)[0], m).local.state.vote,
            ),
    {
        let s = self.local.state;
        let id = s.next_ids(1)[0];
        let em = EffectiveMembershipView { log_id: Some(id), membership: m };
        let e = self.entries_taken(seq![id]);
        let in_force = EngineView {
            local: LocalView {
                state: RaftStateView {
                    membership: e.local.state.membership.appended(em),
                    ..e.local.state
                },
                ..e.local
            },
            ..e
        }.commanded(CommandView::UpdateMembership { membership: em });
        let ready = EngineView {
            local: in_force.local.role_updated(self.config.id),
            ..in_force
        }.commanded(CommandView::MoveInputCursorBy { n: 1 });
        ready.lemma_elected_vote();
    }

    proof fn lemma_elected_vote(self)
        requires
            self.local.state.vote.term < u64::MAX,
        ensures
            self.local.state.vote.precedes(self.elected().local.state.vote),
    {
        reveal(EngineView::elected);
        let e = self.stood();
        if (e.leader->0).is_granted() {
            reveal(EngineView::leader_established);
            let vote = e.local.state.vote.granted();
            lemma_vote_order_is_total(e.local.state.vote, vote);
            let l = e.saw_vote(vote).leading();
            reveal(LeadingView::streams_rebuilt);
            reveal(LeadingView::blank_appended);
            reveal(LeadingView::local_progressed);
            reveal(LeadingView::accepted_committed);
            reveal(LeadingView::replication_initiated);
        }
    }

    /// The entries that clients propose, under the ids that this node gives them.
    pub open spec fn proposed(self, memberships: Seq<Option<MembershipView<NID, M>>>) -> Seq<
        EntryView<NID, M>,
    > {
        Seq::new(
            memberships.len(),
            |i: int|
                EntryView {
                    log_id: self.local.state.next_ids(memberships.len() as int)[i],
                    membership: memberships[i],
                },
        )
    }

    /// The event can happen: the operation that handles it can be called, and a request or
    /// snapshot fits the state.
    pub open spec fn admits(self, event: Event<NID, M>) -> bool {
        match event {
            Event::Startup => true,
            Event::Initialize { membership } => true,
            Event::Elect => self.can_stand(),
            Event::VoteReq { req } => true,
            Event::VoteResp { target, resp } => self.takes_answer(target, resp),
            Event::Propose { memberships } => self.can_propose(memberships.len() as int),
            Event::AppendReq { vote, prev, entries, leader_committed } => self.trusts_request(
                vote,
                prev,
                ids_of(entries),
                leader_committed,
            ),
            Event::StepDown => true,
            Event::Snapshot { meta } => self.trusts_snapshot(meta),
        }
    }

    /// The engine after an event.
    #[verifier::opaque]
    pub open spec fn after(self, event: Event<NID, M>) -> Self {
        match event {
            Event::Startup => self.started_up(),
            Event::Initialize { membership } => self.initialize_tried(membership),
            Event::Elect => self.elected(),
            Event::VoteReq { req } => self.vote_requested(req),
            Event::VoteResp { target, resp } => self.vote_answered(target, resp),
            Event::Propose { memberships } => self.entries_appended(self.proposed(memberships)),
            Event::AppendReq { vote, prev, entries, leader_committed } => self.entries_received(
                vote,
                prev,
                entries,
                leader_committed,
            ),
            Event::StepDown => self.stepped_down(),
            Event::Snapshot { meta } => self.snapshot_finished(meta),
        }
    }

    proof fn lemma_startup(self)
        requires
            self.valid(),
        ensures
            self.started_up().valid(),
            self.started_up().config == self.config,
            self.local.leads_to(self.started_up().local),
    {
        self.lemma_took_side();
        self.lemma_took_side_leads();
        self.local.lemma_leads_to_itself();
        if self.local.state.is_leader(self.config.id) {
            let l = self.took_side().leading();
            let a = l.streams_rebuilt(self.config);
            l.lemma_streams_rebuilt(self.config);
            l.lemma_streams_rebuilt_leads(self.config);
            a.lemma_replication_initiated(self.config);
            a.lemma_replication_initiated_leads(self.config);
            self.local.lemma_leads_on(l.local, a.local);
            self.local.lemma_leads_on(a.local, a.replication_initiated(self.config).local);
        } else {
            assert(self.local.output.commands.subrange(0, self.local.output.commands.len() as int)
                =~= self.local.output.commands);
            self.local.lemma_leads_to_same(self.started_up().local);
        }
    }

    proof fn lemma_initialize(self, membership: Option<MembershipView<NID, M>>)
        requires
            self.valid(),
        ensures
            self.initialize_tried(membership).valid(),
            self.initialize_tried(membership).config == self.config,
            self.local.leads_to(self.initialize_tried(membership).local),
    {
        self.local.lemma_leads_to_itself();
        let s = self.local.state;
        if s.is_pristine() {
            let id = s.next_ids(1)[0];
            assert(s.next_ids(1) =~= seq![id]);
            self.lemma_entries_taken(1);
            let e = self.entries_taken(seq![id]);
            if let Some(m) = membership {
                let em = EffectiveMembershipView { log_id: Some(id), membership: m };
                let c1 = CommandView::UpdateMembership { membership: em };
                let in_force = EngineView {
                    local: LocalView {
                        state: RaftStateView {
                            membership: e.local.state.membership.appended(em),
                            ..e.local.state
                        },
                        ..e.local
                    },
                    ..e
                }.commanded(c1);
                lemma_push_extends(e.local.output, c1);
                e.local.lemma_leads_to_same(in_force.local);
                self.local.lemma_leads_on(e.local, in_force.local);
                let r = in_force.local.role_updated(self.config.id);
                in_force.local.lemma_role_updated(self.config.id);
                self.local.lemma_leads_on(in_force.local, r);
                let c2 = CommandView::MoveInputCursorBy { n: 1 };
                let ready = EngineView { local: r, ..in_force }.commanded(c2);
                r.lemma_commanded(c2);
                self.local.lemma_leads_on(r, ready.local);
                assert(ready.valid());
                assert(ready.local.state.log =~= seq![id]);
                ready.lemma_elected();
                self.local.lemma_leads_on(ready.local, ready.elected().local);
            }
        }
    }

    proof fn lemma_vote_answered(self, target: NID, resp: VoteResponse<NID>)
        requires
            self.valid(),
            self.takes_answer(target, resp),
        ensures
            self.vote_answered(target, resp).valid(),
            self.vote_answered(target, resp).config == self.config,
            self.local.leads_to(self.vote_answered(target, resp).local),
    {
        self.local.lemma_leads_to_itself();
        let s = self.local.state;
        if let Some(l) = self.leader {
            if resp.vote_granted {
                let e = EngineView { leader: Some(l.granted(target)), ..self };
                if l.granted(target).is_granted() {
                    e.lemma_leader_established();
                }
            } else {
                let e = if s.vote.precedes(resp.vote) {
                    EngineView {
                        local: LocalView {
                            state: RaftStateView { vote: resp.vote, ..s },
                            ..self.local
                        },
                        ..self
                    }.commanded(CommandView::SaveVote { vote: resp.vote })
                } else {
                    self
                };
                if s.vote.precedes(resp.vote) {
                    s.lemma_vote_raised(resp.vote);
                    self.local.lemma_vote_raised_leads(resp.vote);
                }
                let c = CommandView::InstallElectionTimer {
                    can_be_leader: !opt_precedes(s.last_log_id(), resp.last_log_id),
                };
                e.local.lemma_commanded(c);
                self.local.lemma_leads_on(e.local, e.commanded(c).local);
            }
        }
    }

    /// Proposed entries keep the state valid and undo nothing.
    pub proof fn lemma_proposed(self, memberships: Seq<Option<MembershipView<NID, M>>>)
        requires
            self.valid(),
            self.can_propose(memberships.len() as int),
        ensures
            self.entries_appended(self.proposed(memberships)).valid(),
            self.entries_appended(self.proposed(memberships)).config == self.config,
            self.local.leads_to(self.entries_appended(self.proposed(memberships)).local),
    {
        self.local.lemma_leads_to_itself();
        let n = memberships.len() as int;
        if n > 0 {
            let s = self.local.state;
            let entries = self.proposed(memberships);
            let ids = s.next_ids(n);
            assert(ids_of(entries) =~= ids);
            self.lemma_entries_taken(n);
            let e = self.entries_taken(ids);
            let l = e.leading();
            let a = l.absorbed(self.config, entries, n);
            let last = Some(entries.last().log_id);
            l.lemma_absorbed_leads(self.config, entries, n);
            l.lemma_absorbed_log(self.config, entries, n);
            self.local.lemma_leads_on(l.local, a.local);
            a.local.state.lemma_positions();
            assert(a.local.state.log.last() == ids.last());
            lemma_last_held(a.local.state.log);
            let b = a.local_progressed(self.config, last);
            a.lemma_local_progressed(self.config, last);
            a.lemma_local_progressed_leads(self.config, last);
            self.local.lemma_leads_on(a.local, b.local);
            let c = b.replication_initiated(self.config);
            b.lemma_replication_initiated(self.config);
            b.lemma_replication_initiated_leads(self.config);
            self.local.lemma_leads_on(b.local, c.local);
            c.local.lemma_commanded(CommandView::MoveInputCursorBy { n });
            self.local.lemma_leads_on(
                c.local,
                e.led(c).commanded(CommandView::MoveInputCursorBy { n }).local,
            );
        }
    }

    proof fn lemma_entries_received_leads(
        self,
        vote: Vote<NID>,
        prev: Option<LogId<NID>>,
        entries: Seq<EntryView<NID, M>>,
        leader_committed: Option<LogId<NID>>,
    )
        requires
            self.valid(),
            self.trusts_request(vote, prev, ids_of(entries), leader_committed),
        ensures
            self.local.leads_to(
                self.entries_received(vote, prev, entries, leader_committed).local,
            ),
    {
        let id = self.config.id;
        let ids = ids_of(entries);
        self.local.lemma_leads_to_itself();
        self.lemma_saw_vote(vote);
        self.lemma_saw_vote_leads(vote);
        lemma_vote_order_is_total(vote, self.local.state.vote);
        let e = self.saw_vote(vote);
        let s = e.local.state;
        if !vote.precedes(self.local.state.vote) {
            if !self.follows_from(vote, prev) {
                let at = prev->0.index as int;
                e.local.lemma_truncated_leads(id, at);
                self.local.lemma_leads_on(e.local, e.local.truncated(id, at));
            } else {
                let since = s.first_missing(ids, 0);
                s.lemma_first_missing(ids, 0);
                e.local.lemma_stored(id, vote, prev, entries, leader_committed);
                e.local.lemma_leads_to_itself();
                let stored = if since < ids.len() {
                    let at = ids[since].index as int;
                    let cut = e.local.truncated(id, at);
                    e.local.lemma_truncated_leads(id, at);
                    e.local.lemma_truncated(id, at);
                    s.lemma_log_after(prev, ids, ids[0]);
                    cut.lemma_appended_leads(id, entries, since);
                    self.local.lemma_leads_on(e.local, cut);
                    self.local.lemma_leads_on(cut, cut.appended(id, entries, since));
                    cut.appended(id, entries, since)
                } else {
                    e.local
                };
                stored.lemma_follower_committed(s, vote, prev, ids, leader_committed);
                stored.lemma_follower_committed_leads(leader_committed, prev, ids);
                self.local.lemma_leads_on(
                    stored,
                    stored.follower_committed(leader_committed, prev, ids),
                );
            }
        }
    }

    /// Taking note of a snapshot keeps the state valid and undoes nothing.
    pub proof fn lemma_snapshot_finished(self, meta: SnapshotView<NID, M>)
        requires
            self.valid(),
            self.trusts_snapshot(meta),
        ensures
            self.snapshot_finished(meta).valid(),
            self.snapshot_finished(meta).config == self.config,
            self.local.leads_to(self.snapshot_finished(meta).local),
    {
        self.local.lemma_leads_to_itself();
        if self.local.is_newer_snapshot(meta) {
            self.local.lemma_snapshot_planned(meta, self.config);
            let taken = self.local.snapshot_updated(meta);
            let planned = LocalView { state: taken.state.purge_planned(self.config), ..taken };
            assert(self.local.output.commands.subrange(0, self.local.output.commands.len() as int)
                =~= self.local.output.commands);
            self.local.lemma_leads_to_same(planned);
            planned.lemma_purged();
            self.local.lemma_leads_on(planned, planned.purged());
            if let Some(l) = self.leader {
                LeadingView { local: planned, leader: l }.lemma_purged_if_unused();
            } else if let Some(p) = planned.state.purge_upto {
                planned.state.lemma_purged(p);
            }
        }
    }

    proof fn lemma_event(self, event: Event<NID, M>)
        requires
            self.valid(),
            self.admits(event),
        ensures
            self.after(event).valid(),
            self.after(event).config == self.config,
            self.local.leads_to(self.after(event).local),
    {
        reveal(EngineView::after);
        self.local.lemma_leads_to_itself();
        match event {
            Event::Startup => {
                self.lemma_startup();
            },
            Event::Initialize { membership } => {
                self.lemma_initialize(membership);
            },
            Event::Elect => {
                self.lemma_elected();
            },
            Event::VoteReq { req } => {
                self.lemma_saw_vote(req.vote);
                self.lemma_saw_vote_leads(req.vote);
            },
            Event::VoteResp { target, resp } => {
                self.lemma_vote_answered(target, resp);
            },
            Event::Propose { memberships } => {
                self.lemma_proposed(memberships);
            },
            Event::AppendReq { vote, prev, entries, leader_committed } => {
                self.lemma_entries_received(vote, prev, entries, leader_committed);
                self.lemma_entries_received_leads(vote, prev, entries, leader_committed);
                assert(self.after(event).config == self.config) by {
                    self.lemma_saw_vote_leads(vote);
                }
            },
            Event::StepDown => {
                self.lemma_took_side();
                self.lemma_took_side_leads();
            },
            Event::Snapshot { meta } => {
                self.lemma_snapshot_finished(meta);
            },
        }
    }

    /// Every event that can happen keeps the state of a node valid. It undoes none of the
    /// promises of the node: its vote is not less than before, it has committed no less, and
    /// what was committed is still in its log unless it is purged. And every command that was
    /// queued is still queued, in the same order.
    pub proof fn law_every_event_keeps_promises(self, event: Event<NID, M>)
        requires
            self.valid(),
            self.admits(event),
        ensures
            self.after(event).valid(),
            self.after(event).config == self.config,
            self.local.state.keeps_promises(self.after(event).local.state),
            self.after(event).local.output.extends(self.local.output),
    {
        self.lemma_event(event);
        reveal(LocalView::leads_to);
    }
}

/// The history of a node: the states that it was in, and the events between them.
pub open spec fn is_history<NID: NodeId, M>(
    states: Seq<EngineView<NID, M>>,
    events: Seq<Event<NID, M>>,
) -> bool {
    &&& states.len() == events.len() + 1
    &&& states[0].valid()
    &&& forall|i: int|
        0 <= i < events.len() ==> states[i].admits(#[trigger] events[i]) && states[i + 1]
            == states[i].after(events[i])
}

proof fn lemma_history<NID: NodeId, M>(
    states: Seq<EngineView<NID, M>>,
    events: Seq<Event<NID, M>>,
    i: int,
    j: int,
)
    requires
        is_history(states, events),
        0 <= i <= j < states.len(),
    ensures
        states[j].valid(),
        states[j].config == states[i].config,
        states[i].local.leads_to(states[j].local),
    decreases j,
{
    states[j].local.lemma_leads_to_itself();
    if j > 0 {
        let e = events[j - 1];
        if i < j {
            lemma_history(states, events, i, j - 1);
            states[j - 1].lemma_event(e);
            states[i].local.lemma_leads_on(states[j - 1].local, states[j].local);
        } else {
            lemma_history(states, events, i - 1, j - 1);
            states[j - 1].lemma_event(e);
        }
    }
}

/// Whatever happens in between, the state of a node stays valid, its promises are kept and its
/// commands stay queued.
pub proof fn law_history_keeps_promises<NID: NodeId, M>(
    states: Seq<EngineView<NID, M>>,
    events: Seq<Event<NID, M>>,
    i: int,
    j: int,
)
    requires
        is_history(states, events),
        0 <= i <= j < states.len(),
    ensures
        states[j].valid(),
        states[j].config == states[i].config,
        states[i].local.state.keeps_promises(states[j].local.state),
        states[j].local.output.extends(states[i].local.output),
{
    lemma_history(states, events, i, j);
    reveal(LocalView::leads_to);
}

/// A vote that is granted binds the node for good: whatever happens afterwards, it refuses
/// every candidate and every leader with a lesser vote.
pub proof fn law_granted_vote_binds<NID: NodeId, M>(
    states: Seq<EngineView<NID, M>>,
    events: Seq<Event<NID, M>>,
    i: int,
    j: int,
    req: VoteRequest<NID>,
    other: VoteRequest<NID>,
)
    requires
        is_history(states, events),
        0 <= i < j < states.len(),
        events[i] == (Event::<NID, M>::VoteReq { req }),
        states[i].grants(req),
        other.vote.precedes(req.vote),
    ensures
        states[i + 1].local.state.vote == req.vote,
        !states[j].grants(other),
        forall|prev: Option<LogId<NID>>| #[trigger]
            states[j].append_response(other.vote, prev) == (AppendEntriesResponse::HigherVote(
                states[j].local.state.vote,
            )),
{
    states[i].lemma_saw_vote_leads(req.vote);
    lemma_vote_order_is_total(states[i].local.state.vote, req.vote);
    reveal(EngineView::after);
    law_history_keeps_promises(states, events, i + 1, j);
    lemma_vote_order_is_transitive(other.vote, req.vote, states[j].local.state.vote);
}

/// A cluster is initialized only once: whatever happens after a node was initialized, it
/// cannot be initialized again, and an attempt changes nothing.
pub proof fn law_initialized_once<NID: NodeId, M>(
    states: Seq<EngineView<NID, M>>,
    events: Seq<Event<NID, M>>,
    i: int,
    j: int,
    membership: MembershipView<NID, M>,
    other: Option<MembershipView<NID, M>>,
)
    requires
        is_history(states, events),
        0 <= i < j < states.len(),
        events[i] == (Event::<NID, M>::Initialize { membership: Some(membership) }),
        states[i].local.state.is_pristine(),
        membership.voters().contains(states[i].config.id),
    ensures
        !states[j].local.state.is_pristine(),
        states[j].initialize_tried(other) == states[j],
{
    lemma_history(states, events, 0, i);
    states[i].lemma_initialized_vote(membership);
    reveal(EngineView::after);
    law_history_keeps_promises(states, events, i + 1, j);
    lemma_vote_order_is_transitive(
        Vote::<NID>::least(),
        states[i + 1].local.state.vote,
        states[j].local.state.vote,
    );
    lemma_vote_order_is_total(Vote::<NID>::least(), states[j].local.state.vote);
}

} // verus!
