//! What an election does: who is asked, who grants, who takes office, and what the runtime is
//! told of it.

use crate::command::CommandView;
use crate::leader::LeaderView;
use crate::log_id::{
    lemma_leader_order_is_total, lemma_opt_order, lemma_order_chain, next_index, opt_precedes,
    LeaderId, LogId,
};
use crate::meaning::{law_known_progress, law_present_entries};
use crate::membership::{EffectiveMembershipView, MembershipView};
use crate::message::{VoteRequest, VoteResponse};
use crate::node::NodeId;
use crate::progress::{ProgressEntry, ProgressView};
use crate::raft_state::RaftStateView;
use crate::validity::lemma_last_held;
use crate::view::{EngineView, LeadingView, LocalView};
use crate::vote::{lemma_vote_order_is_total, lemma_vote_order_is_transitive, Vote};
use vstd::prelude::*;

verus! {

impl<NID: NodeId, M> LocalView<NID, M> {
    /// The command is among those that were queued from here to `after`.
    pub open spec fn queues(self, after: Self, c: CommandView<NID, M>) -> bool {
        exists|j: int|
            self.output.commands.len() <= j < after.output.commands.len()
                && #[trigger] after.output.commands[j] == c
    }

    /// What was queued on the way is still queued afterwards.
    pub proof fn lemma_queued_before(self, middle: Self, after: Self, c: CommandView<NID, M>)
        requires
            self.queues(middle, c),
            after.output.extends(middle.output),
        ensures
            self.queues(after, c),
    {
        let j = choose|j: int|
            self.output.commands.len() <= j < middle.output.commands.len()
                && #[trigger] middle.output.commands[j] == c;
        assert(after.output.commands.subrange(0, middle.output.commands.len() as int)[j]
            == middle.output.commands[j]);
        assert(after.output.commands[j] == c);
    }

    /// What is queued later is queued.
    pub proof fn lemma_queued_behind(self, middle: Self, after: Self, c: CommandView<NID, M>)
        requires
            middle.queues(after, c),
            middle.output.extends(self.output),
        ensures
            self.queues(after, c),
    {
        let j = choose|j: int|
            middle.output.commands.len() <= j < after.output.commands.len()
                && #[trigger] after.output.commands[j] == c;
        assert(after.output.commands[j] == c);
    }

    /// A node plays the part that its vote and the membership in force give it. The runtime is
    /// told when it becomes leader and when it is leader no longer, and of nothing else.
    pub proof fn law_changes_of_part_are_told(self, id: NID)
        ensures
            ({
                let after = self.role_updated(id);
                let voter = self.state.membership.effective.membership.voters().contains(id);
                let leader = voter && self.state.vote.node_id == id && self.state.vote.committed;
                &&& after.state == (RaftStateView {
                    server_state: after.state.server_state,
                    ..self.state
                })
                &&& after.state.server_state is Leader <==> leader
                &&& after.state.server_state is Learner <==> !voter
                &&& after.state.server_state is Candidate <==> voter && !leader
                    && self.state.vote.node_id == id
                &&& leader && self.state.server_state !is Leader ==> after.output.commands
                    == self.output.commands.push(CommandView::BecomeLeader)
                &&& !leader && self.state.server_state is Leader ==> after.output.commands
                    == self.output.commands.push(CommandView::QuitLeader)
                &&& (leader <==> self.state.server_state is Leader) ==> after.output.commands
                    == self.output.commands
                &&& after.state.server_state != self.state.server_state
                    ==> after.output.flags.cluster
                &&& after.state.server_state == self.state.server_state ==> after == self
                &&& after.output.flags.replication == self.output.flags.replication
                &&& after.output.flags.local_data == self.output.flags.local_data
            }),
    {
    }
}

impl<NID: NodeId, M> EngineView<NID, M> {
    /// A candidacy starts from nothing: no vote is granted, nothing is on its way, and of no
    /// log anything is known but of the own one. Any log may match up to the end of the own.
    pub proof fn law_candidacy_starts_from_nothing(self, k: int)
        ensures
            ({
                let s = self.local.state;
                let c = self.candidacy();
                let p = c.progress;
                &&& c.vote == s.vote
                &&& c.granted_by =~= Set::<NID>::empty()
                &&& p.configs == s.membership.effective.membership.configs
                &&& next_index(s.last_log_id()) <= u64::MAX && 0 <= k < p.voters.len() ==> {
                    let (id, e) = p.voters[k];
                    &&& e.inflight is Idle
                    &&& e.searching_end == next_index(s.last_log_id())
                    &&& id == self.config.id ==> e.matching == s.last_log_id()
                    &&& id != self.config.id ==> e.matching is None
                }
                &&& next_index(s.last_log_id()) <= u64::MAX && 0 <= k < p.learners.len() ==> {
                    let (id, e) = p.learners[k];
                    &&& e.inflight is Idle
                    &&& e.searching_end == next_index(s.last_log_id())
                    &&& id == self.config.id ==> e.matching == s.last_log_id()
                    &&& id != self.config.id ==> e.matching is None
                }
            }),
    {
        let s = self.local.state;
        let none = ProgressView::<NID>::none();
        let l = LeaderView::started(
            s.vote,
            s.membership.effective.membership,
            s.last_log_id(),
        );
        assert forall|id: NID| (#[trigger] none.entry(id)) is None by {}
        let id = self.config.id;
        match l.progress.entry(id) {
            Some(e) => {
                law_known_progress(l.progress, id, id, e);
            },
            None => {
                law_known_progress(
                    l.progress,
                    id,
                    id,
                    ProgressEntry::unknown(0),
                );
            },
        }
    }

    /// A node leads just if its vote is for itself. A node that stays with the same leadership
    /// keeps the votes it was granted and what it knows of the others, and a node that follows
    /// waits before it asks for votes: longer if there is a leader. Nothing else is queued but that
    /// the node becomes leader, or is no longer.
    pub proof fn law_side_follows_vote(self, vote: Vote<NID>)
        requires
            !vote.precedes(self.local.state.vote),
        ensures
            ({
                let after = self.saw_vote(vote);
                let s = self.local.state;
                &&& after.config == self.config
                &&& after.local.state == (RaftStateView {
                    vote,
                    server_state: after.local.state.server_state,
                    ..s
                })
                &&& after.leader is Some <==> vote.node_id == self.config.id
                &&& vote != s.vote ==> self.local.queues(
                    after.local,
                    CommandView::SaveVote { vote },
                )
                &&& vote.node_id != self.config.id ==> self.local.queues(
                    after.local,
                    CommandView::InstallElectionTimer { can_be_leader: !vote.committed },
                )
                &&& vote.node_id == self.config.id || self.leader is Some
                    ==> after.local.state.server_state == after.local.state.role_of(
                    self.config.id,
                )
                &&& vote.node_id != self.config.id && self.leader is None
                    ==> after.local.state.server_state == s.server_state
                &&& after.local.output.commands.len() == self.local.output.commands.len() + (
                if vote != s.vote {
                    1int
                } else {
                    0
                }) + (if vote.node_id != self.config.id {
                    1int
                } else {
                    0
                }) + (if (after.local.state.server_state is Leader) != (s.server_state is Leader) {
                    1int
                } else {
                    0
                })
                &&& vote.node_id == self.config.id ==> {
                    let l = after.leader->0;
                    &&& l.vote == vote
                    &&& (self.leader matches Some(b) && b.vote.term == vote.term && b.vote.node_id
                        == vote.node_id) ==> l.granted_by == (self.leader->0).granted_by
                        && l.progress == (self.leader->0).progress
                    &&& !(self.leader matches Some(b) && b.vote.term == vote.term
                        && b.vote.node_id == vote.node_id) ==> l.granted_by
                        =~= Set::<NID>::empty()
                }
            }),
    {
        let s = self.local.state;
        lemma_vote_order_is_total(vote, s.vote);
        let e = if s.vote.precedes(vote) {
            EngineView {
                local: LocalView {
                    state: RaftStateView { vote, ..s },
                    output: self.local.output.push(CommandView::SaveVote { vote }),
                },
                ..self
            }
        } else {
            self
        };
        let n = self.local.output.commands.len() as int;
        let after = self.saw_vote(vote).local.output.commands;
        assert(self.saw_vote(vote) == e.took_side());
        e.law_candidacy_starts_from_nothing(0);
        if vote != s.vote {
            assert(after[n] == CommandView::<NID, M>::SaveVote { vote });
        }
        if vote.node_id != self.config.id {
            let m = e.local.output.commands.len() as int;
            assert(after[m] == CommandView::<NID, M>::InstallElectionTimer {
                can_be_leader: !vote.committed,
            });
        }
    }

    /// A node that comes to stand for another leadership than before knows of no log but its
    /// own, and has nothing on its way to others, whatever it knew before.
    pub proof fn law_new_candidacy_forgets(self, vote: Vote<NID>, k: int)
        requires
            !vote.precedes(self.local.state.vote),
            vote.node_id == self.config.id,
            self.leader matches Some(l) ==> l.vote.term != vote.term || l.vote.node_id
                != vote.node_id,
            next_index(self.local.state.last_log_id()) <= u64::MAX,
        ensures
            ({
                let s = self.local.state;
                let l = self.saw_vote(vote).leader->0;
                let p = l.progress;
                &&& l.granted_by =~= Set::<NID>::empty()
                &&& p.configs == s.membership.effective.membership.configs
                &&& 0 <= k < p.voters.len() ==> {
                    let (id, e) = p.voters[k];
                    &&& e.inflight is Idle
                    &&& e.searching_end == next_index(s.last_log_id())
                    &&& id == self.config.id ==> e.matching == s.last_log_id()
                    &&& id != self.config.id ==> e.matching is None
                }
                &&& 0 <= k < p.learners.len() ==> {
                    let (id, e) = p.learners[k];
                    &&& e.inflight is Idle
                    &&& e.searching_end == next_index(s.last_log_id())
                    &&& id == self.config.id ==> e.matching == s.last_log_id()
                    &&& id != self.config.id ==> e.matching is None
                }
            }),
    {
        let s = self.local.state;
        lemma_vote_order_is_total(vote, s.vote);
        let e = if s.vote.precedes(vote) {
            EngineView {
                local: LocalView {
                    state: RaftStateView { vote, ..s },
                    output: self.local.output.push(CommandView::SaveVote { vote }),
                },
                ..self
            }
        } else {
            self
        };
        assert(self.saw_vote(vote) == e.took_side());
        e.law_candidacy_starts_from_nothing(k);
    }

    /// A node that stands for election votes for itself in the next term, and tells the
    /// runtime to store that vote. It is leader at once just if it is, by itself, more than
    /// half of every configuration. Otherwise it asks for votes, whatever it did before: with
    /// just the vote and the last log id that it has, after that vote is told to be stored, and
    /// waits for the answers. Nothing else that it has stored changes.
    pub proof fn law_election_asks_for_votes(self)
        requires
            self.valid(),
            self.stands_by_vote(),
            self.can_stand(),
        ensures
            ({
                let (s, after) = (self.local.state, self.elected());
                let t = after.local.state;
                let cs = after.local.output.commands;
                let n = self.local.output.commands.len() as int;
                let configs = s.membership.effective.membership.configs;
                let me = set![self.config.id];
                &&& after.config == self.config
                &&& t.vote.term == s.vote.term + 1
                &&& t.vote.node_id == self.config.id
                &&& t.vote.committed <==> forall|i: int|
                    0 <= i < configs.len() ==> 2 * (#[trigger] configs[i]).intersect(me).len()
                        > configs[i].len()
                &&& cs[n] == CommandView::<NID, M>::SaveVote {
                    vote: Vote { committed: false, ..t.vote },
                }
                &&& t.server_state == t.role_of(self.config.id)
                &&& !t.vote.committed ==> {
                    &&& t == (RaftStateView { vote: t.vote, server_state: t.server_state, ..s })
                    &&& exists|j: int|
                        n < j < cs.len() && #[trigger] cs[j] == CommandView::<NID, M>::SendVote {
                            vote_req: VoteRequest { vote: t.vote, last_log_id: s.last_log_id() },
                        }
                    &&& cs.last() == CommandView::<NID, M>::InstallElectionTimer {
                        can_be_leader: true,
                    }
                    &&& cs.len() == n + 3 + (if s.server_state is Leader {
                        1int
                    } else {
                        0
                    })
                    &&& after.leader matches Some(l) && l.vote == t.vote && l.granted_by =~= me
                }
                &&& t.vote.committed ==> {
                    &&& t.log == s.log.push(t.log.last())
                    &&& t.membership.effective == s.membership.effective
                    &&& self.local.queues(after.local, CommandView::SaveVote { vote: t.vote })
                }
            }),
    {
        let s = self.local.state;
        let after = self.elected();
        let t = after.local.state;
        let cs = after.local.output.commands;
        let n = self.local.output.commands.len() as int;
        let configs = s.membership.effective.membership.configs;
        let me = set![self.config.id];
        self.lemma_stood();
        self.lemma_elected_leads();
        self.lemma_elected();
        let e = self.stood();
        let l = e.leader->0;
        assert(l.progress.configs == configs);
        assert(l.is_granted() <==> forall|i: int|
            0 <= i < configs.len() ==> 2 * (#[trigger] configs[i]).intersect(me).len()
                > configs[i].len()) by {
            assert(l.granted_by == me);
        }
        assert(self.local.state.vote.precedes(self.next_vote()));
        assert(e.local.output.commands[n] == CommandView::<NID, M>::SaveVote {
            vote: self.next_vote(),
        });
        self.lemma_saw_vote(self.next_vote());
        assert(e.valid());
        if l.is_granted() {
            e.lemma_leader_established();
            reveal(LocalView::leads_to);
            assert(cs.subrange(0, e.local.output.commands.len() as int)[n]
                == e.local.output.commands[n]) by {
                reveal(EngineView::elected);
            }
            assert(after == e.leader_established()) by {
                reveal(EngineView::elected);
            }
            e.lemma_leader_established_leads();
            e.law_office_is_taken();
            self.local.lemma_queued_behind(
                e.local,
                after.local,
                CommandView::SaveVote { vote: t.vote },
            );
        } else {
            reveal(EngineView::elected);
            let j = e.local.output.commands.len() as int;
            assert(cs[n] == e.local.output.commands[n]);
            assert(cs[j] == CommandView::<NID, M>::SendVote {
                vote_req: VoteRequest { vote: t.vote, last_log_id: s.last_log_id() },
            });
            assert(l.vote == t.vote) by {
                let vote = self.next_vote();
                self.law_side_follows_vote(vote);
                lemma_vote_order_is_total(vote, s.vote);
            }
        }
    }

    /// A node that takes office has the vote of a leader and tells the runtime to store it,
    /// and tells it that the node is leader. The membership in force and the snapshot stay.
    pub proof fn law_office_is_taken(self)
        requires
            self.valid(),
            self.local.state.is_leading(self.config.id),
            next_index(self.local.state.last_log_id()) < u64::MAX,
        ensures
            ({
                let (s, after) = (self.local.state, self.leader_established());
                let t = after.local.state;
                let voter = s.membership.effective.membership.voters().contains(self.config.id);
                &&& t.vote.term == s.vote.term
                &&& t.vote.node_id == s.vote.node_id
                &&& t.vote.committed
                &&& after.leader is Some
                &&& t.log == s.log.push(t.log.last())
                &&& t.log.last().leader_id == (LeaderId {
                    term: s.vote.term,
                    node_id: s.vote.node_id,
                })
                &&& t.log.last().index == next_index(s.last_log_id())
                &&& !s.vote.committed ==> self.local.queues(
                    after.local,
                    CommandView::SaveVote { vote: t.vote },
                )
                &&& self.local.queues(
                    after.local,
                    CommandView::AppendBlankLog { log_id: t.log.last() },
                )
                &&& voter ==> t.server_state is Leader
                &&& voter && s.server_state !is Leader ==> self.local.queues(
                    after.local,
                    CommandView::BecomeLeader,
                )
                &&& !voter ==> t.server_state is Learner
                &&& t.server_state == t.role_of(self.config.id)
                &&& t.membership.effective == s.membership.effective
                &&& t.snapshot == s.snapshot
                &&& t.purge_upto == s.purge_upto
                &&& t.purged_next == s.purged_next
            }),
    {
        let s = self.local.state;
        let vote = s.vote.granted();
        let after = self.leader_established();
        lemma_vote_order_is_total(s.vote, vote);
        self.law_office_opens_with_blank();
        self.lemma_office();
        reveal(LeadingView::serves);
        let e = self.saw_vote(vote);
        self.law_side_follows_vote(vote);
        self.lemma_office_extends();
        assert(e.local.output.extends(self.local.output)) by {
            self.lemma_saw_vote_leads(vote);
            reveal(LocalView::leads_to);
        }
        if !s.vote.committed {
            self.local.lemma_queued_before(
                e.local,
                after.local,
                CommandView::SaveVote { vote },
            );
        }
        let cs = after.local.output.commands;
        let m = e.local.output.commands.len() as int;
        assert(cs[m + 1] == CommandView::<NID, M>::AppendBlankLog {
            log_id: after.local.state.log.last(),
        });
        let voter = s.membership.effective.membership.voters().contains(self.config.id);
        if voter && s.server_state !is Leader {
            assert(e.local.output.commands.last() is BecomeLeader);
            assert(e.local.output.commands[m - 1] == CommandView::<NID, M>::BecomeLeader);
            assert(self.local.queues(e.local, CommandView::BecomeLeader));
            self.local.lemma_queued_before(e.local, after.local, CommandView::BecomeLeader);
        }
        self.lemma_office_keeps();
    }

    /// What is told of the vote is told first.
    proof fn lemma_office_extends(self)
        requires
            self.valid(),
            self.local.state.is_leading(self.config.id),
            next_index(self.local.state.last_log_id()) < u64::MAX,
        ensures
            self.leader_established().local.output.extends(
                self.saw_vote(self.local.state.vote.granted()).local.output,
            ),
    {
        reveal(EngineView::leader_established);
        let vote = self.local.state.vote.granted();
        lemma_vote_order_is_total(self.local.state.vote, vote);
        self.lemma_saw_vote(vote);
        let l = self.saw_vote(vote).leading();
        let a = l.streams_rebuilt(self.config);
        let b = a.blank_appended(self.config);
        l.lemma_streams_rebuilt(self.config);
        l.lemma_streams_rebuilt_leads(self.config);
        a.lemma_blank_appended_leads(self.config);
        b.lemma_replication_initiated_leads(self.config);
        l.local.lemma_leads_on(a.local, b.local);
        l.local.lemma_leads_on(b.local, b.replication_initiated(self.config).local);
        reveal(LocalView::leads_to);
    }

    /// Taking office leaves the membership in force and the snapshot.
    proof fn lemma_office_keeps(self)
        requires
            self.local.state.is_leading(self.config.id),
        ensures
            ({
                let (s, t) = (self.local.state, self.leader_established().local.state);
                &&& t.membership.effective == s.membership.effective
                &&& t.snapshot == s.snapshot
                &&& t.purge_upto == s.purge_upto
                &&& t.purged_next == s.purged_next
            }),
    {
        reveal(EngineView::leader_established);
        reveal(LeadingView::streams_rebuilt);
        reveal(LeadingView::blank_appended);
        reveal(LeadingView::local_progressed);
        reveal(LeadingView::accepted_committed);
        reveal(LeadingView::replication_initiated);
        lemma_vote_order_is_total(self.local.state.vote, self.local.state.vote.granted());
    }

    /// A node grants a vote just if the vote is not less than its own and the log of the
    /// candidate ends not before its own. It then has that vote, tells the runtime to store
    /// it if it is another, and waits for the candidate. Otherwise nothing happens.
    pub proof fn law_better_candidate_is_granted(self, req: VoteRequest<NID>)
        ensures
            ({
                let (s, after) = (self.local.state, self.vote_requested(req));
                let behind = opt_precedes(req.last_log_id, s.last_log_id());
                &&& s.vote.precedes(req.vote) && !behind ==> self.grants(req)
                &&& s.vote == req.vote && !behind ==> self.grants(req)
                &&& req.vote.precedes(s.vote) || behind ==> !self.grants(req)
                &&& self.grants(req) ==> {
                    &&& after.local.state.vote == req.vote
                    &&& after.local.state == (RaftStateView {
                        vote: req.vote,
                        server_state: after.local.state.server_state,
                        ..s
                    })
                    &&& after.leader is Some <==> req.vote.node_id == self.config.id
                    &&& req.vote != s.vote ==> self.local.queues(
                        after.local,
                        CommandView::SaveVote { vote: req.vote },
                    )
                    &&& req.vote.node_id != self.config.id ==> self.local.queues(
                        after.local,
                        CommandView::InstallElectionTimer { can_be_leader: !req.vote.committed },
                    )
                }
                &&& !self.grants(req) ==> after == self
            }),
    {
        lemma_vote_order_is_total(req.vote, self.local.state.vote);
        lemma_vote_order_is_total(self.local.state.vote, self.local.state.vote);
        if self.grants(req) {
            self.law_side_follows_vote(req.vote);
        }
    }

    /// Whoever would be granted its vote would be granted a greater one too, and with a longer
    /// log.
    pub proof fn law_grants_are_monotonic(self, worse: VoteRequest<NID>, better: VoteRequest<NID>)
        requires
            self.grants(worse),
            worse.vote == better.vote || worse.vote.precedes(better.vote),
            !opt_precedes(better.last_log_id, worse.last_log_id),
        ensures
            self.grants(better),
    {
        let v = self.local.state.vote;
        lemma_vote_order_is_total(worse.vote, better.vote);
        lemma_vote_order_is_total(worse.vote, v);
        lemma_vote_order_is_total(better.vote, v);
        if better.vote.precedes(v) && worse.vote.precedes(better.vote) {
            lemma_vote_order_is_transitive(worse.vote, better.vote, v);
        }
        let last = self.local.state.last_log_id();
        lemma_opt_order(better.last_log_id, worse.last_log_id);
        lemma_opt_order(worse.last_log_id, last);
        lemma_opt_order(better.last_log_id, last);
        lemma_order_chain(last, worse.last_log_id, better.last_log_id);
    }

    /// A granted vote is noted for the node that granted it. As long as those that granted
    /// it are not more than half of every configuration, nothing else changes and nothing is
    /// queued. After a refusal the node waits, and has stored the greater vote if there is one.
    pub proof fn law_answers_are_noted(self, target: NID, resp: VoteResponse<NID>)
        requires
            self.in_step(),
            self.leader is Some,
        ensures
            ({
                let (s, after) = (self.local.state, self.vote_answered(target, resp));
                let (l, m) = (self.leader->0, after.leader->0);
                let votes = l.granted_by.insert(target);
                let configs = s.membership.effective.membership.configs;
                let enough = forall|i: int|
                    0 <= i < configs.len() ==> 2 * (#[trigger] configs[i]).intersect(votes).len()
                        > configs[i].len();
                &&& resp.vote_granted && !enough ==> {
                    &&& after.local == self.local
                    &&& after.leader is Some
                    &&& m.vote == l.vote
                    &&& m.progress == l.progress
                    &&& m.granted_by == votes
                }
                &&& resp.vote_granted && enough && s.vote.node_id == self.config.id ==> {
                    &&& after.local.state.vote.committed
                    &&& after.local.state.vote.term == s.vote.term
                    &&& after.local.state.vote.node_id == self.config.id
                }
                &&& !resp.vote_granted ==> {
                    &&& after.leader == self.leader
                    &&& s.vote.precedes(resp.vote) ==> after.local.state.vote == resp.vote
                        && self.local.queues(
                        after.local,
                        CommandView::SaveVote { vote: resp.vote },
                    )
                    &&& !s.vote.precedes(resp.vote) ==> after.local.state == s
                        && after.local.output.commands.len() == self.local.output.commands.len() + 1
                    &&& after.local.output.commands.last() == CommandView::<
                        NID,
                        M,
                    >::InstallElectionTimer {
                        can_be_leader: !opt_precedes(s.last_log_id(), resp.last_log_id),
                    }
                }
            }),
    {
        let l = self.leader->0;
        let e = EngineView { leader: Some(l.granted(target)), ..self };
        if resp.vote_granted && l.granted(target).is_granted() && self.local.state.vote.node_id
            == self.config.id {
            e.lemma_leader_established_leads();
        }
        if !resp.vote_granted && self.local.state.vote.precedes(resp.vote) {
            let n = self.local.output.commands.len() as int;
            assert(self.vote_answered(target, resp).local.output.commands[n] == CommandView::<
                NID,
                M,
            >::SaveVote { vote: resp.vote });
        }
    }

    /// A candidate takes office with the vote that makes those that granted it more than half of
    /// every configuration: the runtime is told to store the vote of a leader, that the node is
    /// leader, and to append the first entry of the leader, which comes next in the log.
    pub proof fn law_quorum_makes_leader(self, target: NID, resp: VoteResponse<NID>)
        requires
            self.valid(),
            self.in_step(),
            self.leader is Some,
            self.local.state.vote.node_id == self.config.id,
            !self.local.state.vote.committed,
            resp.vote_granted,
            next_index(self.local.state.last_log_id()) < u64::MAX,
            ({
                let configs = self.local.state.membership.effective.membership.configs;
                let votes = (self.leader->0).granted_by.insert(target);
                forall|i: int|
                    0 <= i < configs.len() ==> 2 * (#[trigger] configs[i]).intersect(votes).len()
                        > configs[i].len()
            }),
        ensures
            ({
                let (s, after) = (self.local.state, self.vote_answered(target, resp));
                let t = after.local.state;
                let own = LeaderId { term: s.vote.term, node_id: s.vote.node_id };
                let id = LogId { leader_id: own, index: next_index(s.last_log_id()) as u64 };
                let voter = s.membership.effective.membership.voters().contains(self.config.id);
                &&& after.leader is Some
                &&& t.vote == (Vote { committed: true, ..s.vote })
                &&& t.log == s.log.push(id)
                &&& t.membership.effective == s.membership.effective
                &&& self.local.queues(after.local, CommandView::SaveVote { vote: t.vote })
                &&& self.local.queues(after.local, CommandView::AppendBlankLog { log_id: id })
                &&& voter ==> t.server_state is Leader
                &&& voter && s.server_state !is Leader ==> self.local.queues(
                    after.local,
                    CommandView::BecomeLeader,
                )
            }),
    {
        let l = self.leader->0;
        let e = EngineView { leader: Some(l.granted(target)), ..self };
        assert(l.granted(target).is_granted());
        assert(e.valid());
        e.law_office_is_taken();
    }

    /// A pristine node that is to vote in the first membership appends the entry with it as
    /// the first one of its log, puts the membership in force, tells the runtime so, and
    /// stands for election in the first term.
    pub proof fn law_initialize_starts_cluster(self, m: MembershipView<NID, M>)
        requires
            self.valid(),
            self.in_step(),
            self.local.state.log.len() == 0,
            self.local.state.vote == (Vote {
                term: 0,
                node_id: NID::default_spec(),
                committed: false,
            }),
            m.voters().contains(self.config.id),
        ensures
            ({
                let (s, after) = (self.local.state, self.initialize_tried(Some(m)));
                let t = after.local.state;
                let cs = after.local.output.commands;
                let n = self.local.output.commands.len() as int;
                let id = LogId {
                    leader_id: LeaderId { term: 0, node_id: NID::default_spec() },
                    index: 0,
                };
                let em = EffectiveMembershipView { log_id: Some(id), membership: m };
                let me = set![self.config.id];
                &&& t.log.len() >= 1
                &&& t.log[0] == id
                &&& t.vote.term == 1
                &&& t.vote.node_id == self.config.id
                &&& t.vote.committed <==> forall|i: int|
                    0 <= i < m.configs.len() ==> 2 * (#[trigger] m.configs[i]).intersect(me).len()
                        > m.configs[i].len()
                &&& t.membership.effective == em
                &&& t.server_state == t.role_of(self.config.id)
                &&& cs.len() > n + 2
                &&& cs[n] == CommandView::<NID, M>::AppendInputEntries { from: 0, to: 1 }
                &&& cs[n + 1] == CommandView::<NID, M>::UpdateMembership { membership: em }
                &&& exists|j: int|
                    n + 1 < j < cs.len() && #[trigger] cs[j] == CommandView::<
                        NID,
                        M,
                    >::MoveInputCursorBy { n: 1 }
                &&& !t.vote.committed ==> {
                    &&& t.log.len() == 1
                    &&& t.membership.committed == s.membership.effective
                    &&& t.committed == s.committed
                    &&& self.local.queues(
                        after.local,
                        CommandView::SendVote {
                            vote_req: VoteRequest { vote: t.vote, last_log_id: Some(id) },
                        },
                    )
                }
            }),
    {
        let s = self.local.state;
        let id = s.next_ids(1)[0];
        let em = EffectiveMembershipView { log_id: Some(id), membership: m };
        let n = self.local.output.commands.len() as int;
        let a = self.entries_taken(seq![id]);
        let b = EngineView {
            local: LocalView {
                state: RaftStateView {
                    membership: a.local.state.membership.appended(em),
                    ..a.local.state
                },
                ..a.local
            },
            ..a
        }.commanded(CommandView::UpdateMembership { membership: em });
        let c = EngineView { local: b.local.role_updated(self.config.id), ..b }.commanded(
            CommandView::MoveInputCursorBy { n: 1 },
        );
        assert(self.initialize_tried(Some(m)) == c.elected());
        self.lemma_entries_taken(1);
        assert(s.next_ids(1) =~= seq![id]);
        assert(c.valid()) by {
            assert(a.valid());
        }
        let l = c.local.output.commands.len() as int;
        assert(c.local.output.commands[n] == CommandView::<NID, M>::AppendInputEntries {
            from: 0,
            to: 1,
        });
        assert(c.local.output.commands[n + 1] == CommandView::<NID, M>::UpdateMembership {
            membership: em,
        });
        assert(c.local.output.commands[l - 1] == CommandView::<NID, M>::MoveInputCursorBy { n: 1 });
        c.lemma_elected();
        c.law_election_asks_for_votes();
        reveal(LocalView::leads_to);
        let after = c.elected().local.output.commands;
        assert forall|i: int| 0 <= i < l implies #[trigger] after[i]
            == c.local.output.commands[i] by {
            assert(after.subrange(0, l)[i] == after[i]);
        }
        assert(after[l - 1] == CommandView::<NID, M>::MoveInputCursorBy { n: 1 });
    }

    /// A node that is not pristine is not initialized: nothing changes. If there is no
    /// membership, or the node does not vote in it, the entry is appended and nothing else
    /// happens.
    pub proof fn law_initialize_is_refused(self, membership: Option<MembershipView<NID, M>>)
        requires
            self.valid(),
        ensures
            ({
                let (s, after) = (self.local.state, self.initialize_tried(membership));
                let t = after.local.state;
                let fresh = s.log.len() == 0 && s.vote == (Vote {
                    term: 0,
                    node_id: NID::default_spec(),
                    committed: false,
                });
                let voter = membership matches Some(m) && m.voters().contains(self.config.id);
                &&& !fresh ==> after == self
                &&& fresh && !voter ==> {
                    &&& t == (RaftStateView { log: t.log, ..s })
                    &&& t.log.len() == 1
                    &&& t.log[0].index == 0
                    &&& t.log[0].leader_id == (LeaderId { term: 0, node_id: NID::default_spec() })
                    &&& after.leader == self.leader
                    &&& after.local.output.commands == self.local.output.commands.push(
                        CommandView::AppendInputEntries { from: 0, to: 1 },
                    )
                }
            }),
    {
        self.local.state.lemma_positions();
        law_present_entries(
            self.local.state,
            LogId { leader_id: self.local.state.vote.leader(), index: 0 },
        );
    }

    /// A node that was leader tells the runtime that it is, if it votes, and starts
    /// replication. What it knew of the others is forgotten unless it goes on with the same
    /// leadership.
    pub proof fn law_restored_leader_is_announced(self)
        requires
            self.local.state.vote.node_id == self.config.id,
            self.local.state.vote.committed,
        ensures
            ({
                let (s, after) = (self.local.state, self.started_up());
                let voter = s.membership.effective.membership.voters().contains(self.config.id);
                let cs = after.local.output.commands;
                &&& voter && s.server_state !is Leader ==> self.local.queues(
                    after.local,
                    CommandView::BecomeLeader,
                )
                &&& exists|j: int|
                    self.local.output.commands.len() <= j < cs.len()
                        && #[trigger] cs[j] is RebuildReplicationStreams
                &&& after.leader matches Some(l) && l.vote == s.vote
            }),
    {
        let config = self.config;
        let e = self.took_side();
        let l = e.leading();
        let a = l.streams_rebuilt(config);
        let c = a.replication_initiated(config);
        let vote = self.local.state.vote;
        lemma_vote_order_is_total(vote, vote);
        self.law_side_follows_vote(vote);
        assert(e == self.saw_vote(vote));
        l.law_streams_go_to_all_others(config, 0);
        a.lemma_initiated_adds(config);
        let n = l.local.output.commands.len() as int;
        let cs = c.local.output.commands;
        assert(self.started_up().local == c.local);
        assert(cs[n] == a.local.output.commands[n]);
        assert(cs[n] is RebuildReplicationStreams);
        if self.local.state.membership.effective.membership.voters().contains(config.id)
            && self.local.state.server_state !is Leader {
            assert(l.local.output.commands[n - 1] == CommandView::<NID, M>::BecomeLeader);
            reveal(LeadingView::streams_rebuilt);
            assert(a.local.output.commands[n - 1] == l.local.output.commands[n - 1]);
            assert(cs[n - 1] == CommandView::<NID, M>::BecomeLeader);
        }
        reveal(LeadingView::streams_rebuilt);
        reveal(LeadingView::replication_initiated);
    }

    /// A node steps down just if its vote is for itself, it does not vote in the membership in
    /// force, and that is committed. It then waits before it asks for votes, longer if its
    /// leadership was granted.
    pub proof fn law_only_outsiders_step_down(self)
        ensures
            ({
                let (s, after) = (self.local.state, self.stepped_down());
                let m = s.membership.effective;
                let due = s.vote.node_id == self.config.id && !m.membership.voters().contains(
                    self.config.id,
                ) && !opt_precedes(s.committed, m.log_id);
                &&& !due ==> after == self
                &&& due ==> {
                    &&& after.leader is None
                    &&& self.local.queues(
                        after.local,
                        CommandView::InstallElectionTimer { can_be_leader: !s.vote.committed },
                    )
                    &&& after.local.state == (RaftStateView {
                        server_state: after.local.state.server_state,
                        ..s
                    })
                    &&& self.leader is Some ==> after.local.state.server_state is Learner
                }
            }),
    {
        let s = self.local.state;
        if self.has_to_step_down() {
            let n = self.local.output.commands.len() as int;
            assert(self.stepped_down().local.output.commands[n] == CommandView::<
                NID,
                M,
            >::InstallElectionTimer { can_be_leader: !s.vote.committed });
        }
    }

    /// A node that takes office is known to have its log to the end, if it is a member. Of the
    /// other logs is known what the candidate knew.
    pub proof fn law_office_knows_own_log(self, k: int)
        requires
            self.valid(),
            self.local.state.is_leading(self.config.id),
            next_index(self.local.state.last_log_id()) < u64::MAX,
        ensures
            ({
                let after = self.leader_established();
                let p = (self.saw_vote(self.local.state.vote.granted()).leader->0).progress;
                let q = (after.leader->0).progress;
                &&& q.configs == p.configs
                &&& q.voters.len() == p.voters.len()
                &&& q.learners.len() == p.learners.len()
                &&& 0 <= k < p.voters.len() ==> {
                    let (e, x) = (p.voters[k], q.voters[k]);
                    &&& x.0 == e.0
                    &&& e.0 != self.config.id ==> x.1.matching == e.1.matching
                        && x.1.searching_end == e.1.searching_end
                    &&& e.0 == self.config.id ==> x.1.matching == after.local.state.last_log_id()
                }
                &&& 0 <= k < p.learners.len() ==> {
                    let (e, x) = (p.learners[k], q.learners[k]);
                    &&& x.0 == e.0
                    &&& e.0 != self.config.id ==> x.1.matching == e.1.matching
                        && x.1.searching_end == e.1.searching_end
                    &&& e.0 == self.config.id ==> x.1.matching == after.local.state.last_log_id()
                }
            }),
    {
        let config = self.config;
        let vote = self.local.state.vote.granted();
        lemma_vote_order_is_total(self.local.state.vote, vote);
        self.lemma_saw_vote(vote);
        self.law_office_is_taken();
        self.local.state.lemma_positions();
        let l = self.saw_vote(vote).leading();
        let a = l.streams_rebuilt(config);
        let id = a.next_log_id();
        let b = a.with_blank();
        l.lemma_streams_rebuilt(config);
        a.lemma_ends_with_log();
        lemma_leader_order_is_total(id.leader_id, id.leader_id);
        a.lemma_log_extended(seq![id]);
        assert(a.local.state.log.push(id) =~= a.local.state.log + seq![id]);
        assert(b.valid());
        b.local.state.lemma_positions();
        lemma_last_held(b.local.state.log);
        b.lemma_entry_is_later(config, id);
        let p = b.leader.progress;
        match p.entry(config.id) {
            Some(e) => {
                law_known_progress(p, config.id, config.id, e);
            },
            None => {
                law_known_progress(
                    p,
                    config.id,
                    config.id,
                    ProgressEntry::unknown(0),
                );
            },
        }
        reveal(EngineView::leader_established);
        reveal(LeadingView::streams_rebuilt);
        reveal(LeadingView::blank_appended);
        reveal(LeadingView::local_progressed);
        reveal(LeadingView::accepted_committed);
        reveal(LeadingView::replication_initiated);
    }
}

} // verus!
