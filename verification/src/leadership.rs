//! What holds of a node while it leads: for whom it keeps the progress, what it commits, and
//! how it takes office.

use crate::command::{CommandView, OutputView};
use crate::config::EngineConfig;
use crate::entry::{ids_of, EntryView};
use crate::history::Event;
use crate::leader::LeaderView;
use crate::log_id::{
    holds, id_at, lemma_leader_order_is_total, lemma_log_ids_fit, lemma_opt_order, next_index,
    opt_precedes, LogId,
};
use crate::membership::{is_quorum, EffectiveMembershipView, MembershipView};
use crate::message::VoteResponse;
use crate::node::NodeId;
use crate::node_set::{in_order, is_majority, lemma_order_exists};
use crate::progress::{entry_of, ProgressEntry, ProgressView};
use crate::raft_state::{RaftStateView, ServerState};
use crate::validity::{lemma_last_held, on_log};
use crate::view::{EngineView, LeadingView, LocalView};
use crate::vote::{lemma_vote_order_is_total, Vote};
use vstd::prelude::*;
use vstd::set_lib::lemma_len_subset;

verus! {

/// The nodes that entries are about.
pub open spec fn ids_in<NID>(entries: Seq<(NID, ProgressEntry<NID>)>) -> Seq<NID> {
    Seq::new(entries.len(), |i: int| entries[i].0)
}

impl<NID: NodeId> ProgressView<NID> {
    /// The progress is kept for the nodes of this membership, and for no others.
    pub open spec fn is_for<M>(self, m: MembershipView<NID, M>) -> bool {
        &&& self.configs == m.configs
        &&& ids_in(self.voters) == in_order(m.voters())
        &&& ids_in(self.learners) == in_order(m.learners())
    }

    proof fn lemma_for_membership<M>(
        self,
        m: MembershipView<NID, M>,
        default: ProgressEntry<NID>,
    )
        ensures
            self.for_membership(m, default).is_for(m),
    {
        let p = self.for_membership(m, default);
        assert(ids_in(p.voters) =~= in_order(m.voters()));
        assert(ids_in(p.learners) =~= in_order(m.learners()));
    }

    proof fn lemma_same_nodes<M>(self, other: Self, m: MembershipView<NID, M>)
        requires
            self.is_for(m),
            other.configs == self.configs,
            ids_in(other.voters) =~= ids_in(self.voters),
            ids_in(other.learners) =~= ids_in(self.learners),
        ensures
            other.is_for(m),
    {
    }
}

impl<NID: NodeId, M> LeadingView<NID, M> {
    /// The node keeps the progress of the nodes of the membership in force, and stands for no
    /// later leadership than its vote says.
    pub open spec fn in_step(self) -> bool {
        &&& self.leader.progress.is_for(self.local.state.membership.effective.membership)
        &&& !self.local.state.vote.leader().precedes(self.leader.vote.leader())
    }

    /// A node that leads has done some work: it is still in step, and has committed further
    /// only up to an entry of its own leadership.
    #[verifier::opaque]
    pub open spec fn serves(self, after: Self) -> bool {
        let (s, t) = (self.local.state, after.local.state);
        &&& t.vote == s.vote
        &&& t.server_state == s.server_state
        &&& after.leader.vote == self.leader.vote
        &&& self.in_step() ==> after.in_step()
        &&& t.committed == s.committed || (t.committed matches Some(c) && c.leader_id
            == s.vote.leader())
    }

    /// Work after work is work.
    pub proof fn lemma_serves_on(self, middle: Self, after: Self)
        requires
            self.serves(middle),
            middle.serves(after),
        ensures
            self.serves(after),
    {
        reveal(LeadingView::serves);
    }

    proof fn lemma_serves_itself(self)
        ensures
            self.serves(self),
    {
        reveal(LeadingView::serves);
    }

    /// Work that leaves the state but for the log, and the nodes that the progress is kept
    /// for, as they are.
    pub proof fn lemma_serves_same(self, after: Self)
        requires
            after.local.state.vote == self.local.state.vote,
            after.local.state.server_state == self.local.state.server_state,
            after.local.state.committed == self.local.state.committed,
            after.local.state.membership == self.local.state.membership,
            after.leader.vote == self.leader.vote,
            after.leader.progress.configs == self.leader.progress.configs,
            ids_in(after.leader.progress.voters) =~= ids_in(self.leader.progress.voters),
            ids_in(after.leader.progress.learners) =~= ids_in(self.leader.progress.learners),
        ensures
            self.serves(after),
    {
        reveal(LeadingView::serves);
        if self.in_step() {
            self.leader.progress.lemma_same_nodes(
                after.leader.progress,
                self.local.state.membership.effective.membership,
            );
        }
    }

    /// Rebuilding the streams is work of a node that leads.
    pub proof fn lemma_streams_rebuilt_serves(self, config: EngineConfig<NID>)
        ensures
            self.serves(self.streams_rebuilt(config)),
    {
        reveal(LeadingView::streams_rebuilt);
        self.lemma_serves_same(self.streams_rebuilt(config));
    }

    /// Sending entries is work of a node that leads.
    pub proof fn lemma_replication_initiated_serves(self, config: EngineConfig<NID>)
        ensures
            self.serves(self.replication_initiated(config)),
    {
        reveal(LeadingView::replication_initiated);
        self.lemma_serves_same(self.replication_initiated(config));
    }

    proof fn lemma_accepted_committed_serves(self)
        ensures
            self.serves(self.accepted_committed()),
    {
        reveal(LeadingView::accepted_committed);
        reveal(LeadingView::serves);
    }

    /// Taking note of the own progress is work of a node that leads.
    pub proof fn lemma_local_progressed_serves(
        self,
        config: EngineConfig<NID>,
        upto: Option<LogId<NID>>,
    )
        ensures
            self.serves(self.local_progressed(config, upto)),
    {
        reveal(LeadingView::local_progressed);
        self.lemma_serves_itself();
        match (upto, self.leader.progress.entry(config.id)) {
            (Some(u), Some(e)) if opt_precedes(e.matching, upto) => {
                let moved = LeadingView {
                    leader: LeaderView {
                        progress: self.leader.progress.with(config.id, e.matched(u)),
                        ..self.leader
                    },
                    ..self
                };
                self.lemma_serves_same(moved);
                moved.lemma_accepted_committed_serves();
                self.lemma_serves_on(moved, moved.accepted_committed());
            },
            _ => {},
        }
    }

    proof fn lemma_blank_appended_serves(self, config: EngineConfig<NID>)
        ensures
            self.serves(self.blank_appended(config)),
    {
        reveal(LeadingView::blank_appended);
        let log_id = self.next_log_id();
        let longer = self.with_blank();
        self.lemma_serves_same(longer);
        longer.lemma_local_progressed_serves(config, Some(log_id));
        self.lemma_serves_on(longer, longer.local_progressed(config, Some(log_id)));
    }

    /// A membership that comes into force is work of a node that leads.
    pub proof fn lemma_membership_appended_serves(
        self,
        config: EngineConfig<NID>,
        log_id: LogId<NID>,
        m: MembershipView<NID, M>,
    )
        ensures
            self.serves(self.membership_appended(config, log_id, m)),
    {
        reveal(LeadingView::membership_appended);
        let em = EffectiveMembershipView { log_id: Some(log_id), membership: m };
        let default = ProgressEntry::unknown(next_index(self.local.state.last_log_id()));
        let a = LeadingView {
            leader: LeaderView {
                progress: self.leader.progress.for_membership(m, default),
                ..self.leader
            },
            local: LocalView {
                state: RaftStateView {
                    membership: self.local.state.membership.appended(em),
                    ..self.local.state
                },
                output: self.local.output.push(CommandView::UpdateMembership { membership: em }),
            },
        };
        assert(self.serves(a)) by {
            reveal(LeadingView::serves);
            self.leader.progress.lemma_for_membership(m, default);
        }
        let b = a.streams_rebuilt(config);
        a.lemma_streams_rebuilt_serves(config);
        b.lemma_replication_initiated_serves(config);
        self.lemma_serves_on(a, b);
        self.lemma_serves_on(b, b.replication_initiated(config));
    }

    /// The effects of appended entries are work of a node that leads.
    pub proof fn lemma_absorbed_serves(
        self,
        config: EngineConfig<NID>,
        entries: Seq<EntryView<NID, M>>,
        n: int,
    )
        ensures
            self.serves(self.absorbed(config, entries, n)),
        decreases n,
    {
        self.lemma_serves_itself();
        if n > 0 {
            self.lemma_absorbed_serves(config, entries, n - 1);
            let l = self.absorbed(config, entries, n - 1);
            let EntryView { log_id, membership } = entries[n - 1];
            if let Some(m) = membership {
                let upto = id_at(l.local.state.log, log_id.index - 1);
                l.lemma_local_progressed_serves(config, upto);
                l.lemma_serves_itself();
                let p = if log_id.index > 0 {
                    l.local_progressed(config, upto)
                } else {
                    l
                };
                self.lemma_serves_on(l, p);
                p.lemma_membership_appended_serves(config, log_id, m);
                self.lemma_serves_on(p, p.membership_appended(config, log_id, m));
            }
        }
    }

    /// The first entry of a leader is in its log, and nobody has been told yet.
    pub open spec fn with_blank(self) -> Self {
        let log_id = self.next_log_id();
        LeadingView {
            local: LocalView {
                state: RaftStateView {
                    log: self.local.state.log.push(log_id),
                    ..self.local.state
                },
                output: self.local.output.push(CommandView::AppendBlankLog { log_id }),
            },
            ..self
        }
    }

    /// A leader commits only what a quorum has: if it commits further, every one of its
    /// configurations has a majority of nodes that have stored the log up to there.
    pub proof fn law_commit_needs_quorum(self)
        ensures
            ({
                let after = self.accepted_committed().local.state.committed;
                after == self.local.state.committed || self.leader.progress.is_accepted(after)
            }),
    {
        reveal(LeadingView::accepted_committed);
        self.leader.progress.lemma_greatest_exists();
    }
}

impl<NID: NodeId, M> EngineView<NID, M> {
    /// A node that leads keeps the progress of the nodes of the membership in force.
    pub open spec fn in_step(self) -> bool {
        self.leader is Some ==> self.leading().in_step()
    }

    /// The leadership that the node stands for, if any, is not later than its vote.
    pub open spec fn stands_by_vote(self) -> bool {
        self.leader matches Some(l) ==> !self.local.state.vote.leader().precedes(l.vote.leader())
    }

    proof fn lemma_candidacy_in_step(self)
        ensures
            self.candidacy().progress.is_for(self.local.state.membership.effective.membership),
            self.candidacy().vote == self.local.state.vote,
            self.candidacy().granted_by == Set::<NID>::empty(),
    {
        let s = self.local.state;
        let m = s.membership.effective.membership;
        let l = LeaderView::started(s.vote, m, s.last_log_id());
        ProgressView::none().lemma_for_membership(
            m,
            ProgressEntry::unknown(next_index(s.last_log_id())),
        );
        l.progress.lemma_same_nodes(self.candidacy().progress, m);
    }

    proof fn lemma_took_side_in_step(self)
        requires
            self.in_step(),
        ensures
            self.took_side().in_step(),
    {
        self.lemma_candidacy_in_step();
        lemma_leader_order_is_total(self.local.state.vote.leader(), self.local.state.vote.leader());
    }

    /// A vote that comes with a message keeps a node in step.
    pub proof fn lemma_saw_vote_in_step(self, vote: Vote<NID>)
        requires
            self.in_step(),
        ensures
            self.saw_vote(vote).in_step(),
    {
        if self.local.state.vote.precedes(vote) {
            let e = EngineView {
                local: LocalView {
                    state: RaftStateView { vote, ..self.local.state },
                    output: self.local.output.push(CommandView::SaveVote { vote }),
                },
                ..self
            };
            if let Some(l) = self.leader {
                lemma_leader_order_is_total(vote.leader(), l.vote.leader());
                lemma_leader_order_is_total(self.local.state.vote.leader(), l.vote.leader());
            }
            e.lemma_took_side_in_step();
        } else {
            self.lemma_took_side_in_step();
        }
    }

    /// A node that stands for election starts from scratch.
    pub proof fn lemma_stood(self)
        requires
            self.stands_by_vote(),
            self.local.state.vote.term < u64::MAX,
        ensures
            self.stood().in_step(),
            self.stood().leader is Some,
            (self.stood().leader->0).granted_by == set![self.config.id],
            self.stood().config == self.config,
            self.stood().local.state == (RaftStateView {
                vote: self.next_vote(),
                server_state: self.stood().local.state.server_state,
                ..self.local.state
            }),
            self.stood().local.state.server_state == self.stood().local.state.role_of(
                self.config.id,
            ),
    {
        let vote = self.next_vote();
        let e = EngineView {
            local: LocalView {
                state: RaftStateView { vote, ..self.local.state },
                output: self.local.output.push(CommandView::SaveVote { vote }),
            },
            ..self
        };
        assert(self.local.state.vote.precedes(vote));
        if let Some(l) = self.leader {
            assert(l.vote.leader() != vote.leader());
        }
        e.lemma_candidacy_in_step();
        lemma_leader_order_is_total(vote.leader(), vote.leader());
        assert(self.saw_vote(vote) == e.became_leading());
        assert(e.became_leading().leader == Some(e.candidacy()));
        assert(Set::<NID>::empty().insert(self.config.id) =~= set![self.config.id]);
    }

    /// The vote of this node for itself in the next term.
    pub open spec fn next_vote(self) -> Vote<NID> {
        Vote {
            term: (self.local.state.vote.term + 1) as u64,
            node_id: self.config.id,
            committed: false,
        }
    }

    /// Taking office is work of a node that leads.
    pub proof fn lemma_office(self)
        requires
            self.local.state.is_leading(self.config.id),
        ensures
            ({
                let e = self.saw_vote(self.local.state.vote.granted());
                let after = self.leader_established();
                &&& e.leader is Some
                &&& after.leader is Some
                &&& after.config == self.config
                &&& e.leading().serves(after.leading())
                &&& e.local.state == (RaftStateView {
                    vote: self.local.state.vote.granted(),
                    server_state: e.local.state.role_of(self.config.id),
                    ..self.local.state
                })
            }),
    {
        reveal(EngineView::leader_established);
        let vote = self.local.state.vote.granted();
        lemma_vote_order_is_total(self.local.state.vote, vote);
        let l = self.saw_vote(vote).leading();
        let a = l.streams_rebuilt(self.config);
        let b = a.blank_appended(self.config);
        l.lemma_streams_rebuilt_serves(self.config);
        a.lemma_blank_appended_serves(self.config);
        b.lemma_replication_initiated_serves(self.config);
        l.lemma_serves_on(a, b);
        l.lemma_serves_on(b, b.replication_initiated(self.config));
    }
}

impl<NID, M> Event<NID, M> {
    /// The event makes the node work as candidate or leader.
    pub open spec fn makes_lead(self) -> bool {
        ||| self is Startup
        ||| self is Initialize
        ||| self is Elect
        ||| self is VoteResp
        ||| self is Propose
    }
}

impl<NID: NodeId, M> EngineView<NID, M> {
    /// After the event the node is in step, and it has committed further only up to an entry
    /// of the leadership that it stands for.
    pub open spec fn led_to(self, after: Self) -> bool {
        let (s, t) = (self.local.state, after.local.state);
        &&& after.in_step()
        &&& t.committed == s.committed || (t.committed matches Some(c) && c.leader_id
            == t.vote.leader())
    }

    /// A node that takes office stays in step.
    pub proof fn lemma_leader_established_leads(self)
        requires
            self.in_step(),
            self.local.state.is_leading(self.config.id),
        ensures
            self.led_to(self.leader_established()),
            self.leader_established().local.state.vote == self.local.state.vote.granted(),
            self.leader_established().local.state.server_state == (RaftStateView {
                vote: self.local.state.vote.granted(),
                ..self.local.state
            }).role_of(self.config.id),
    {
        self.lemma_office();
        self.lemma_saw_vote_in_step(self.local.state.vote.granted());
        reveal(LeadingView::serves);
    }

    /// A node that stands for election is in step.
    pub proof fn lemma_elected_leads(self)
        requires
            self.stands_by_vote(),
            self.local.state.vote.term < u64::MAX,
        ensures
            self.led_to(self.elected()),
            self.elected().local.state.vote == (if (self.stood().leader->0).is_granted() {
                self.next_vote().granted()
            } else {
                self.next_vote()
            }),
    {
        reveal(EngineView::elected);
        self.lemma_stood();
        let e = self.stood();
        if (e.leader->0).is_granted() {
            e.lemma_leader_established_leads();
        }
    }

    /// An attempt to initialize the cluster keeps a node in step.
    pub proof fn lemma_initialize_leads(self, membership: Option<MembershipView<NID, M>>)
        requires
            self.in_step(),
        ensures
            self.led_to(self.initialize_tried(membership)),
    {
        let s = self.local.state;
        if s.is_pristine() {
            let id = s.next_ids(1)[0];
            if let Some(m) = membership {
                let em = EffectiveMembershipView { log_id: Some(id), membership: m };
                let e = self.entries_taken(seq![id]);
                let in_force = EngineView {
                    local: LocalView {
                        state: RaftStateView {
                            membership: e.local.state.membership.appended(em),
                            ..e.local.state
                        },
                        ..e.local
                    },
                    ..e
                }.commanded(CommandView::UpdateMembership { membership: em });
                let ready = EngineView {
                    local: in_force.local.role_updated(self.config.id),
                    ..in_force
                }.commanded(CommandView::MoveInputCursorBy { n: 1 });
                ready.lemma_elected_leads();
            }
        }
    }

    /// The answer to a request for a vote keeps a node in step.
    pub proof fn lemma_vote_answered_leads(self, target: NID, resp: VoteResponse<NID>)
        requires
            self.in_step(),
            self.takes_answer(target, resp),
        ensures
            self.led_to(self.vote_answered(target, resp)),
    {
        if let Some(l) = self.leader {
            if resp.vote_granted {
                let e = EngineView { leader: Some(l.granted(target)), ..self };
                if l.granted(target).is_granted() {
                    e.lemma_leader_established_leads();
                }
            } else if self.local.state.vote.precedes(resp.vote) {
                lemma_leader_order_is_total(resp.vote.leader(), l.vote.leader());
                lemma_leader_order_is_total(self.local.state.vote.leader(), l.vote.leader());
            }
        }
    }

    /// Proposed entries keep a leader in step.
    pub proof fn lemma_proposed_leads(self, memberships: Seq<Option<MembershipView<NID, M>>>)
        requires
            self.in_step(),
            self.can_propose(memberships.len() as int),
        ensures
            self.led_to(self.entries_appended(self.proposed(memberships))),
    {
        let n = memberships.len() as int;
        if n > 0 {
            let entries = self.proposed(memberships);
            let e = self.entries_taken(ids_of(entries));
            let l = e.leading();
            let a = l.absorbed(self.config, entries, n);
            let last = Some(entries.last().log_id);
            let b = a.local_progressed(self.config, last);
            self.leading().lemma_serves_same(l);
            l.lemma_absorbed_serves(self.config, entries, n);
            a.lemma_local_progressed_serves(self.config, last);
            b.lemma_replication_initiated_serves(self.config);
            l.lemma_serves_on(a, b);
            l.lemma_serves_on(b, b.replication_initiated(self.config));
            self.leading().lemma_serves_on(l, b.replication_initiated(self.config));
            reveal(LeadingView::serves);
        }
    }

    /// A node that starts stays in step.
    pub proof fn lemma_startup_leads(self)
        requires
            self.in_step(),
        ensures
            self.led_to(self.started_up()),
    {
        if self.local.state.is_leader(self.config.id) {
            self.lemma_took_side_in_step();
            let l = self.took_side().leading();
            let a = l.streams_rebuilt(self.config);
            l.lemma_streams_rebuilt_serves(self.config);
            a.lemma_replication_initiated_serves(self.config);
            l.lemma_serves_on(a, a.replication_initiated(self.config));
            reveal(LeadingView::serves);
        }
    }

    /// Every event that can happen keeps a node that leads in step with the membership in
    /// force.
    pub proof fn law_every_event_keeps_step(self, event: Event<NID, M>)
        requires
            self.in_step(),
            self.admits(event),
        ensures
            self.after(event).in_step(),
    {
        reveal(EngineView::after);
        match event {
            Event::Startup => {
                self.lemma_startup_leads();
            },
            Event::Initialize { membership } => {
                self.lemma_initialize_leads(membership);
            },
            Event::Elect => {
                self.lemma_elected_leads();
            },
            Event::VoteReq { req } => {
                self.lemma_saw_vote_in_step(req.vote);
            },
            Event::VoteResp { target, resp } => {
                self.lemma_vote_answered_leads(target, resp);
            },
            Event::Propose { memberships } => {
                self.lemma_proposed_leads(memberships);
            },
            Event::AppendReq { vote, prev, entries, leader_committed } => {
                lemma_vote_order_is_total(vote, self.local.state.vote);
            },
            Event::StepDown => {},
            Event::Snapshot { meta } => {},
        }
    }

    /// A node that works as candidate or leader commits further only up to an entry of its
    /// own leadership. What earlier leaders proposed is committed along with such an entry,
    /// and never alone.
    pub proof fn law_leader_commits_own_entries(self, event: Event<NID, M>)
        requires
            self.in_step(),
            self.admits(event),
            event.makes_lead(),
        ensures
            ({
                let (s, t) = (self.local.state, self.after(event).local.state);
                t.committed == s.committed || (t.committed matches Some(c) && c.leader_id
                    == t.vote.leader())
            }),
    {
        reveal(EngineView::after);
        match event {
            Event::Startup => {
                self.lemma_startup_leads();
            },
            Event::Initialize { membership } => {
                self.lemma_initialize_leads(membership);
            },
            Event::Elect => {
                self.lemma_elected_leads();
            },
            Event::VoteResp { target, resp } => {
                self.lemma_vote_answered_leads(target, resp);
            },
            Event::Propose { memberships } => {
                self.lemma_proposed_leads(memberships);
            },
            _ => {},
        }
    }

    /// A candidate is leader as soon as the nodes that have granted its vote are a quorum,
    /// and not before.
    pub proof fn law_votes_are_counted(self, target: NID, resp: VoteResponse<NID>)
        requires
            self.in_step(),
            self.leader is Some,
            self.local.state.is_leading(self.config.id),
            !self.local.state.vote.committed,
            resp.vote_granted,
        ensures
            self.vote_answered(target, resp).local.state.is_leader(self.config.id)
                <==> is_quorum(
                self.local.state.membership.effective.membership.configs,
                (self.leader->0).granted_by.insert(target),
            ),
    {
        let l = self.leader->0;
        let e = EngineView { leader: Some(l.granted(target)), ..self };
        if l.granted(target).is_granted() {
            e.lemma_leader_established_leads();
        }
    }

    /// A new leader has the vote of a leader, and sets up replication before it appends its
    /// first entry, which has no content: that entry may be committed at once, and would otherwise be announced to
    /// streams that are not there.
    pub proof fn law_office_opens_with_blank(self)
        requires
            self.valid(),
            self.local.state.is_leading(self.config.id),
            next_index(self.local.state.last_log_id()) < u64::MAX,
        ensures
            ({
                let after = self.leader_established().local;
                let id = LogId {
                    leader_id: self.local.state.vote.leader(),
                    index: next_index(self.local.state.last_log_id()) as u64,
                };
                let n = self.saw_vote(
                    self.local.state.vote.granted(),
                ).local.output.commands.len() as int;
                &&& after.state.vote == self.local.state.vote.granted()
                &&& after.state.log == self.local.state.log.push(id)
                &&& after.output.commands.len() >= n + 2
                &&& after.output.commands[n] is RebuildReplicationStreams
                &&& after.output.commands[n + 1] == CommandView::<NID, M>::AppendBlankLog {
                    log_id: id,
                }
            }),
    {
        reveal(EngineView::leader_established);
        let vote = self.local.state.vote.granted();
        self.lemma_office();
        let l = self.saw_vote(vote).leading();
        let a = l.streams_rebuilt(self.config);
        let b = a.blank_appended(self.config);
        let c = b.replication_initiated(self.config);
        let n = l.local.output.commands.len() as int;
        assert(c.local.state.vote == vote) by {
            reveal(LeadingView::serves);
        }
        self.lemma_saw_vote(vote);
        l.lemma_streams_rebuilt(self.config);
        a.lemma_blank_appended(self.config);
        reveal(LeadingView::streams_rebuilt);
        a.lemma_blank_first(self.config);
        b.lemma_initiated_adds(self.config);
        assert(a.local.output.commands[n] is RebuildReplicationStreams);
        assert(c.local.output.commands[n] == a.with_blank().local.output.commands[n]);
        assert(c.local.output.commands[n + 1] == a.with_blank().local.output.commands[n + 1]);
    }
}

impl<NID: NodeId, M> LeadingView<NID, M> {
    /// Taking note of the own progress leaves the log and adds to the commands.
    pub proof fn lemma_progressed_adds(self, config: EngineConfig<NID>, upto: Option<LogId<NID>>)
        ensures
            ({
                let after = self.local_progressed(config, upto).local;
                let before = self.local.output.commands;
                &&& after.state.log == self.local.state.log
                &&& after.output.commands.len() >= before.len()
                &&& forall|i: int|
                    0 <= i < before.len() ==> #[trigger] after.output.commands[i] == before[i]
            }),
    {
        reveal(LeadingView::local_progressed);
        reveal(LeadingView::accepted_committed);
    }

    proof fn lemma_blank_first(self, config: EngineConfig<NID>)
        ensures
            ({
                let after = self.blank_appended(config).local;
                let before = self.with_blank().local.output.commands;
                &&& after.state.log == self.local.state.log.push(self.next_log_id())
                &&& after.output.commands.len() >= before.len()
                &&& forall|i: int|
                    0 <= i < before.len() ==> #[trigger] after.output.commands[i] == before[i]
            }),
    {
        reveal(LeadingView::blank_appended);
        self.with_blank().lemma_progressed_adds(config, Some(self.next_log_id()));
    }

    /// Sending entries leaves the state and adds to the commands.
    pub proof fn lemma_initiated_adds(self, config: EngineConfig<NID>)
        ensures
            ({
                let after = self.replication_initiated(config).local;
                let before = self.local.output.commands;
                &&& after.state == self.local.state
                &&& after.output.commands.len() >= before.len()
                &&& forall|i: int|
                    0 <= i < before.len() ==> #[trigger] after.output.commands[i] == before[i]
            }),
    {
        reveal(LeadingView::replication_initiated);
        let p = self.leader.progress;
        let max = config.max_payload_entries as int;
        let s = self.local.state;
        lemma_push_all_adds(
            self.local.output,
            crate::handler::replication_handler::requests(p.voters, config.id, s, max)
                + crate::handler::replication_handler::requests(p.learners, config.id, s, max),
        );
    }
}

proof fn lemma_push_all_adds<NID, M>(o: OutputView<NID, M>, cs: Seq<CommandView<NID, M>>)
    ensures
        o.push_all(cs).commands.len() >= o.commands.len(),
        forall|i: int|
            0 <= i < o.commands.len() ==> #[trigger] o.push_all(cs).commands[i] == o.commands[i],
    decreases cs.len(),
{
    if cs.len() > 0 {
        lemma_push_all_adds(o, cs.drop_last());
    }
}

/// A node that entries are about is found among them.
proof fn lemma_entry_found<NID>(entries: Seq<(NID, ProgressEntry<NID>)>, k: int)
    requires
        0 <= k < entries.len(),
    ensures
        entry_of(entries, entries[k].0) is Some,
    decreases entries.len(),
{
    if k < entries.len() - 1 {
        lemma_entry_found(entries.drop_last(), k);
    }
}

/// What is a majority by itself is one in company.
proof fn lemma_more_is_majority<NID>(config: Set<NID>, a: Set<NID>, b: Set<NID>)
    requires
        config.finite(),
        is_majority(config, a),
        config.intersect(a).subset_of(b),
    ensures
        is_majority(config, b),
{
    lemma_len_subset(config.intersect(b), config);
    lemma_len_subset(config.intersect(a), config.intersect(b));
}

impl<NID: NodeId, M> MembershipView<NID, M> {
    /// The node alone is a quorum: it is the only voter whose vote is needed.
    pub open spec fn is_sole_voter(self, id: NID) -> bool {
        &&& self.voters().finite()
        &&& self.voters().contains(id)
        &&& is_quorum(self.configs, set![id])
    }

    proof fn lemma_sole_voter(self, id: NID, other: NID)
        requires
            self.is_sole_voter(id),
            self.voters().contains(other),
        ensures
            other == id,
    {
        let i = choose|i: int|
            0 <= i < self.configs.len() && #[trigger] self.configs[i].contains(other);
        let c = self.configs[i];
        assert(c.subset_of(self.voters()));
        lemma_len_subset(c, self.voters());
        assert(is_majority(c, set![id]));
        assert(c.intersect(set![id]).subset_of(set![id]));
        lemma_len_subset(c.intersect(set![id]), set![id]);
        if other != id {
            if c.contains(id) {
                assert(set![id, other].subset_of(c));
                lemma_len_subset(set![id, other], c);
                assert(set![id, other].len() == 2);
            } else {
                assert(c.intersect(set![id]) =~= Set::empty());
            }
        }
    }
}

impl<NID: NodeId, M> LeadingView<NID, M> {
    /// A node that alone is a quorum commits an entry of its own as soon as the entry counts
    /// as stored on this node.
    proof fn lemma_alone_is_enough(self, config: EngineConfig<NID>, u: LogId<NID>)
        requires
            self.in_step(),
            self.local.state.membership.effective.membership.is_sole_voter(config.id),
            u.leader_id == self.local.state.vote.leader(),
            opt_precedes(self.local.state.committed, Some(u)),
            self.leader.progress.entry(config.id) matches Some(e) ==> opt_precedes(
                e.matching,
                Some(u),
            ),
        ensures
            self.local_progressed(config, Some(u)).local.state.committed == Some(u),
    {
        reveal(LeadingView::local_progressed);
        reveal(LeadingView::accepted_committed);
        let id = config.id;
        let m = self.local.state.membership.effective.membership;
        let p = self.leader.progress;
        lemma_order_exists(m.voters());
        assert(in_order(m.voters()).to_set().contains(id));
        let k = choose|k: int| 0 <= k < in_order(m.voters()).len() && in_order(m.voters())[k] == id;
        assert(ids_in(p.voters)[k] == id);
        assert(p.voters[k].0 == id);
        lemma_entry_found(p.voters, k);
        let e = p.entry(id)->0;
        let q = p.with(id, e.matched(u));
        assert(q.voters[k].1.matching == Some(u));
        lemma_opt_order(Some(u), Some(u));
        assert(q.matched_by(Some(u)).contains(id));
        assert forall|i: int| 0 <= i < q.configs.len() implies is_majority(
            #[trigger] q.configs[i],
            q.matched_by(Some(u)),
        ) by {
            assert(is_majority(m.configs[i], set![id]));
            assert(m.configs[i].subset_of(m.voters()));
            lemma_len_subset(m.configs[i], m.voters());
            lemma_more_is_majority(m.configs[i], set![id], q.matched_by(Some(u)));
        }
        assert(q.is_accepted(q.voters[k].1.matching));
        q.lemma_greatest_exists();
        let g = q.quorum_accepted();
        assert(!opt_precedes(g, Some(u)));
        let j = choose|j: int|
            0 <= j < q.voters.len() && (#[trigger] q.voters[j]).1.matching == g && q.is_accepted(g);
        assert(ids_in(p.voters)[j] == p.voters[j].0);
        assert(in_order(m.voters()).to_set().contains(p.voters[j].0));
        m.lemma_sole_voter(id, p.voters[j].0);
    }

    /// Nothing at or after an index is committed, or known to be on another node.
    pub open spec fn ends_before(self, end: int) -> bool {
        &&& next_index(self.local.state.committed) <= end
        &&& all_end_before(self.leader.progress.voters, end)
        &&& all_end_before(self.leader.progress.learners, end)
    }

    /// The log is longer than anything that is committed or known to be on another node.
    pub proof fn lemma_ends_with_log(self)
        requires
            self.valid(),
        ensures
            self.ends_before(next_index(self.local.state.last_log_id())),
    {
        self.local.state.lemma_positions();
        reveal(crate::validity::all_on_log);
    }

    /// An entry in the log that comes after what is committed and after what is known of
    /// other nodes has the greater id.
    pub proof fn lemma_entry_is_later(self, config: EngineConfig<NID>, u: LogId<NID>)
        requires
            self.valid(),
            holds(self.local.state.log, u),
            self.ends_before(u.index as int),
        ensures
            opt_precedes(self.local.state.committed, Some(u)),
            self.leader.progress.entry(config.id) matches Some(e) ==> opt_precedes(
                e.matching,
                Some(u),
            ),
    {
        let log = self.local.state.log;
        self.local.state.lemma_positions();
        if let Some(c) = self.local.state.committed {
            lemma_log_ids_fit(log, c, u);
        }
        if let Some(e) = self.leader.progress.entry(config.id) {
            self.leader.progress.lemma_entry_is_on(log, config.id);
            lemma_entry_ends_before(self.leader.progress.voters, config.id, u.index as int);
            lemma_entry_ends_before(self.leader.progress.learners, config.id, u.index as int);
            if let Some(x) = e.matching {
                assert(on_log(log, x));
                assert(crate::log_id::fit(log[u.index - log[0].index], x));
            }
        }
    }

    /// The own progress up to an index leaves nothing known beyond it.
    pub proof fn lemma_progress_ends_before(
        self,
        config: EngineConfig<NID>,
        upto: Option<LogId<NID>>,
        end: int,
    )
        requires
            self.ends_before(end),
            next_index(upto) <= end,
        ensures
            self.local_progressed(config, upto).ends_before(end),
    {
        reveal(LeadingView::local_progressed);
        reveal(LeadingView::accepted_committed);
        match (upto, self.leader.progress.entry(config.id)) {
            (Some(u), Some(e)) if opt_precedes(e.matching, upto) => {
                let q = self.leader.progress.with(config.id, e.matched(u));
                q.lemma_greatest_exists();
                assert(all_end_before(q.voters, end));
                assert(all_end_before(q.learners, end));
            },
            _ => {},
        }
    }

    proof fn lemma_membership_ends_before(
        self,
        config: EngineConfig<NID>,
        log_id: LogId<NID>,
        m: MembershipView<NID, M>,
        end: int,
    )
        requires
            self.ends_before(end),
            0 <= end,
        ensures
            self.membership_appended(config, log_id, m).ends_before(end),
            self.membership_appended(
                config,
                log_id,
                m,
            ).local.state.membership.effective.membership == m,
    {
        reveal(LeadingView::membership_appended);
        reveal(LeadingView::streams_rebuilt);
        reveal(LeadingView::replication_initiated);
        let default = ProgressEntry::unknown(next_index(self.local.state.last_log_id()));
        let p = self.leader.progress;
        let q = p.for_membership(m, default);
        assert forall|i: int| 0 <= i < q.voters.len() implies next_index(
            (#[trigger] q.voters[i]).1.matching,
        ) <= end by {
            lemma_entry_ends_before(p.voters, q.voters[i].0, end);
            lemma_entry_ends_before(p.learners, q.voters[i].0, end);
        }
        assert forall|i: int| 0 <= i < q.learners.len() implies next_index(
            (#[trigger] q.learners[i]).1.matching,
        ) <= end by {
            lemma_entry_ends_before(p.voters, q.learners[i].0, end);
            lemma_entry_ends_before(p.learners, q.learners[i].0, end);
        }
        let r = q.stopped(config.id);
        assert(all_end_before(r.voters, end));
        assert(all_end_before(r.learners, end));
    }

    /// Entries that have taken effect before the last one do not count as stored beyond it,
    /// and the last membership among them is in force.
    pub proof fn lemma_absorbed_ends_before(
        self,
        config: EngineConfig<NID>,
        entries: Seq<EntryView<NID, M>>,
        n: int,
        end: int,
    )
        requires
            self.valid(),
            self.ends_before(end),
            0 <= end,
            0 <= n <= entries.len(),
            forall|i: int| 0 <= i < entries.len() ==> (#[trigger] entries[i]).log_id.index <= end,
        ensures
            self.absorbed(config, entries, n).ends_before(end),
            forall|k: int|
                0 <= k < n && (#[trigger] entries[k]).membership is Some && (forall|i: int|
                    k < i < n ==> (#[trigger] entries[i]).membership is None) ==> Some(
                    self.absorbed(config, entries, n).local.state.membership.effective.membership,
                ) == entries[k].membership,
        decreases n,
    {
        if n > 0 {
            self.lemma_absorbed_ends_before(config, entries, n - 1, end);
            self.lemma_absorbed_leads(config, entries, n - 1);
            let l = self.absorbed(config, entries, n - 1);
            let last = entries[n - 1];
            let log_id = last.log_id;
            if let Some(m) = last.membership {
                let prev = id_at(l.local.state.log, log_id.index - 1);
                l.local.state.lemma_positions();
                crate::validity::lemma_id_at_held(l.local.state.log, log_id.index - 1);
                l.lemma_progress_ends_before(config, prev, end);
                let p = if log_id.index > 0 {
                    l.local_progressed(config, prev)
                } else {
                    l
                };
                p.lemma_membership_ends_before(config, log_id, m, end);
            } else {
                assert(self.absorbed(config, entries, n) == l);
            }
            assert forall|k: int|
                0 <= k < n && (#[trigger] entries[k]).membership is Some && (forall|i: int|
                    k < i < n ==> (#[trigger] entries[i]).membership is None) implies Some(
                self.absorbed(config, entries, n).local.state.membership.effective.membership,
            ) == entries[k].membership by {
                if k < n - 1 {
                    assert(entries[n - 1].membership is None);
                }
            }
        }
    }
}

/// No node is known to have an entry at or after an index.
pub open spec fn all_end_before<NID>(entries: Seq<(NID, ProgressEntry<NID>)>, end: int) -> bool {
    forall|i: int|
        0 <= i < entries.len() ==> next_index((#[trigger] entries[i]).1.matching) <= end
}

/// What holds of all nodes holds of one.
pub proof fn lemma_entry_ends_before<NID>(
    entries: Seq<(NID, ProgressEntry<NID>)>,
    id: NID,
    end: int,
)
    requires
        all_end_before(entries, end),
    ensures
        entry_of(entries, id) matches Some(e) ==> next_index(e.matching) <= end,
    decreases entries.len(),
{
    if entries.len() > 0 {
        let front = entries.drop_last();
        assert forall|i: int| 0 <= i < front.len() implies next_index(
            (#[trigger] front[i]).1.matching,
        ) <= end by {
            assert(entries[i] == front[i]);
        }
        assert(entries[entries.len() - 1] == entries.last());
        lemma_entry_ends_before(front, id, end);
    }
}

impl<NID: NodeId, M> EngineView<NID, M> {
    /// If the cluster has only one voter, an entry is committed as soon as it is appended:
    /// after the voter has proposed entries without a membership among them, the last one is
    /// committed.
    pub proof fn law_sole_voter_commits_at_once(
        self,
        memberships: Seq<Option<MembershipView<NID, M>>>,
    )
        requires
            self.valid(),
            self.in_step(),
            self.leader is Some,
            self.local.state.membership.effective.membership.is_sole_voter(self.config.id),
            memberships.len() > 0,
            forall|i: int| 0 <= i < memberships.len() ==> #[trigger] memberships[i] is None,
            next_index(self.local.state.last_log_id()) + memberships.len() <= u64::MAX,
        ensures
            ({
                let after = self.entries_appended(self.proposed(memberships)).local.state;
                let n = memberships.len() as int;
                &&& after.log == self.local.state.log + self.local.state.next_ids(n)
                &&& after.committed == Some(self.local.state.next_ids(n).last())
                &&& after.committed == after.last_log_id()
            }),
    {
        let n = memberships.len() as int;
        let s = self.local.state;
        let entries = self.proposed(memberships);
        let ids = s.next_ids(n);
        assert(ids_of(entries) =~= ids);
        self.lemma_entries_taken(n);
        let e = self.entries_taken(ids);
        let l = e.leading();
        let last = ids.last();
        lemma_nothing_absorbed(l, self.config, entries, n);
        self.leading().lemma_ends_with_log();
        l.local.state.lemma_positions();
        lemma_last_held(l.local.state.log);
        l.lemma_entry_is_later(self.config, last);
        l.lemma_alone_is_enough(self.config, last);
        l.lemma_progressed_adds(self.config, Some(last));
        l.local_progressed(self.config, Some(last)).lemma_initiated_adds(self.config);
    }

    /// If the cluster has only one voter, the entries that it proposes before a membership are
    /// committed as soon as they are appended, whatever the membership is.
    pub proof fn law_entries_before_membership_are_committed(
        self,
        memberships: Seq<Option<MembershipView<NID, M>>>,
        k: int,
    )
        requires
            self.valid(),
            self.in_step(),
            self.leader is Some,
            self.local.state.membership.effective.membership.is_sole_voter(self.config.id),
            0 < k < memberships.len(),
            forall|i: int| 0 <= i < k ==> #[trigger] memberships[i] is None,
            memberships[k] is Some,
            next_index(self.local.state.last_log_id()) + memberships.len() <= u64::MAX,
        ensures
            next_index(self.local.state.last_log_id()) + k <= next_index(
                self.entries_appended(self.proposed(memberships)).local.state.committed,
            ),
    {
        let n = memberships.len() as int;
        let s = self.local.state;
        let entries = self.proposed(memberships);
        let ids = s.next_ids(n);
        assert(ids_of(entries) =~= ids);
        self.lemma_entries_taken(n);
        let e = self.entries_taken(ids);
        let l = e.leading();
        let u = ids[k - 1];
        lemma_nothing_absorbed(l, self.config, entries, k);
        self.leading().lemma_ends_with_log();
        l.local.state.lemma_positions();
        let log = l.local.state.log;
        assert(log[s.log.len() + (k - 1)] == u);
        crate::validity::lemma_member_held(log, s.log.len() + (k - 1));
        l.lemma_entry_is_later(self.config, u);
        l.lemma_alone_is_enough(self.config, u);
        assert(entries[k].log_id.index == u.index + 1);
        assert(id_at(log, entries[k].log_id.index - 1) == Some(u));
        let p = l.local_progressed(self.config, Some(u));
        let m = memberships[k]->0;
        assert(l.absorbed(self.config, entries, k + 1) == p.membership_appended(
            self.config,
            entries[k].log_id,
            m,
        ));
        p.lemma_membership_keeps_committed(self.config, entries[k].log_id, m);
        l.lemma_absorbed_commits(self.config, entries, k + 1, n);
        l.lemma_absorbed_leads(self.config, entries, n);
        l.lemma_absorbed_log(self.config, entries, n);
        let a = l.absorbed(self.config, entries, n);
        let last = entries.last().log_id;
        assert(a.local.state.log.last() == last);
        a.local.state.lemma_positions();
        lemma_last_held(a.local.state.log);
        a.lemma_progress_commits(self.config, Some(last));
        a.local_progressed(self.config, Some(last)).lemma_initiated_adds(self.config);
    }

    /// If the last membership that a leader proposes leaves it as the only voter, everything
    /// that it proposes is committed as soon as it is appended, also what comes before the
    /// membership.
    pub proof fn law_last_voter_commits_everything(
        self,
        memberships: Seq<Option<MembershipView<NID, M>>>,
        k: int,
    )
        requires
            self.valid(),
            self.in_step(),
            self.leader is Some,
            0 <= k < memberships.len(),
            memberships[k] matches Some(m) && m.is_sole_voter(self.config.id),
            forall|i: int| k < i < memberships.len() ==> #[trigger] memberships[i] is None,
            next_index(self.local.state.last_log_id()) + memberships.len() <= u64::MAX,
        ensures
            self.entries_appended(self.proposed(memberships)).local.state.committed == Some(
                self.local.state.next_ids(memberships.len() as int).last(),
            ),
    {
        let n = memberships.len() as int;
        let s = self.local.state;
        let entries = self.proposed(memberships);
        let ids = s.next_ids(n);
        assert(ids_of(entries) =~= ids);
        self.lemma_entries_taken(n);
        let e = self.entries_taken(ids);
        let l = e.leading();
        let last = ids.last();
        let end = last.index as int;
        self.leading().lemma_ends_with_log();
        assert(l.ends_before(end));
        l.lemma_absorbed_ends_before(self.config, entries, n, end);
        l.lemma_absorbed_leads(self.config, entries, n);
        l.lemma_absorbed_log(self.config, entries, n);
        l.lemma_absorbed_serves(self.config, entries, n);
        self.leading().lemma_serves_same(l);
        let a = l.absorbed(self.config, entries, n);
        assert(a.in_step() && a.local.state.vote == s.vote) by {
            reveal(LeadingView::serves);
        }
        assert(entries[k].membership == memberships[k]);
        assert forall|i: int| k < i < n implies (#[trigger] entries[i]).membership is None by {
            assert(memberships[i] is None);
        }
        assert(Some(a.local.state.membership.effective.membership) == memberships[k]);
        a.local.state.lemma_positions();
        lemma_last_held(a.local.state.log);
        a.lemma_entry_is_later(self.config, last);
        a.lemma_alone_is_enough(self.config, last);
        a.local_progressed(self.config, Some(last)).lemma_initiated_adds(self.config);
    }

    /// If the cluster has only one voter, it is leader as soon as it stands for election, and
    /// its first entry is committed.
    pub proof fn law_sole_voter_takes_office_at_once(self)
        requires
            self.valid(),
            self.in_step(),
            self.local.state.membership.effective.membership.is_sole_voter(self.config.id),
            self.local.state.vote.term < u64::MAX,
            next_index(self.local.state.last_log_id()) < u64::MAX,
        ensures
            ({
                let after = self.elected().local.state;
                let id = LogId {
                    leader_id: self.next_vote().leader(),
                    index: next_index(self.local.state.last_log_id()) as u64,
                };
                &&& after.vote == self.next_vote().granted()
                &&& after.server_state == ServerState::Leader
                &&& after.log == self.local.state.log.push(id)
                &&& after.committed == Some(id)
            }),
    {
        reveal(EngineView::elected);
        reveal(EngineView::leader_established);
        reveal(LeadingView::blank_appended);
        self.lemma_stood();
        self.lemma_saw_vote(self.next_vote());
        let e = self.stood();
        assert((e.leader->0).is_granted());
        let vote = e.local.state.vote.granted();
        e.lemma_office();
        e.lemma_leader_established_leads();
        e.lemma_saw_vote(vote);
        e.lemma_saw_vote_in_step(vote);
        let l = e.saw_vote(vote).leading();
        let a = l.streams_rebuilt(self.config);
        l.lemma_streams_rebuilt(self.config);
        l.lemma_streams_rebuilt_serves(self.config);
        assert(a.in_step()) by {
            reveal(LeadingView::serves);
        }
        let w = a.with_blank();
        let id = a.next_log_id();
        a.lemma_blank_stored();
        w.lemma_serves_same(a);
        a.lemma_serves_same(w);
        assert(w.in_step()) by {
            reveal(LeadingView::serves);
        }
        a.lemma_ends_with_log();
        w.local.state.lemma_positions();
        lemma_last_held(w.local.state.log);
        w.lemma_entry_is_later(self.config, id);
        w.lemma_alone_is_enough(self.config, id);
        a.lemma_blank_first(self.config);
        a.blank_appended(self.config).lemma_initiated_adds(self.config);
    }
}

impl<NID: NodeId, M> LeadingView<NID, M> {
    /// A membership that comes into force commits nothing.
    pub proof fn lemma_membership_keeps_committed(
        self,
        config: EngineConfig<NID>,
        log_id: LogId<NID>,
        m: MembershipView<NID, M>,
    )
        ensures
            self.membership_appended(config, log_id, m).local.state.committed
                == self.local.state.committed,
    {
        reveal(LeadingView::membership_appended);
        reveal(LeadingView::streams_rebuilt);
        reveal(LeadingView::replication_initiated);
    }

    proof fn lemma_blank_stored(self)
        requires
            self.valid(),
            next_index(self.local.state.last_log_id()) < u64::MAX,
        ensures
            self.with_blank().valid(),
    {
        let id = self.next_log_id();
        let log = self.local.state.log;
        self.lemma_log_extended(seq![id]);
        assert(log + seq![id] =~= log.push(id));
    }
}

/// Entries without a membership change nothing but the log.
pub proof fn lemma_nothing_absorbed<NID: NodeId, M>(
    l: LeadingView<NID, M>,
    config: EngineConfig<NID>,
    entries: Seq<EntryView<NID, M>>,
    n: int,
)
    requires
        n <= entries.len(),
        forall|i: int| 0 <= i < n ==> (#[trigger] entries[i]).membership is None,
    ensures
        l.absorbed(config, entries, n) == l,
    decreases n,
{
    if n > 0 {
        lemma_nothing_absorbed(l, config, entries, n - 1);
    }
}

} // verus!
