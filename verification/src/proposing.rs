//! What a leader does with the entries that clients propose: what is appended, what is known of
//! whose log, what is committed, and which membership is in force.

use crate::command::CommandView;
use crate::config::EngineConfig;
use crate::entry::{ids_of, EntryView};
use crate::handler::replication_handler::all_sent;
use crate::leader::LeaderView;
use crate::log_id::{
    fit, holds, id_at, lemma_leader_order_is_total, lemma_opt_order, lemma_order_chain, next_index,
    opt_precedes, LeaderId, LogId,
};
use crate::meaning::{law_known_progress, law_progress_under_membership};
use crate::membership::{EffectiveMembershipView, MembershipView};
use crate::node::NodeId;
use crate::progress::{entry_of, ProgressEntry, ProgressView};
use crate::raft_state::RaftStateView;
use crate::receiving::{is_last_membership, is_plain, membership_at};
use crate::sending::is_recorded;
use crate::validity::{lemma_holds_on_log, lemma_last_held, on_log};
use crate::view::{EngineView, LeadingView, LocalView};
use crate::vote::lemma_vote_order_is_total;
use vstd::prelude::*;

verus! {

/// The voters that are known to have the log up to `u`.
pub open spec fn holders<NID: NodeId>(
    voters: Seq<(NID, ProgressEntry<NID>)>,
    u: Option<LogId<NID>>,
) -> Set<NID> {
    Set::new(
        |id: NID|
            exists|j: int|
                0 <= j < voters.len() && (#[trigger] voters[j]).0 == id && !opt_precedes(
                    voters[j].1.matching,
                    u,
                ),
    )
}

/// In every configuration, more than half of the members are among the nodes.
pub open spec fn is_enough<NID>(configs: Seq<Set<NID>>, ids: Set<NID>) -> bool {
    forall|i: int|
        0 <= i < configs.len() ==> 2 * (#[trigger] configs[i]).intersect(ids).len()
            > configs[i].len()
}

/// The log of a node is known to match up to just this position, and is searched up to this
/// index.
pub open spec fn is_matched<NID>(
    p: ProgressView<NID>,
    id: NID,
    matching: Option<LogId<NID>>,
    searching_end: int,
) -> bool {
    exists|e: ProgressEntry<NID>| #[trigger]
        is_recorded(p, id, e) && e.matching == matching && e.searching_end == searching_end
}

impl<NID: NodeId> ProgressView<NID> {
    proof fn lemma_enough_is_accepted(self, u: Option<LogId<NID>>)
        ensures
            is_enough(self.configs, holders(self.voters, u)) <==> self.is_accepted(u),
    {
        assert(holders(self.voters, u) =~= self.matched_by(u));
    }
}

impl<NID: NodeId, M> LeadingView<NID, M> {
    /// A leader commits an entry just if it is of its own leadership, more than was committed
    /// before, and known to be on more than half of every configuration. It tells the runtime
    /// to tell the others, and to apply the entries from where it had committed on. The
    /// membership in force is committed with it unless it is behind.
    pub proof fn law_leader_commits_what_is_accepted(self, u: LogId<NID>, k: int)
        requires
            self.valid(),
        ensures
            ({
                let (s, after) = (self.local.state, self.accepted_committed());
                let (t, p) = (after.local.state, self.leader.progress);
                let own = LeaderId { term: s.vote.term, node_id: s.vote.node_id };
                let cs = self.local.output.commands;
                &&& after.leader == self.leader
                &&& t.committed == s.committed ==> after == self
                &&& t.committed != s.committed ==> {
                    &&& t.committed is Some
                    &&& t.committed->0.leader_id == own
                    &&& opt_precedes(s.committed, t.committed)
                    &&& is_enough(p.configs, holders(p.voters, t.committed))
                    &&& after.local.output.commands == cs.push(
                        CommandView::ReplicateCommitted { committed: t.committed },
                    ).push(
                        CommandView::LeaderCommit {
                            already_committed: s.committed,
                            upto: t.committed->0,
                        },
                    )
                    &&& t == (RaftStateView {
                        committed: t.committed,
                        membership: t.membership,
                        ..s
                    })
                    &&& t.membership.effective == s.membership.effective
                    &&& t.membership.committed == (if opt_precedes(
                        t.committed,
                        s.membership.effective.log_id,
                    ) {
                        s.membership.committed
                    } else {
                        s.membership.effective
                    })
                }
                &&& 0 <= k < p.voters.len() && p.voters[k].1.matching == Some(u) && u.leader_id
                    == own && is_enough(p.configs, holders(p.voters, Some(u))) ==> !opt_precedes(
                    t.committed,
                    Some(u),
                )
            }),
    {
        reveal(LeadingView::accepted_committed);
        let (s, p) = (self.local.state, self.leader.progress);
        let g = p.quorum_accepted();
        let t = self.accepted_committed().local.state;
        s.lemma_positions();
        p.lemma_greatest_exists();
        p.lemma_enough_is_accepted(g);
        p.lemma_enough_is_accepted(Some(u));
        p.lemma_accepted_on_log(s.log);
        lemma_opt_order(s.committed, s.committed);
        lemma_opt_order(s.committed, g);
        if 0 <= k < p.voters.len() && p.voters[k].1.matching == Some(u) && u.leader_id
            == s.vote.leader() && p.is_accepted(Some(u)) {
            assert(p.is_accepted(p.voters[k].1.matching));
            assert(!opt_precedes(g, Some(u)));
            let x = g->0;
            assert(on_log(s.log, x));
            let n = s.log.len() as int;
            assert(s.log[n - 1].index == s.log[0].index + (n - 1));
            assert(fit(s.log[n - 1], x));
            lemma_leader_order_is_total(x.leader_id, u.leader_id);
            lemma_leader_order_is_total(x.leader_id, s.log[n - 1].leader_id);
            lemma_leader_order_is_total(s.log[n - 1].leader_id, s.vote.leader());
            lemma_leader_order_is_total(x.leader_id, s.vote.leader());
            assert(x.leader_id == s.vote.leader());
            lemma_order_chain(Some(u), g, s.committed);
            lemma_opt_order(Some(u), g);
        }
    }

    /// What this node has stored is noted for itself alone: as far as it says, if that is
    /// further than before. Nothing else is known of any log afterwards but what was before.
    pub proof fn law_own_progress_is_noted(
        self,
        config: EngineConfig<NID>,
        u: LogId<NID>,
        k: int,
    )
        ensures
            ({
                let after = self.local_progressed(config, Some(u));
                let (p, q) = (self.leader.progress, after.leader.progress);
                &&& after.local.state.log == self.local.state.log
                &&& after.local.state.vote == self.local.state.vote
                &&& q.configs == p.configs
                &&& q.voters.len() == p.voters.len()
                &&& q.learners.len() == p.learners.len()
                &&& 0 <= k < p.voters.len() && p.voters[k].0 != config.id ==> q.voters[k]
                    == p.voters[k]
                &&& 0 <= k < p.learners.len() && p.learners[k].0 != config.id ==> q.learners[k]
                    == p.learners[k]
                &&& p.entry(config.id) matches Some(e) ==> {
                    &&& q.entry(config.id) is Some
                    &&& opt_precedes(e.matching, Some(u)) ==> {
                        let x = q.entry(config.id)->0;
                        &&& x.matching == Some(u)
                        &&& x.inflight is Idle
                        &&& e.searching_end > u.index ==> x.searching_end == e.searching_end
                        &&& e.searching_end <= u.index < u64::MAX ==> x.searching_end == u.index
                            + 1
                    }
                    &&& !opt_precedes(e.matching, Some(u)) ==> after == self
                }
                &&& p.entry(config.id) is None ==> after == self
            }),
    {
        reveal(LeadingView::local_progressed);
        reveal(LeadingView::accepted_committed);
        let p = self.leader.progress;
        if let Some(e) = p.entry(config.id) {
            law_known_progress(p, config.id, config.id, e.matched(u));
        }
    }

    /// When this node has stored more, what is committed then is known to be on more than half
    /// of every configuration, unless it was committed before; and what is of its own
    /// leadership and known to be there is committed.
    pub proof fn law_own_progress_commits(
        self,
        config: EngineConfig<NID>,
        u: LogId<NID>,
        v: LogId<NID>,
        k: int,
    )
        requires
            self.valid(),
            holds(self.local.state.log, u),
        ensures
            ({
                let (s, after) = (self.local.state, self.local_progressed(config, Some(u)));
                let (t, q) = (after.local.state, after.leader.progress);
                let own = LeaderId { term: s.vote.term, node_id: s.vote.node_id };
                &&& t.committed != s.committed ==> is_enough(
                    q.configs,
                    holders(q.voters, t.committed),
                ) && opt_precedes(s.committed, t.committed) && t.committed->0.leader_id == own
                &&& (self.leader.progress.entry(config.id) matches Some(e) && opt_precedes(
                    e.matching,
                    Some(u),
                )) && 0 <= k < q.voters.len() && q.voters[k].1.matching == Some(v) && v.leader_id
                    == own && is_enough(q.configs, holders(q.voters, Some(v))) ==> !opt_precedes(
                    t.committed,
                    Some(v),
                )
            }),
    {
        let p = self.leader.progress;
        if let Some(e) = p.entry(config.id) {
            let x = LeadingView {
                leader: LeaderView { progress: p.with(config.id, e.matched(u)), ..self.leader },
                ..self
            };
            self.local.state.lemma_positions();
            lemma_holds_on_log(self.local.state.log, u);
            p.lemma_with_is_on(self.local.state.log, config.id, e.matched(u));
            assert(x.valid());
            x.law_leader_commits_what_is_accepted(v, k);
        }
        reveal(LeadingView::local_progressed);
    }

    /// A membership that is appended is in force at once, and the one before counts as
    /// committed. The runtime is told so. The progress is kept for its voters and learners:
    /// what was known of the log of a node still is, and nothing is known of that of a new one.
    pub proof fn law_appended_membership_is_in_force(
        self,
        config: EngineConfig<NID>,
        log_id: LogId<NID>,
        m: MembershipView<NID, M>,
        id: NID,
    )
        requires
            m.voters().finite(),
            m.learners().finite(),
            m.voters().contains(id) || m.learners().contains(id),
        ensures
            ({
                let (s, after) = (self.local.state, self.membership_appended(config, log_id, m));
                let (t, p, q) = (after.local.state, self.leader.progress, after.leader.progress);
                let em = EffectiveMembershipView { log_id: Some(log_id), membership: m };
                let n = self.local.output.commands.len() as int;
                let cs = after.local.output.commands;
                &&& t == (RaftStateView { membership: t.membership, ..s })
                &&& t.membership.effective == em
                &&& t.membership.committed == s.membership.effective
                &&& cs.len() >= n + 2
                &&& cs[n] == CommandView::<NID, M>::UpdateMembership { membership: em }
                &&& cs[n + 1] is RebuildReplicationStreams
                &&& after.leader.vote == self.leader.vote
                &&& after.leader.granted_by == self.leader.granted_by
                &&& q.configs == m.configs
                &&& p.entry(id) matches Some(e) ==> is_matched(
                    q,
                    id,
                    e.matching,
                    e.searching_end as int,
                )
                &&& p.entry(id) is None && next_index(s.last_log_id()) <= u64::MAX ==> is_matched(
                    q,
                    id,
                    None,
                    next_index(s.last_log_id()),
                )
            }),
    {
        reveal(LeadingView::membership_appended);
        let default = ProgressEntry::<NID>::unknown(next_index(self.local.state.last_log_id()));
        let em = EffectiveMembershipView { log_id: Some(log_id), membership: m };
        let p = self.leader.progress;
        let l = LeadingView {
            leader: LeaderView { progress: p.for_membership(m, default), ..self.leader },
            local: LocalView {
                state: RaftStateView {
                    membership: self.local.state.membership.appended(em),
                    ..self.local.state
                },
                output: self.local.output.push(CommandView::UpdateMembership { membership: em }),
            },
        };
        let r = l.streams_rebuilt(config);
        let done = r.replication_initiated(config);
        l.law_streams_go_to_all_others(config, 0);
        r.lemma_initiated_adds(config);
        law_progress_under_membership(p, m, default, id);
        let kept = match p.entry(id) {
            Some(e) => e,
            None => default,
        };
        reveal(LeadingView::streams_rebuilt);
        reveal(LeadingView::replication_initiated);
        let (a, q) = (l.leader.progress, done.leader.progress);
        let n = self.local.output.commands.len() as int;
        assert(done.local.output.commands[n] == r.local.output.commands[n]);
        assert(done.local.output.commands[n + 1] == r.local.output.commands[n + 1]);
        if m.voters().contains(id) {
            let k = choose|k: int| 0 <= k < a.voters.len() && a.voters[k] == (id, kept);
            assert(q.voters[k].0 == id);
            assert(q.voters[k] == (id, q.voters[k].1));
            assert(is_recorded(q, id, q.voters[k].1));
            assert(is_matched(q, id, kept.matching, kept.searching_end as int));
        } else {
            let k = choose|k: int| 0 <= k < a.learners.len() && a.learners[k] == (id, kept);
            assert(q.learners[k].0 == id);
            assert(q.learners[k] == (id, q.learners[k].1));
            assert(is_recorded(q, id, q.learners[k].1));
            assert(is_matched(q, id, kept.matching, kept.searching_end as int));
        }
    }

    /// The effects of appended entries on the membership in force.
    proof fn lemma_absorbed_membership(
        self,
        config: EngineConfig<NID>,
        entries: Seq<EntryView<NID, M>>,
        n: int,
    )
        requires
            self.valid(),
            n <= entries.len(),
        ensures
            ({
                let after = self.absorbed(config, entries, n);
                let (s, t) = (self.local.state, after.local.state);
                &&& t == (RaftStateView {
                    committed: t.committed,
                    membership: t.membership,
                    ..s
                })
                &&& is_plain(entries, 0, n) ==> after == self
                &&& forall|j: int|
                    #![trigger is_last_membership(entries, 0, n, j)]
                    is_last_membership(entries, 0, n, j) ==> t.membership.effective
                        == membership_at(entries, j) && self.local.queues(
                        after.local,
                        CommandView::UpdateMembership { membership: membership_at(entries, j) },
                    )
            }),
        decreases n,
    {
        if n > 0 {
            self.lemma_absorbed_membership(config, entries, n - 1);
            self.lemma_absorbed_leads(config, entries, n - 1);
            let l = self.absorbed(config, entries, n - 1);
            let after = self.absorbed(config, entries, n);
            let log_id = entries[n - 1].log_id;
            match entries[n - 1].membership {
                None => {
                    assert(after == l);
                    assert forall|j: int|
                        #![trigger is_last_membership(entries, 0, n, j)]
                        is_last_membership(entries, 0, n, j) implies is_last_membership(
                        entries,
                        0,
                        n - 1,
                        j,
                    ) by {}
                    if is_plain(entries, 0, n) {
                        assert(is_plain(entries, 0, n - 1));
                    }
                },
                Some(m) => {
                    let upto = id_at(l.local.state.log, log_id.index - 1);
                    let p = if log_id.index > 0 {
                        l.local_progressed(config, upto)
                    } else {
                        l
                    };
                    let em = EffectiveMembershipView { log_id: Some(log_id), membership: m };
                    l.lemma_progressed_keeps(config, upto);
                    p.lemma_membership_keeps(config, log_id, m);
                    assert(self.local.queues(
                        after.local,
                        CommandView::UpdateMembership { membership: em },
                    )) by {
                        reveal(LocalView::leads_to);
                        let at = p.local.output.commands.len() as int;
                        assert(after.local.output.commands[at] == CommandView::<
                            NID,
                            M,
                        >::UpdateMembership { membership: em });
                    }
                    assert forall|j: int|
                        #![trigger is_last_membership(entries, 0, n, j)]
                        is_last_membership(entries, 0, n, j) implies j == n - 1 by {
                        if j < n - 1 {
                            assert(entries[n - 1].membership is None);
                        }
                    }
                    assert(!is_plain(entries, 0, n)) by {
                        assert(entries[n - 1].membership is Some);
                    }
                },
            }
        }
    }

    proof fn lemma_progressed_keeps(self, config: EngineConfig<NID>, upto: Option<LogId<NID>>)
        ensures
            ({
                let (s, after) = (self.local.state, self.local_progressed(config, upto));
                let t = after.local.state;
                &&& t == (RaftStateView {
                    committed: t.committed,
                    membership: t.membership,
                    ..s
                })
                &&& t.membership.effective == s.membership.effective
                &&& after.local.output.commands.len() >= self.local.output.commands.len()
            }),
    {
        reveal(LeadingView::local_progressed);
        reveal(LeadingView::accepted_committed);
    }

    proof fn lemma_membership_keeps(
        self,
        config: EngineConfig<NID>,
        log_id: LogId<NID>,
        m: MembershipView<NID, M>,
    )
        ensures
            ({
                let (s, after) = (self.local.state, self.membership_appended(config, log_id, m));
                let t = after.local.state;
                let em = EffectiveMembershipView { log_id: Some(log_id), membership: m };
                let n = self.local.output.commands.len() as int;
                &&& t == (RaftStateView { membership: t.membership, ..s })
                &&& t.membership.effective == em
                &&& after.local.output.commands.len() > n
                &&& after.local.output.commands[n] == CommandView::<NID, M>::UpdateMembership {
                    membership: em,
                }
            }),
    {
        reveal(LeadingView::membership_appended);
        reveal(LeadingView::streams_rebuilt);
        let em = EffectiveMembershipView { log_id: Some(log_id), membership: m };
        let l = LeadingView {
            leader: LeaderView {
                progress: self.leader.progress.for_membership(
                    m,
                    ProgressEntry::unknown(next_index(self.local.state.last_log_id())),
                ),
                ..self.leader
            },
            local: LocalView {
                state: RaftStateView {
                    membership: self.local.state.membership.appended(em),
                    ..self.local.state
                },
                output: self.local.output.push(CommandView::UpdateMembership { membership: em }),
            },
        };
        let r = l.streams_rebuilt(config);
        r.lemma_initiated_adds(config);
        let n = self.local.output.commands.len() as int;
        assert(r.replication_initiated(config).local.output.commands[n]
            == r.local.output.commands[n]);
    }
}

impl<NID: NodeId, M> EngineView<NID, M> {
    /// Entries that clients propose are appended at the end of the log, with the next indexes,
    /// under the leadership of this node. The runtime is told to append them first, and to
    /// move on from them last. The last membership among them is in force afterwards, and the
    /// runtime is told; without one the membership in force stays. This node is known to have
    /// its log to the end.
    pub proof fn law_proposals_are_appended(
        self,
        memberships: Seq<Option<MembershipView<NID, M>>>,
        i: int,
        j: int,
    )
        requires
            self.valid(),
            self.can_propose(memberships.len() as int),
            memberships.len() > 0,
            0 <= i < memberships.len(),
        ensures
            ({
                let (s, after) = (
                    self.local.state,
                    self.entries_appended(self.proposed(memberships)),
                );
                let t = after.local.state;
                let n = memberships.len() as int;
                let len = s.log.len() as int;
                let cs = after.local.output.commands;
                let at = self.local.output.commands.len() as int;
                let own = LeaderId { term: s.vote.term, node_id: s.vote.node_id };
                let start = next_index(s.last_log_id());
                let id = LogId { leader_id: own, index: (start + j) as u64 };
                let last = 0 <= j < n && memberships[j] is Some && forall|h: int|
                    j < h < n ==> (#[trigger] memberships[h]) is None;
                &&& t == (RaftStateView {
                    log: t.log,
                    committed: t.committed,
                    membership: t.membership,
                    ..s
                })
                &&& t.log.len() == len + n
                &&& t.log.take(len) == s.log
                &&& t.log[len + i].leader_id == own
                &&& t.log[len + i].index == start + i
                &&& cs.len() > at
                &&& cs[at] == CommandView::<NID, M>::AppendInputEntries { from: 0, to: n }
                &&& cs.last() == CommandView::<NID, M>::MoveInputCursorBy { n }
                &&& (forall|h: int| 0 <= h < n ==> (#[trigger] memberships[h]) is None)
                    ==> t.membership.effective == s.membership.effective
                &&& last ==> {
                    let em = EffectiveMembershipView {
                        log_id: Some(id),
                        membership: memberships[j]->0,
                    };
                    &&& t.membership.effective == em
                    &&& self.local.queues(
                        after.local,
                        CommandView::UpdateMembership { membership: em },
                    )
                }
                &&& after.leader matches Some(l) && l.vote == (self.leader->0).vote && l.granted_by
                    == (self.leader->0).granted_by
            }),
    {
        let n = memberships.len() as int;
        let s = self.local.state;
        let config = self.config;
        let entries = self.proposed(memberships);
        let ids = s.next_ids(n);
        assert(ids_of(entries) =~= ids);
        s.lemma_positions();
        self.lemma_entries_taken(n);
        let e = self.entries_taken(ids);
        let l = e.leading();
        let a = l.absorbed(config, entries, n);
        let last = Some(entries.last().log_id);
        let b = a.local_progressed(config, last);
        let c = b.replication_initiated(config);
        let after = self.entries_appended(entries);
        l.lemma_absorbed_leads(config, entries, n);
        l.lemma_absorbed_membership(config, entries, n);
        a.lemma_progressed_keeps(config, last);
        a.lemma_progressed_adds(config, last);
        b.lemma_initiated_adds(config);
        assert((s.log + ids).take(s.log.len() as int) =~= s.log);
        assert((s.log + ids)[s.log.len() + i] == ids[i]);
        let at = self.local.output.commands.len() as int;
        let cs = after.local.output.commands;
        assert(l.local.output.commands[at] == CommandView::<NID, M>::AppendInputEntries {
            from: 0,
            to: n,
        });
        assert(a.local.output.extends(l.local.output)) by {
            reveal(LocalView::leads_to);
        }
        assert(a.local.output.commands.subrange(0, l.local.output.commands.len() as int)[at]
            == l.local.output.commands[at]);
        assert(cs[at] == a.local.output.commands[at]);
        if forall|h: int| 0 <= h < n ==> (#[trigger] memberships[h]) is None {
            assert forall|h: int| 0 <= h < n implies (#[trigger] entries[h]).membership is None by {
                assert(memberships[h] is None);
            }
            assert(is_plain(entries, 0, n));
        }
        if 0 <= j < n && memberships[j] is Some && forall|h: int|
            j < h < n ==> (#[trigger] memberships[h]) is None {
            assert forall|h: int| j + 1 <= h < n implies (
            #[trigger] entries[h]).membership is None by {
                assert(memberships[h] is None);
            }
            assert(is_last_membership(entries, 0, n, j));
            let em = membership_at(entries, j);
            let cmd = CommandView::<NID, M>::UpdateMembership { membership: em };
            let h = choose|h: int|
                l.local.output.commands.len() <= h < a.local.output.commands.len()
                    && #[trigger] a.local.output.commands[h] == cmd;
            assert(cs[h] == cmd);
        }
        l.lemma_absorbed_leader(config, entries, n);
        a.lemma_progressed_leader(config, last);
        b.lemma_initiated_leader(config);
    }

    /// After clients have proposed entries without a membership, this node is known to have its
    /// log to the end if it is a member, and of the other logs is known what was before.
    pub proof fn law_proposals_count_as_stored_here(
        self,
        memberships: Seq<Option<MembershipView<NID, M>>>,
        k: int,
    )
        requires
            self.valid(),
            self.can_propose(memberships.len() as int),
            memberships.len() > 0,
            forall|h: int| 0 <= h < memberships.len() ==> (#[trigger] memberships[h]) is None,
        ensures
            ({
                let after = self.entries_appended(self.proposed(memberships));
                let (p, q) = ((self.leader->0).progress, (after.leader->0).progress);
                &&& q.configs == p.configs
                &&& q.voters.len() == p.voters.len()
                &&& q.learners.len() == p.learners.len()
                &&& 0 <= k < p.voters.len() ==> {
                    &&& q.voters[k].0 == p.voters[k].0
                    &&& p.voters[k].0 != self.config.id ==> q.voters[k].1.matching
                        == p.voters[k].1.matching
                    &&& p.voters[k].0 == self.config.id ==> q.voters[k].1.matching
                        == after.local.state.last_log_id()
                }
                &&& 0 <= k < p.learners.len() ==> {
                    &&& q.learners[k].0 == p.learners[k].0
                    &&& p.learners[k].0 != self.config.id ==> q.learners[k].1.matching
                        == p.learners[k].1.matching
                    &&& p.learners[k].0 == self.config.id ==> q.learners[k].1.matching
                        == after.local.state.last_log_id()
                }
            }),
    {
        let n = memberships.len() as int;
        let s = self.local.state;
        let config = self.config;
        let entries = self.proposed(memberships);
        let ids = s.next_ids(n);
        assert(ids_of(entries) =~= ids);
        s.lemma_positions();
        self.lemma_entries_taken(n);
        let l = self.entries_taken(ids).leading();
        l.lemma_absorbed_membership(config, entries, n);
        assert(is_plain(entries, 0, n)) by {
            assert forall|h: int| 0 <= h < n implies (#[trigger] entries[h]).membership is None by {
                assert(memberships[h] is None);
            }
        }
        let last = entries.last().log_id;
        let b = l.local_progressed(config, Some(last));
        b.lemma_initiated_adds(config);
        l.local.state.lemma_positions();
        assert(l.local.state.log.last() == ids.last());
        lemma_last_held(l.local.state.log);
        self.leading().lemma_ends_with_log();
        assert(l.ends_before(next_index(s.last_log_id())));
        l.lemma_entry_is_later(config, last);
        let p = l.leader.progress;
        law_known_progress(p, config.id, config.id, ProgressEntry::unknown(0));
        reveal(LeadingView::local_progressed);
        reveal(LeadingView::accepted_committed);
        reveal(LeadingView::replication_initiated);
    }
}

impl<NID: NodeId, M> EngineView<NID, M> {
    /// After clients have proposed entries, a leader that is a member knows that it has its log
    /// to the end. It has then committed every entry of its own leadership that some voter is
    /// known to end with and that is known to be on more than half of every configuration.
    pub proof fn law_accepted_proposals_are_committed(
        self,
        memberships: Seq<Option<MembershipView<NID, M>>>,
        u: LogId<NID>,
        k: int,
    )
        requires
            self.valid(),
            self.can_propose(memberships.len() as int),
            memberships.len() > 0,
            (self.entries_appended(
                self.proposed(memberships),
            ).leader->0).progress.entry(self.config.id) is Some,
        ensures
            ({
                let after = self.entries_appended(self.proposed(memberships));
                let (t, q) = (after.local.state, (after.leader->0).progress);
                let own = LeaderId {
                    term: self.local.state.vote.term,
                    node_id: self.local.state.vote.node_id,
                };
                &&& q.entry(self.config.id)->0.matching == t.last_log_id()
                &&& 0 <= k < q.voters.len() && q.voters[k].1.matching == Some(u) && u.leader_id
                    == own && is_enough(q.configs, holders(q.voters, Some(u))) ==> !opt_precedes(
                    t.committed,
                    Some(u),
                )
            }),
    {
        let n = memberships.len() as int;
        let s = self.local.state;
        let config = self.config;
        let entries = self.proposed(memberships);
        let ids = s.next_ids(n);
        assert(ids_of(entries) =~= ids);
        s.lemma_positions();
        self.lemma_entries_taken(n);
        let l = self.entries_taken(ids).leading();
        let a = l.absorbed(config, entries, n);
        let last = entries.last().log_id;
        l.lemma_absorbed_leads(config, entries, n);
        l.lemma_absorbed_membership(config, entries, n);
        l.lemma_absorbed_log(config, entries, n);
        a.local.state.lemma_positions();
        assert(a.local.state.log.last() == ids.last());
        lemma_last_held(a.local.state.log);
        let b = a.local_progressed(config, Some(last));
        let c = b.replication_initiated(config);
        b.lemma_initiated_adds(config);
        b.lemma_initiated_alike(config, Some(u));
        a.lemma_progressed_keeps(config, Some(last));
        a.lemma_progressed_adds(config, Some(last));
        a.law_own_progress_is_noted(config, last, 0);
        self.leading().lemma_ends_with_log();
        assert(l.ends_before(last.index as int));
        l.lemma_absorbed_ends_before(config, entries, n, last.index as int);
        a.lemma_entry_is_later(config, last);
        lemma_holds_on_log(a.local.state.log, last);
        let x = LeadingView {
            leader: LeaderView {
                progress: a.leader.progress.with(
                    config.id,
                    (a.leader.progress.entry(config.id)->0).matched(last),
                ),
                ..a.leader
            },
            ..a
        };
        reveal(LeadingView::local_progressed);
        assert(b == x.accepted_committed());
        a.leader.progress.lemma_with_is_on(
            a.local.state.log,
            config.id,
            (a.leader.progress.entry(config.id)->0).matched(last),
        );
        assert(x.valid());
        x.law_leader_commits_what_is_accepted(u, k);
    }
}

impl<NID: NodeId, M> EngineView<NID, M> {
    /// If a leader commits further when clients propose entries without a membership, it
    /// commits an entry of its own leadership that is known to be on more than half of every
    /// configuration.
    pub proof fn law_proposals_commit_only_accepted(
        self,
        memberships: Seq<Option<MembershipView<NID, M>>>,
    )
        requires
            self.valid(),
            self.can_propose(memberships.len() as int),
            forall|h: int| 0 <= h < memberships.len() ==> (#[trigger] memberships[h]) is None,
        ensures
            ({
                let after = self.entries_appended(self.proposed(memberships));
                let (s, t, q) = (
                    self.local.state,
                    after.local.state,
                    (after.leader->0).progress,
                );
                let own = LeaderId { term: s.vote.term, node_id: s.vote.node_id };
                t.committed != s.committed ==> {
                    &&& t.committed is Some
                    &&& t.committed->0.leader_id == own
                    &&& opt_precedes(s.committed, t.committed)
                    &&& is_enough(q.configs, holders(q.voters, t.committed))
                }
            }),
    {
        let n = memberships.len() as int;
        if n > 0 {
            let s = self.local.state;
            let config = self.config;
            let entries = self.proposed(memberships);
            let ids = s.next_ids(n);
            assert(ids_of(entries) =~= ids);
            s.lemma_positions();
            self.lemma_entries_taken(n);
            let l = self.entries_taken(ids).leading();
            l.lemma_absorbed_membership(config, entries, n);
            assert(is_plain(entries, 0, n)) by {
                assert forall|h: int| 0 <= h < n implies (
                #[trigger] entries[h]).membership is None by {
                    assert(memberships[h] is None);
                }
            }
            let last = entries.last().log_id;
            l.local.state.lemma_positions();
            assert(l.local.state.log.last() == ids.last());
            lemma_last_held(l.local.state.log);
            let b = l.local_progressed(config, Some(last));
            l.law_own_progress_commits(config, last, last, 0);
            b.lemma_initiated_adds(config);
            b.lemma_initiated_alike(config, b.local.state.committed);
            lemma_opt_order(s.committed, s.committed);
        }
    }

    /// If a node that takes office commits further, it commits an entry of its own leadership
    /// that is known to be on more than half of every configuration.
    pub proof fn law_office_commits_only_accepted(self)
        requires
            self.valid(),
            self.local.state.is_leading(self.config.id),
            next_index(self.local.state.last_log_id()) < u64::MAX,
        ensures
            ({
                let after = self.leader_established();
                let (s, t, q) = (
                    self.local.state,
                    after.local.state,
                    (after.leader->0).progress,
                );
                let own = LeaderId { term: s.vote.term, node_id: s.vote.node_id };
                t.committed != s.committed ==> {
                    &&& t.committed is Some
                    &&& t.committed->0.leader_id == own
                    &&& opt_precedes(s.committed, t.committed)
                    &&& is_enough(q.configs, holders(q.voters, t.committed))
                }
            }),
    {
        let config = self.config;
        let s = self.local.state;
        let vote = s.vote.granted();
        lemma_vote_order_is_total(s.vote, vote);
        self.lemma_saw_vote(vote);
        self.lemma_office();
        s.lemma_positions();
        let l = self.saw_vote(vote).leading();
        let a = l.streams_rebuilt(config);
        let id = a.next_log_id();
        let b = a.with_blank();
        l.lemma_streams_rebuilt(config);
        lemma_leader_order_is_total(id.leader_id, id.leader_id);
        a.lemma_log_extended(seq![id]);
        assert(a.local.state.log.push(id) =~= a.local.state.log + seq![id]);
        assert(b.valid());
        b.local.state.lemma_positions();
        lemma_last_held(b.local.state.log);
        let c = b.local_progressed(config, Some(id));
        b.law_own_progress_commits(config, id, id, 0);
        c.lemma_initiated_adds(config);
        c.lemma_initiated_alike(config, c.local.state.committed);
        lemma_opt_order(s.committed, s.committed);
        reveal(EngineView::leader_established);
        reveal(LeadingView::blank_appended);
    }
}

impl<NID: NodeId, M> LeadingView<NID, M> {
    /// Sending changes nothing that is known of any log.
    proof fn lemma_initiated_alike(self, config: EngineConfig<NID>, u: Option<LogId<NID>>)
        ensures
            ({
                let (p, q) = (
                    self.leader.progress,
                    self.replication_initiated(config).leader.progress,
                );
                &&& q.configs == p.configs
                &&& q.voters.len() == p.voters.len()
                &&& forall|k: int|
                    0 <= k < p.voters.len() ==> (#[trigger] q.voters[k]).1.matching
                        == p.voters[k].1.matching
                &&& holders(q.voters, u) == holders(p.voters, u)
                &&& q.entry(config.id) == p.entry(config.id)
            }),
    {
        reveal(LeadingView::replication_initiated);
        let (p, q) = (self.leader.progress, self.replication_initiated(config).leader.progress);
        assert forall|id: NID| holders(q.voters, u).contains(id) <==> holders(
            p.voters,
            u,
        ).contains(id) by {
            if holders(q.voters, u).contains(id) {
                let j = choose|j: int|
                    0 <= j < q.voters.len() && (#[trigger] q.voters[j]).0 == id && !opt_precedes(
                        q.voters[j].1.matching,
                        u,
                    );
                assert(p.voters[j].0 == id);
            }
            if holders(p.voters, u).contains(id) {
                let j = choose|j: int|
                    0 <= j < p.voters.len() && (#[trigger] p.voters[j]).0 == id && !opt_precedes(
                        p.voters[j].1.matching,
                        u,
                    );
                assert(q.voters[j].0 == id);
            }
        }
        assert(holders(q.voters, u) =~= holders(p.voters, u));
        let (s, max) = (self.local.state, config.max_payload_entries as int);
        lemma_sent_own(p.voters, config.id, s, max);
        lemma_sent_own(p.learners, config.id, s, max);
    }

    proof fn lemma_progressed_leader(self, config: EngineConfig<NID>, upto: Option<LogId<NID>>)
        ensures
            self.local_progressed(config, upto).leader.vote == self.leader.vote,
            self.local_progressed(config, upto).leader.granted_by == self.leader.granted_by,
    {
        reveal(LeadingView::local_progressed);
        reveal(LeadingView::accepted_committed);
    }

    proof fn lemma_initiated_leader(self, config: EngineConfig<NID>)
        ensures
            self.replication_initiated(config).leader.vote == self.leader.vote,
            self.replication_initiated(config).leader.granted_by == self.leader.granted_by,
    {
        reveal(LeadingView::replication_initiated);
    }

    proof fn lemma_absorbed_leader(
        self,
        config: EngineConfig<NID>,
        entries: Seq<EntryView<NID, M>>,
        n: int,
    )
        ensures
            self.absorbed(config, entries, n).leader.vote == self.leader.vote,
            self.absorbed(config, entries, n).leader.granted_by == self.leader.granted_by,
        decreases n,
    {
        if n > 0 {
            self.lemma_absorbed_leader(config, entries, n - 1);
            let l = self.absorbed(config, entries, n - 1);
            let log_id = entries[n - 1].log_id;
            l.lemma_progressed_leader(config, id_at(l.local.state.log, log_id.index - 1));
            reveal(LeadingView::membership_appended);
            reveal(LeadingView::streams_rebuilt);
            reveal(LeadingView::replication_initiated);
        }
    }
}

/// Sending leaves what is recorded of this node.
proof fn lemma_sent_own<NID: NodeId, M>(
    entries: Seq<(NID, ProgressEntry<NID>)>,
    id: NID,
    s: RaftStateView<NID, M>,
    max: int,
)
    ensures
        entry_of(all_sent(entries, id, s, max), id) == entry_of(entries, id),
    decreases entries.len(),
{
    if entries.len() > 0 {
        lemma_sent_own(entries.drop_last(), id, s, max);
        assert(all_sent(entries, id, s, max).drop_last() =~= all_sent(
            entries.drop_last(),
            id,
            s,
            max,
        ));
    }
}

} // verus!
