//! What a runtime has stored and applied once it has executed the commands of the engine: the
//! engine tells the runtime everything, in an order in which it can be done.

use crate::command::CommandView;
use crate::config::EngineConfig;
use crate::entry::{ids_of, EntryView};
use crate::handler::following_handler::{earlier, later, memberships_in};
use crate::handler::replication_handler::requests;
use crate::history::Event;
use crate::leader::LeaderView;
use crate::log_id::{
    cut_at, holds, id_at, is_log, last_of, next_index, opt_precedes, purged_to, LogId,
};
use crate::membership::{EffectiveMembershipView, MembershipView};
use crate::message::{VoteRequest, VoteResponse};
use crate::node::NodeId;
use crate::progress::ProgressEntry;
use crate::raft_state::{RaftStateView, SnapshotView};
use crate::validity::{lemma_id_at_held, lemma_last_held, lemma_uncommitted_held};
use crate::view::{EngineView, LeadingView, LocalView};
use crate::vote::{lemma_vote_order_is_total, Vote};
use vstd::prelude::*;

verus! {

/// What a runtime has stored and applied.
#[verifier::reject_recursive_types(NID)]
pub struct StoreView<NID, M> {
    /// The vote.
    pub vote: Vote<NID>,
    /// The ids in the log, from the last purged one on.
    pub log: Seq<LogId<NID>>,
    /// The index after the last purged entry.
    pub purged_next: int,
    /// The last log id that is applied.
    pub applied: Option<LogId<NID>>,
    /// The membership that is in force.
    pub membership: EffectiveMembershipView<NID, M>,
}

impl<NID: NodeId, M> RaftStateView<NID, M> {
    /// What a runtime has stored that is up to date with this state.
    pub open spec fn stored(self) -> StoreView<NID, M> {
        StoreView {
            vote: self.vote,
            log: self.log,
            purged_next: self.purged_next,
            applied: self.committed,
            membership: self.membership.effective,
        }
    }
}

impl<NID: NodeId, M> StoreView<NID, M> {
    /// The command can be executed, where `input` are the ids of the entries that came with
    /// the event:
    /// - a vote is not replaced by a lesser one;
    /// - entries come with the event, and continue the log;
    /// - what is applied is in the log, and comes after what was applied before;
    /// - what is deleted as conflicting is in the log and not applied;
    /// - what is purged is in the log and applied.
    pub open spec fn can_execute(self, c: CommandView<NID, M>, input: Seq<LogId<NID>>) -> bool {
        match c {
            CommandView::SaveVote { vote } => !vote.precedes(self.vote),
            CommandView::AppendInputEntries { from, to } => {
                &&& 0 <= from <= to <= input.len()
                &&& is_log(self.log + input.subrange(from, to))
            },
            CommandView::AppendBlankLog { log_id } => is_log(self.log.push(log_id)),
            CommandView::LeaderCommit { already_committed, upto } => {
                &&& already_committed == self.applied
                &&& next_index(self.applied) <= upto.index
                &&& holds(self.log, upto)
            },
            CommandView::FollowerCommit { already_committed, upto } => {
                &&& already_committed == self.applied
                &&& next_index(self.applied) <= upto.index
                &&& holds(self.log, upto)
            },
            CommandView::DeleteConflictLog { since } => {
                &&& holds(self.log, since)
                &&& next_index(self.applied) <= since.index
            },
            CommandView::PurgeLog { upto } => {
                &&& holds(self.log, upto)
                &&& upto.index < next_index(self.applied)
            },
            _ => true,
        }
    }

    /// What is stored after the command was executed.
    pub open spec fn executed(self, c: CommandView<NID, M>, input: Seq<LogId<NID>>) -> Self {
        match c {
            CommandView::SaveVote { vote } => StoreView { vote, ..self },
            CommandView::AppendInputEntries { from, to } => StoreView {
                log: self.log + input.subrange(from, to),
                ..self
            },
            CommandView::AppendBlankLog { log_id } => StoreView {
                log: self.log.push(log_id),
                ..self
            },
            CommandView::LeaderCommit { already_committed, upto } => StoreView {
                applied: Some(upto),
                ..self
            },
            CommandView::FollowerCommit { already_committed, upto } => StoreView {
                applied: Some(upto),
                ..self
            },
            CommandView::DeleteConflictLog { since } => StoreView {
                log: cut_at(self.log, since.index as int),
                ..self
            },
            CommandView::PurgeLog { upto } => StoreView {
                log: purged_to(self.log, upto),
                purged_next: upto.index + 1,
                ..self
            },
            CommandView::UpdateMembership { membership } => StoreView { membership, ..self },
            _ => self,
        }
    }

    /// What is stored after the commands were executed one after the other; `None` if one of
    /// them cannot be executed when its turn comes.
    pub open spec fn all_executed(
        self,
        cs: Seq<CommandView<NID, M>>,
        input: Seq<LogId<NID>>,
    ) -> Option<Self>
        decreases cs.len(),
    {
        if cs.len() == 0 {
            Some(self)
        } else {
            match self.all_executed(cs.drop_last(), input) {
                Some(s) if s.can_execute(cs.last(), input) => Some(s.executed(cs.last(), input)),
                _ => None,
            }
        }
    }

    proof fn lemma_executed_in_parts(
        self,
        a: Seq<CommandView<NID, M>>,
        b: Seq<CommandView<NID, M>>,
        input: Seq<LogId<NID>>,
    )
        requires
            self.all_executed(a, input) is Some,
        ensures
            self.all_executed(a + b, input) == (self.all_executed(a, input)->0).all_executed(
                b,
                input,
            ),
        decreases b.len(),
    {
        if b.len() == 0 {
            assert(a + b =~= a);
        } else {
            assert((a + b).drop_last() =~= a + b.drop_last());
            self.lemma_executed_in_parts(a, b.drop_last(), input);
        }
    }
}

impl<NID: NodeId, M> LocalView<NID, M> {
    /// A runtime that is up to date with this state, and executes the commands that were
    /// queued since, is up to date with the later state.
    #[verifier::opaque]
    pub open spec fn tells(self, after: Self, input: Seq<LogId<NID>>) -> bool {
        let (before, now) = (self.output.commands, after.output.commands);
        &&& before.len() <= now.len()
        &&& now.take(before.len() as int) == before
        &&& self.state.stored().all_executed(now.skip(before.len() as int), input) == Some(
            after.state.stored(),
        )
    }

    proof fn lemma_tells_on(self, middle: Self, after: Self, input: Seq<LogId<NID>>)
        requires
            self.tells(middle, input),
            middle.tells(after, input),
        ensures
            self.tells(after, input),
    {
        reveal(LocalView::tells);
        let (a, b, c) = (self.output.commands, middle.output.commands, after.output.commands);
        let (n, m) = (a.len() as int, b.len() as int);
        assert forall|i: int| 0 <= i < n implies c[i] == a[i] by {
            assert(b.take(n)[i] == a[i]);
            assert(c.take(m)[i] == b[i]);
        }
        assert(c.take(n) =~= a);
        assert(c.skip(n) =~= b.skip(n) + c.skip(m)) by {
            assert forall|i: int| 0 <= i < m - n implies c.skip(n)[i] == b.skip(n)[i] by {
                assert(c.take(m)[n + i] == b[n + i]);
            }
        }
        self.state.stored().lemma_executed_in_parts(b.skip(n), c.skip(m), input);
    }

    /// Nothing is queued, and nothing that is stored changes.
    proof fn lemma_tells_nothing(self, after: Self, input: Seq<LogId<NID>>)
        requires
            after.output.commands == self.output.commands,
            after.state.stored() == self.state.stored(),
        ensures
            self.tells(after, input),
    {
        reveal(LocalView::tells);
        let cs = self.output.commands;
        assert(cs.take(cs.len() as int) =~= cs);
        assert(cs.skip(cs.len() as int) =~= Seq::empty());
    }

    /// One command is queued, and the state changes accordingly.
    proof fn lemma_tells_one(self, after: Self, c: CommandView<NID, M>, input: Seq<LogId<NID>>)
        requires
            after.output.commands == self.output.commands.push(c),
            self.state.stored().can_execute(c, input),
            after.state.stored() == self.state.stored().executed(c, input),
        ensures
            self.tells(after, input),
    {
        reveal(LocalView::tells);
        let cs = self.output.commands;
        let one = seq![c];
        assert(cs.push(c).take(cs.len() as int) =~= cs);
        assert(cs.push(c).skip(cs.len() as int) =~= one);
        assert(one.drop_last() =~= Seq::empty());
        assert(self.state.stored().all_executed(one.drop_last(), input) == Some(
            self.state.stored(),
        ));
    }

    proof fn lemma_role_told(self, id: NID, input: Seq<LogId<NID>>)
        ensures
            self.tells(self.role_updated(id), input),
    {
        let after = self.role_updated(id);
        if after.output.commands.len() > self.output.commands.len() {
            self.lemma_tells_one(after, after.output.commands.last(), input);
        } else {
            self.lemma_tells_nothing(after, input);
        }
    }
}

/// Requests to other nodes do not concern what is stored here.
proof fn lemma_requests_only<NID: NodeId, M>(
    entries: Seq<(NID, ProgressEntry<NID>)>,
    id: NID,
    state: RaftStateView<NID, M>,
    max: int,
)
    ensures
        forall|i: int|
            0 <= i < requests(entries, id, state, max).len() ==> (#[trigger] requests(
                entries,
                id,
                state,
                max,
            )[i]) is Replicate,
    decreases entries.len(),
{
    if entries.len() > 0 {
        lemma_requests_only(entries.drop_last(), id, state, max);
    }
}

proof fn lemma_requests_told<NID: NodeId, M>(
    l: LocalView<NID, M>,
    cs: Seq<CommandView<NID, M>>,
    input: Seq<LogId<NID>>,
)
    requires
        forall|i: int| 0 <= i < cs.len() ==> (#[trigger] cs[i]) is Replicate,
    ensures
        l.tells(LocalView { output: l.output.push_all(cs), ..l }, input),
    decreases cs.len(),
{
    if cs.len() == 0 {
        l.lemma_tells_nothing(LocalView { output: l.output.push_all(cs), ..l }, input);
    } else {
        let front = cs.drop_last();
        lemma_requests_told(l, front, input);
        let middle = LocalView { output: l.output.push_all(front), ..l };
        let after = LocalView { output: l.output.push_all(cs), ..l };
        assert(cs[cs.len() - 1] is Replicate);
        middle.lemma_tells_one(after, cs.last(), input);
        l.lemma_tells_on(middle, after, input);
    }
}

impl<NID: NodeId, M> LeadingView<NID, M> {
    proof fn lemma_streams_rebuilt_told(self, config: EngineConfig<NID>, input: Seq<LogId<NID>>)
        ensures
            self.local.tells(self.streams_rebuilt(config).local, input),
    {
        reveal(LeadingView::streams_rebuilt);
        let after = self.streams_rebuilt(config).local;
        self.local.lemma_tells_one(after, after.output.commands.last(), input);
    }

    proof fn lemma_replication_initiated_told(
        self,
        config: EngineConfig<NID>,
        input: Seq<LogId<NID>>,
    )
        ensures
            self.local.tells(self.replication_initiated(config).local, input),
    {
        reveal(LeadingView::replication_initiated);
        let max = config.max_payload_entries as int;
        let p = self.leader.progress;
        let s = self.local.state;
        lemma_requests_only(p.voters, config.id, s, max);
        lemma_requests_only(p.learners, config.id, s, max);
        lemma_requests_told(
            self.local,
            requests(p.voters, config.id, s, max) + requests(p.learners, config.id, s, max),
            input,
        );
    }

    proof fn lemma_accepted_committed_told(self, input: Seq<LogId<NID>>)
        requires
            self.valid(),
        ensures
            self.local.tells(self.accepted_committed().local, input),
    {
        reveal(LeadingView::accepted_committed);
        let s = self.local.state;
        let after = self.accepted_committed().local;
        self.leader.progress.lemma_accepted_on_log(s.log);
        match self.leader.progress.quorum_accepted() {
            Some(upto) if upto.leader_id == s.vote.leader() && opt_precedes(
                s.committed,
                Some(upto),
            ) => {
                lemma_uncommitted_held(s, upto);
                s.lemma_committed(upto);
                let c1 = CommandView::ReplicateCommitted { committed: Some(upto) };
                let c2 = CommandView::LeaderCommit { already_committed: s.committed, upto };
                let middle = LocalView { output: self.local.output.push(c1), ..self.local };
                self.local.lemma_tells_one(middle, c1, input);
                middle.lemma_tells_one(after, c2, input);
                self.local.lemma_tells_on(middle, after, input);
            },
            _ => {
                self.local.lemma_tells_nothing(after, input);
            },
        }
    }

    proof fn lemma_local_progressed_told(
        self,
        config: EngineConfig<NID>,
        upto: Option<LogId<NID>>,
        input: Seq<LogId<NID>>,
    )
        requires
            self.valid(),
            upto matches Some(u) ==> holds(self.local.state.log, u),
        ensures
            self.local.tells(self.local_progressed(config, upto).local, input),
    {
        reveal(LeadingView::local_progressed);
        self.local.lemma_tells_nothing(self.local, input);
        match (upto, self.leader.progress.entry(config.id)) {
            (Some(u), Some(e)) => {
                self.local.state.lemma_positions();
                crate::validity::lemma_holds_on_log(self.local.state.log, u);
                self.leader.progress.lemma_with_is_on(
                    self.local.state.log,
                    config.id,
                    e.matched(u),
                );
                LeadingView {
                    leader: LeaderView {
                        progress: self.leader.progress.with(config.id, e.matched(u)),
                        ..self.leader
                    },
                    ..self
                }.lemma_accepted_committed_told(input);
            },
            _ => {},
        }
    }

    proof fn lemma_blank_appended_told(self, config: EngineConfig<NID>, input: Seq<LogId<NID>>)
        requires
            self.valid(),
            next_index(self.local.state.last_log_id()) < u64::MAX,
        ensures
            self.local.tells(self.blank_appended(config).local, input),
    {
        reveal(LeadingView::blank_appended);
        let id = self.next_log_id();
        let s = self.local.state;
        let c = CommandView::AppendBlankLog { log_id: id };
        crate::log_id::lemma_leader_order_is_total(id.leader_id, id.leader_id);
        self.lemma_log_extended(seq![id]);
        assert(s.log.push(id) =~= s.log + seq![id]);
        let after = LeadingView {
            local: LocalView {
                state: RaftStateView { log: s.log.push(id), ..s },
                output: self.local.output.push(c),
            },
            ..self
        };
        after.local.state.lemma_positions();
        self.local.lemma_tells_one(after.local, c, input);
        lemma_last_held(after.local.state.log);
        after.lemma_local_progressed_told(config, Some(id), input);
        self.local.lemma_tells_on(after.local, self.blank_appended(config).local, input);
    }

    proof fn lemma_membership_appended_told(
        self,
        config: EngineConfig<NID>,
        log_id: LogId<NID>,
        m: MembershipView<NID, M>,
        input: Seq<LogId<NID>>,
    )
        ensures
            self.local.tells(self.membership_appended(config, log_id, m).local, input),
    {
        reveal(LeadingView::membership_appended);
        let em = EffectiveMembershipView { log_id: Some(log_id), membership: m };
        let c = CommandView::UpdateMembership { membership: em };
        let l = LeadingView {
            leader: LeaderView {
                progress: self.leader.progress.for_membership(
                    m,
                    ProgressEntry::unknown(next_index(self.local.state.last_log_id())),
                ),
                ..self.leader
            },
            local: LocalView {
                state: RaftStateView {
                    membership: self.local.state.membership.appended(em),
                    ..self.local.state
                },
                output: self.local.output.push(c),
            },
        };
        let r = l.streams_rebuilt(config);
        self.local.lemma_tells_one(l.local, c, input);
        l.lemma_streams_rebuilt_told(config, input);
        self.local.lemma_tells_on(l.local, r.local, input);
        r.lemma_replication_initiated_told(config, input);
        self.local.lemma_tells_on(r.local, r.replication_initiated(config).local, input);
    }

    proof fn lemma_absorbed_told(
        self,
        config: EngineConfig<NID>,
        entries: Seq<EntryView<NID, M>>,
        n: int,
        input: Seq<LogId<NID>>,
    )
        requires
            self.valid(),
        ensures
            self.local.tells(self.absorbed(config, entries, n).local, input),
        decreases n,
    {
        if n <= 0 {
            self.local.lemma_tells_nothing(self.local, input);
        } else {
            self.lemma_absorbed_told(config, entries, n - 1, input);
            self.lemma_absorbed_leads(config, entries, n - 1);
            let l = self.absorbed(config, entries, n - 1);
            let log_id = entries[n - 1].log_id;
            if let Some(m) = entries[n - 1].membership {
                let prev = id_at(l.local.state.log, log_id.index - 1);
                l.local.state.lemma_positions();
                lemma_id_at_held(l.local.state.log, log_id.index - 1);
                l.lemma_local_progressed_told(config, prev, input);
                l.local.lemma_tells_nothing(l.local, input);
                let p = if log_id.index > 0 {
                    l.local_progressed(config, prev)
                } else {
                    l
                };
                let a = p.membership_appended(config, log_id, m);
                self.local.lemma_tells_on(l.local, p.local, input);
                p.lemma_membership_appended_told(config, log_id, m, input);
                self.local.lemma_tells_on(p.local, a.local, input);
            }
        }
    }
}

impl<NID: NodeId, M> LocalView<NID, M> {
    proof fn lemma_truncated_told(self, id: NID, since: int, input: Seq<LogId<NID>>)
        requires
            self.state.valid(),
            next_index(self.state.committed) <= since,
        ensures
            self.tells(self.truncated(id, since), input),
    {
        reveal(LocalView::truncated);
        self.lemma_tells_nothing(self, input);
        self.state.lemma_positions();
        lemma_id_at_held(self.state.log, since);
        if let Some(at) = id_at(self.state.log, since) {
            let c1 = CommandView::DeleteConflictLog { since: at };
            let cut = LocalView {
                state: RaftStateView { log: cut_at(self.state.log, since), ..self.state },
                output: self.output.push(c1),
            };
            self.lemma_tells_one(cut, c1, input);
            if self.state.membership.is_cut(since) {
                let membership = self.state.membership.cut(since);
                let c2 = CommandView::UpdateMembership { membership: membership.effective };
                let told = LocalView {
                    state: RaftStateView { membership, ..cut.state },
                    output: cut.output.push(c2),
                };
                cut.lemma_tells_one(told, c2, input);
                self.lemma_tells_on(cut, told, input);
                told.lemma_role_told(id, input);
                self.lemma_tells_on(told, told.role_updated(id), input);
            }
        }
    }

    proof fn lemma_appended_told(self, id: NID, entries: Seq<EntryView<NID, M>>, since: int)
        requires
            0 <= since < entries.len(),
            is_log(self.state.log + ids_of(entries).skip(since)),
        ensures
            self.tells(self.appended(id, entries, since), ids_of(entries)),
    {
        reveal(LocalView::appended);
        let input = ids_of(entries);
        let n = entries.len() as int;
        let c1 = CommandView::AppendInputEntries { from: since, to: n };
        let a = LocalView {
            state: RaftStateView { log: self.state.log + input.skip(since), ..self.state },
            output: self.output.push(c1),
        };
        assert(input.subrange(since, n) =~= input.skip(since));
        self.lemma_tells_one(a, c1, input);
        let ms = memberships_in(entries.skip(since));
        let b = a.memberships_received(id, ms);
        a.lemma_tells_nothing(a, input);
        if ms.len() > 0 {
            let c2 = CommandView::UpdateMembership { membership: ms.last() };
            let m = LocalView {
                state: RaftStateView { membership: a.state.membership.received(ms), ..a.state },
                output: a.output.push(c2),
            };
            a.lemma_tells_one(m, c2, input);
            m.lemma_role_told(id, input);
            a.lemma_tells_on(m, b, input);
        }
        self.lemma_tells_on(a, b, input);
        let after = self.appended(id, entries, since);
        b.lemma_tells_one(after, CommandView::MoveInputCursorBy { n }, input);
        self.lemma_tells_on(b, after, input);
    }

    proof fn lemma_follower_committed_told(
        self,
        leader_committed: Option<LogId<NID>>,
        prev: Option<LogId<NID>>,
        ids: Seq<LogId<NID>>,
        input: Seq<LogId<NID>>,
    )
        requires
            self.state.valid(),
            self.follower_committed(leader_committed, prev, ids).state.valid(),
        ensures
            self.tells(self.follower_committed(leader_committed, prev, ids), input),
    {
        let after = self.follower_committed(leader_committed, prev, ids);
        match earlier(leader_committed, later(last_of(ids), prev)) {
            Some(upto) if opt_precedes(self.state.committed, Some(upto)) => {
                after.state.lemma_positions();
                self.state.lemma_committed(upto);
                self.lemma_tells_one(
                    after,
                    CommandView::FollowerCommit { already_committed: self.state.committed, upto },
                    input,
                );
            },
            _ => {
                self.lemma_tells_nothing(after, input);
            },
        }
    }

    proof fn lemma_vote_told(self, vote: Vote<NID>, input: Seq<LogId<NID>>)
        requires
            self.state.vote.precedes(vote),
        ensures
            self.tells(
                LocalView {
                    state: RaftStateView { vote, ..self.state },
                    output: self.output.push(CommandView::SaveVote { vote }),
                },
                input,
            ),
    {
        lemma_vote_order_is_total(self.state.vote, vote);
        self.lemma_tells_one(
            LocalView {
                state: RaftStateView { vote, ..self.state },
                output: self.output.push(CommandView::SaveVote { vote }),
            },
            CommandView::SaveVote { vote },
            input,
        );
    }

    proof fn lemma_purged_told(self, input: Seq<LogId<NID>>)
        requires
            self.state.valid(),
        ensures
            self.tells(self.purged(), input),
    {
        self.state.lemma_positions();
        match self.state.purge_upto {
            Some(p) if opt_precedes(self.state.last_purged(), Some(p)) => {
                self.lemma_tells_one(self.purged(), CommandView::PurgeLog { upto: p }, input);
            },
            _ => {
                self.lemma_tells_nothing(self.purged(), input);
            },
        }
    }
}

impl<NID: NodeId, M> EngineView<NID, M> {
    proof fn lemma_took_side_told(self, input: Seq<LogId<NID>>)
        ensures
            self.local.tells(self.took_side().local, input),
            self.local.tells(self.became_following().local, input),
    {
        self.local.lemma_role_told(self.config.id, input);
        let c = CommandView::InstallElectionTimer {
            can_be_leader: !self.local.state.vote.committed,
        };
        let waiting = LocalView { output: self.local.output.push(c), ..self.local };
        self.local.lemma_tells_one(waiting, c, input);
        waiting.lemma_role_told(self.config.id, input);
        self.local.lemma_tells_on(waiting, waiting.role_updated(self.config.id), input);
    }

    proof fn lemma_saw_vote_told(self, vote: Vote<NID>, input: Seq<LogId<NID>>)
        ensures
            self.local.tells(self.saw_vote(vote).local, input),
    {
        if self.local.state.vote.precedes(vote) {
            let e = EngineView {
                local: LocalView {
                    state: RaftStateView { vote, ..self.local.state },
                    output: self.local.output.push(CommandView::SaveVote { vote }),
                },
                ..self
            };
            self.local.lemma_vote_told(vote, input);
            e.lemma_took_side_told(input);
            self.local.lemma_tells_on(e.local, e.took_side().local, input);
        } else {
            self.lemma_took_side_told(input);
        }
    }

    proof fn lemma_leader_established_told(self, input: Seq<LogId<NID>>)
        requires
            self.valid(),
            self.local.state.is_leading(self.config.id),
            next_index(self.local.state.last_log_id()) < u64::MAX,
        ensures
            self.local.tells(self.leader_established().local, input),
    {
        reveal(EngineView::leader_established);
        let vote = self.local.state.vote.granted();
        lemma_vote_order_is_total(self.local.state.vote, vote);
        self.lemma_saw_vote(vote);
        self.lemma_saw_vote_told(vote, input);
        let l = self.saw_vote(vote).leading();
        let a = l.streams_rebuilt(self.config);
        let b = a.blank_appended(self.config);
        let c = b.replication_initiated(self.config);
        l.lemma_streams_rebuilt(self.config);
        l.lemma_streams_rebuilt_told(self.config, input);
        a.lemma_blank_appended_told(self.config, input);
        b.lemma_replication_initiated_told(self.config, input);
        self.local.lemma_tells_on(l.local, a.local, input);
        self.local.lemma_tells_on(a.local, b.local, input);
        self.local.lemma_tells_on(b.local, c.local, input);
    }

    proof fn lemma_elected_told(self, input: Seq<LogId<NID>>)
        requires
            self.valid(),
            self.can_stand(),
        ensures
            self.local.tells(self.elected().local, input),
    {
        reveal(EngineView::elected);
        let vote = Vote {
            term: (self.local.state.vote.term + 1) as u64,
            node_id: self.config.id,
            committed: false,
        };
        self.lemma_saw_vote(vote);
        self.lemma_saw_vote_told(vote, input);
        let e = self.stood();
        assert(e.local == self.saw_vote(vote).local);
        if (e.leader->0).is_granted() {
            e.lemma_leader_established_told(input);
            self.local.lemma_tells_on(e.local, e.leader_established().local, input);
        } else {
            let c1 = CommandView::SendVote {
                vote_req: VoteRequest {
                    vote: e.local.state.vote,
                    last_log_id: e.local.state.last_log_id(),
                },
            };
            let c2 = CommandView::InstallElectionTimer { can_be_leader: true };
            let asked = e.commanded(c1);
            let roled = asked.local.role_updated(self.config.id);
            e.local.lemma_tells_one(asked.local, c1, input);
            self.local.lemma_tells_on(e.local, asked.local, input);
            asked.local.lemma_role_told(self.config.id, input);
            self.local.lemma_tells_on(asked.local, roled, input);
            roled.lemma_tells_one(self.elected().local, c2, input);
            self.local.lemma_tells_on(roled, self.elected().local, input);
        }
    }

    proof fn lemma_entries_taken_told(self, n: int)
        requires
            self.valid(),
            0 <= n,
            next_index(self.local.state.last_log_id()) + n <= u64::MAX,
        ensures
            self.local.tells(
                self.entries_taken(self.local.state.next_ids(n)).local,
                self.local.state.next_ids(n),
            ),
    {
        let ids = self.local.state.next_ids(n);
        self.lemma_entries_taken(n);
        let after = self.entries_taken(ids);
        after.local.state.lemma_positions();
        assert(ids.subrange(0, n) =~= ids);
        self.local.lemma_tells_one(
            after.local,
            CommandView::AppendInputEntries { from: 0, to: n },
            ids,
        );
    }

    proof fn lemma_initialize_told(self, membership: Option<MembershipView<NID, M>>)
        requires
            self.valid(),
        ensures
            self.local.tells(
                self.initialize_tried(membership).local,
                self.input(Event::Initialize { membership }),
            ),
    {
        let input = self.input(Event::Initialize { membership });
        self.local.lemma_tells_nothing(self.local, input);
        let s = self.local.state;
        if s.is_pristine() {
            let id = s.next_ids(1)[0];
            assert(s.next_ids(1) =~= seq![id]);
            self.lemma_entries_taken(1);
            self.lemma_entries_taken_told(1);
            let e = self.entries_taken(seq![id]);
            if let Some(m) = membership {
                let em = EffectiveMembershipView { log_id: Some(id), membership: m };
                let c1 = CommandView::UpdateMembership { membership: em };
                let in_force = EngineView {
                    local: LocalView {
                        state: RaftStateView {
                            membership: e.local.state.membership.appended(em),
                            ..e.local.state
                        },
                        ..e.local
                    },
                    ..e
                }.commanded(c1);
                e.local.lemma_tells_one(in_force.local, c1, input);
                self.local.lemma_tells_on(e.local, in_force.local, input);
                let r = in_force.local.role_updated(self.config.id);
                in_force.local.lemma_role_told(self.config.id, input);
                self.local.lemma_tells_on(in_force.local, r, input);
                let c2 = CommandView::MoveInputCursorBy { n: 1 };
                let ready = EngineView { local: r, ..in_force }.commanded(c2);
                r.lemma_tells_one(ready.local, c2, input);
                self.local.lemma_tells_on(r, ready.local, input);
                assert(ready.valid());
                assert(ready.local.state.log =~= seq![id]);
                ready.lemma_elected_told(input);
                self.local.lemma_tells_on(ready.local, ready.elected().local, input);
            }
        }
    }

    proof fn lemma_vote_answered_told(
        self,
        target: NID,
        resp: VoteResponse<NID>,
        input: Seq<LogId<NID>>,
    )
        requires
            self.valid(),
            self.takes_answer(target, resp),
        ensures
            self.local.tells(self.vote_answered(target, resp).local, input),
    {
        self.local.lemma_tells_nothing(self.local, input);
        let s = self.local.state;
        if let Some(l) = self.leader {
            if resp.vote_granted {
                let e = EngineView { leader: Some(l.granted(target)), ..self };
                if l.granted(target).is_granted() {
                    e.lemma_leader_established_told(input);
                }
            } else {
                let e = if s.vote.precedes(resp.vote) {
                    EngineView {
                        local: LocalView {
                            state: RaftStateView { vote: resp.vote, ..s },
                            ..self.local
                        },
                        ..self
                    }.commanded(CommandView::SaveVote { vote: resp.vote })
                } else {
                    self
                };
                if s.vote.precedes(resp.vote) {
                    self.local.lemma_vote_told(resp.vote, input);
                }
                let c = CommandView::InstallElectionTimer {
                    can_be_leader: !opt_precedes(s.last_log_id(), resp.last_log_id),
                };
                e.local.lemma_tells_one(e.commanded(c).local, c, input);
                self.local.lemma_tells_on(e.local, e.commanded(c).local, input);
            }
        }
    }

    proof fn lemma_proposed_told(self, memberships: Seq<Option<MembershipView<NID, M>>>)
        requires
            self.valid(),
            self.can_propose(memberships.len() as int),
        ensures
            self.local.tells(
                self.entries_appended(self.proposed(memberships)).local,
                self.input(Event::Propose { memberships }),
            ),
    {
        let input = self.input(Event::Propose { memberships });
        self.local.lemma_tells_nothing(self.local, input);
        let n = memberships.len() as int;
        if n > 0 {
            let s = self.local.state;
            let entries = self.proposed(memberships);
            let ids = s.next_ids(n);
            assert(ids_of(entries) =~= ids);
            self.lemma_entries_taken(n);
            self.lemma_entries_taken_told(n);
            let e = self.entries_taken(ids);
            let l = e.leading();
            let a = l.absorbed(self.config, entries, n);
            let last = Some(entries.last().log_id);
            l.lemma_absorbed_leads(self.config, entries, n);
            l.lemma_absorbed_told(self.config, entries, n, input);
            l.lemma_absorbed_log(self.config, entries, n);
            self.local.lemma_tells_on(l.local, a.local, input);
            a.local.state.lemma_positions();
            assert(a.local.state.log.last() == ids.last());
            lemma_last_held(a.local.state.log);
            let b = a.local_progressed(self.config, last);
            a.lemma_local_progressed_told(self.config, last, input);
            self.local.lemma_tells_on(a.local, b.local, input);
            let c = b.replication_initiated(self.config);
            b.lemma_replication_initiated_told(self.config, input);
            self.local.lemma_tells_on(b.local, c.local, input);
            let moved = e.led(c).commanded(CommandView::MoveInputCursorBy { n });
            c.local.lemma_tells_one(moved.local, CommandView::MoveInputCursorBy { n }, input);
            self.local.lemma_tells_on(c.local, moved.local, input);
        }
    }

    proof fn lemma_entries_received_told(
        self,
        vote: Vote<NID>,
        prev: Option<LogId<NID>>,
        entries: Seq<EntryView<NID, M>>,
        leader_committed: Option<LogId<NID>>,
    )
        requires
            self.valid(),
            self.trusts_request(vote, prev, ids_of(entries), leader_committed),
        ensures
            self.local.tells(
                self.entries_received(vote, prev, entries, leader_committed).local,
                ids_of(entries),
            ),
    {
        let id = self.config.id;
        let ids = ids_of(entries);
        self.local.lemma_tells_nothing(self.local, ids);
        self.lemma_saw_vote(vote);
        self.lemma_saw_vote_told(vote, ids);
        lemma_vote_order_is_total(vote, self.local.state.vote);
        let e = self.saw_vote(vote);
        let s = e.local.state;
        if !vote.precedes(self.local.state.vote) {
            if !self.follows_from(vote, prev) {
                let at = prev->0.index as int;
                e.local.lemma_truncated_told(id, at, ids);
                self.local.lemma_tells_on(e.local, e.local.truncated(id, at), ids);
            } else {
                let since = s.first_missing(ids, 0);
                s.lemma_first_missing(ids, 0);
                e.local.lemma_stored(id, vote, prev, entries, leader_committed);
                let stored = if since < ids.len() {
                    let at = ids[since].index as int;
                    let cut = e.local.truncated(id, at);
                    e.local.lemma_truncated_told(id, at, ids);
                    e.local.lemma_truncated(id, at);
                    s.lemma_log_after(prev, ids, ids[0]);
                    cut.lemma_appended_told(id, entries, since);
                    self.local.lemma_tells_on(e.local, cut, ids);
                    self.local.lemma_tells_on(cut, cut.appended(id, entries, since), ids);
                    cut.appended(id, entries, since)
                } else {
                    e.local
                };
                let after = stored.follower_committed(leader_committed, prev, ids);
                stored.lemma_follower_committed(s, vote, prev, ids, leader_committed);
                stored.lemma_follower_committed_told(leader_committed, prev, ids, ids);
                self.local.lemma_tells_on(stored, after, ids);
            }
        }
    }

    proof fn lemma_snapshot_told(self, meta: SnapshotView<NID, M>, input: Seq<LogId<NID>>)
        requires
            self.valid(),
            self.trusts_snapshot(meta),
        ensures
            self.local.tells(self.snapshot_finished(meta).local, input),
    {
        self.local.lemma_tells_nothing(self.local, input);
        if self.local.is_newer_snapshot(meta) {
            self.local.lemma_snapshot_planned(meta, self.config);
            let taken = self.local.snapshot_updated(meta);
            let planned = LocalView { state: taken.state.purge_planned(self.config), ..taken };
            self.local.lemma_tells_nothing(planned, input);
            planned.lemma_purged_told(input);
            self.local.lemma_tells_on(planned, planned.purged(), input);
        }
    }

    proof fn lemma_startup_told(self, input: Seq<LogId<NID>>)
        ensures
            self.local.tells(self.started_up().local, input),
    {
        if self.local.state.is_leader(self.config.id) {
            self.lemma_took_side_told(input);
            let l = self.took_side().leading();
            let a = l.streams_rebuilt(self.config);
            let b = a.replication_initiated(self.config);
            l.lemma_streams_rebuilt_told(self.config, input);
            a.lemma_replication_initiated_told(self.config, input);
            self.local.lemma_tells_on(l.local, a.local, input);
            self.local.lemma_tells_on(a.local, b.local, input);
        } else {
            self.local.lemma_tells_nothing(self.started_up().local, input);
        }
    }

    /// The ids of the entries that come with an event. Entries that are proposed here get
    /// their ids here.
    pub open spec fn input(self, event: Event<NID, M>) -> Seq<LogId<NID>> {
        match event {
            Event::Initialize { membership } => self.local.state.next_ids(1),
            Event::Propose { memberships } => self.local.state.next_ids(memberships.len() as int),
            Event::AppendReq { vote, prev, entries, leader_committed } => ids_of(entries),
            _ => Seq::empty(),
        }
    }

    /// The engine tells the runtime everything: a runtime that is up to date before an event,
    /// and executes the commands that the event has queued one after the other, is up to date
    /// afterwards. And each command can be executed when its turn comes: no vote is replaced
    /// by a lesser one, entries continue the log, only entries in the log are applied, each
    /// once and in order, no applied entry is deleted as conflicting, and only applied ones
    /// are purged.
    pub proof fn law_commands_tell_everything(self, event: Event<NID, M>)
        requires
            self.valid(),
            self.admits(event),
        ensures
            ({
                let before = self.local.output.commands;
                let after = self.after(event).local;
                let queued = after.output.commands.skip(before.len() as int);
                &&& after.output.commands == before + queued
                &&& self.local.state.stored().all_executed(queued, self.input(event)) == Some(
                    after.state.stored(),
                )
            }),
    {
        let input = self.input(event);
        reveal(EngineView::after);
        match event {
            Event::Startup => {
                self.lemma_startup_told(input);
            },
            Event::Initialize { membership } => {
                self.lemma_initialize_told(membership);
            },
            Event::Elect => {
                self.lemma_elected_told(input);
            },
            Event::VoteReq { req } => {
                self.local.lemma_tells_nothing(self.local, input);
                self.lemma_saw_vote_told(req.vote, input);
            },
            Event::VoteResp { target, resp } => {
                self.lemma_vote_answered_told(target, resp, input);
            },
            Event::Propose { memberships } => {
                self.lemma_proposed_told(memberships);
            },
            Event::AppendReq { vote, prev, entries, leader_committed } => {
                self.lemma_entries_received_told(vote, prev, entries, leader_committed);
            },
            Event::StepDown => {
                self.local.lemma_tells_nothing(self.local, input);
                self.lemma_took_side_told(input);
            },
            Event::Snapshot { meta } => {
                self.lemma_snapshot_told(meta, input);
            },
        }
        assert(self.local.tells(self.after(event).local, input));
        reveal(LocalView::tells);
        let before = self.local.output.commands;
        let now = self.after(event).local.output.commands;
        let n = before.len() as int;
        assert(now =~= now.take(n) + now.skip(n));
    }
}

} // verus!
