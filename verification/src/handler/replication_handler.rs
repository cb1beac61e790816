//! What a leader does: keeps track of its peers, sends to them, and commits.

use crate::command::{lemma_push_all_in_parts, Command, CommandView, EngineOutput};
use crate::config::EngineConfig;
use crate::handler::log_handler::LogHandler;
use crate::leader::{Leader, LeaderView};
use crate::log_id::{index_after, next_index, opt_is_before, opt_precedes, LogId};
use crate::membership::{EffectiveMembership, EffectiveMembershipView, Membership, MembershipView};
use crate::node::{same_id, Node, NodeId};
use crate::progress::{others, Inflight, ProgressEntry, ProgressView};
use crate::raft_state::{RaftState, RaftStateView};
use crate::view::{leading_view, LeadingView, LocalView};
use vstd::prelude::*;

verus! {

/// A record after its node was sent what it needs next, unless something is on its way.
pub open spec fn sent<NID: NodeId, M>(
    e: ProgressEntry<NID>,
    state: RaftStateView<NID, M>,
    max_entries: int,
) -> ProgressEntry<NID> {
    if e.inflight is Idle {
        ProgressEntry { inflight: e.next_request(state, max_entries), ..e }
    } else {
        e
    }
}

/// The records after every node but `id` was sent what it needs next.
pub open spec fn all_sent<NID: NodeId, M>(
    entries: Seq<(NID, ProgressEntry<NID>)>,
    id: NID,
    state: RaftStateView<NID, M>,
    max_entries: int,
) -> Seq<(NID, ProgressEntry<NID>)> {
    Seq::new(
        entries.len(),
        |i: int|
            if entries[i].0 == id {
                entries[i]
            } else {
                (entries[i].0, sent(entries[i].1, state, max_entries))
            },
    )
}

/// The commands that send to every node but `id` what it needs next.
pub open spec fn requests<NID: NodeId, M>(
    entries: Seq<(NID, ProgressEntry<NID>)>,
    id: NID,
    state: RaftStateView<NID, M>,
    max_entries: int,
) -> Seq<CommandView<NID, M>>
    decreases entries.len(),
{
    if entries.len() == 0 {
        Seq::empty()
    } else {
        let before = requests(entries.drop_last(), id, state, max_entries);
        let (target, e) = entries.last();
        let req = e.next_request(state, max_entries);
        if target == id || e.inflight !is Idle || req is Idle {
            before
        } else {
            before.push(CommandView::Replicate { target, req })
        }
    }
}

/// All positions are small enough to have a next index.
pub open spec fn bounded<NID>(entries: Seq<(NID, ProgressEntry<NID>)>) -> bool {
    forall|i: int| 0 <= i < entries.len() ==> next_index((#[trigger] entries[i]).1.matching) <= u64::MAX
}

/// The entries up to `upto` are being sent to some node.
pub open spec fn some_use<NID: NodeId>(
    entries: Seq<(NID, ProgressEntry<NID>)>,
    upto: LogId<NID>,
) -> bool {
    exists|i: int| 0 <= i < entries.len() && (#[trigger] entries[i]).1.uses_log(upto)
}

impl<NID: NodeId> ProgressView<NID> {
    /// The entries up to `upto` are being sent to some node.
    pub open spec fn uses_log(self, upto: LogId<NID>) -> bool {
        some_use(self.voters, upto) || some_use(self.learners, upto)
    }
}

impl<NID: NodeId, M> LeadingView<NID, M> {
    /// All positions are small enough to have a next index.
    pub open spec fn bounded(self) -> bool {
        &&& next_index(self.local.state.last_log_id()) <= u64::MAX
        &&& next_index(self.local.state.purge_upto) <= u64::MAX
        &&& bounded(self.leader.progress.voters)
        &&& bounded(self.leader.progress.learners)
    }

    /// Replication starts over to every other member and to no other node.
    #[verifier::opaque]
    pub open spec fn streams_rebuilt(self, config: EngineConfig<NID>) -> Self {
        let progress = self.leader.progress.stopped(config.id);
        LeadingView {
            leader: LeaderView { progress, ..self.leader },
            local: LocalView {
                output: self.local.output.push(
                    CommandView::RebuildReplicationStreams {
                        targets: others(progress.voters, config.id) + others(
                            progress.learners,
                            config.id,
                        ),
                    },
                ),
                ..self.local
            },
        }
    }

    /// Every other member was sent what it needs next, unless something is on its way to it.
    #[verifier::opaque]
    pub open spec fn replication_initiated(self, config: EngineConfig<NID>) -> Self {
        let p = self.leader.progress;
        let max = config.max_payload_entries as int;
        let s = self.local.state;
        LeadingView {
            leader: LeaderView {
                progress: ProgressView {
                    configs: p.configs,
                    voters: all_sent(p.voters, config.id, s, max),
                    learners: all_sent(p.learners, config.id, s, max),
                },
                ..self.leader
            },
            local: LocalView {
                output: self.local.output.push_all(
                    requests(p.voters, config.id, s, max) + requests(
                        p.learners,
                        config.id,
                        s,
                        max,
                    ),
                ),
                ..self.local
            },
        }
    }

    /// What a quorum has accepted is committed, if it is from this leader and further than
    /// what was committed before.
    #[verifier::opaque]
    pub open spec fn accepted_committed(self) -> Self {
        let s = self.local.state;
        match self.leader.progress.quorum_accepted() {
            Some(upto) if upto.leader_id == s.vote.leader() && opt_precedes(
                s.committed,
                Some(upto),
            ) => LeadingView {
                local: LocalView {
                    state: s.committed_to(Some(upto)),
                    output: self.local.output.push(
                        CommandView::ReplicateCommitted { committed: Some(upto) },
                    ).push(CommandView::LeaderCommit { already_committed: s.committed, upto }),
                },
                ..self
            },
            _ => self,
        }
    }

    /// The log of this node is stored up to `upto`, and what a quorum has thereby accepted is
    /// committed. Nothing happens if this is no news, or if this node is no member.
    #[verifier::opaque]
    pub open spec fn local_progressed(
        self,
        config: EngineConfig<NID>,
        upto: Option<LogId<NID>>,
    ) -> Self {
        match (upto, self.leader.progress.entry(config.id)) {
            (Some(u), Some(e)) if opt_precedes(e.matching, upto) => LeadingView {
                leader: LeaderView {
                    progress: self.leader.progress.with(config.id, e.matched(u)),
                    ..self.leader
                },
                ..self
            }.accepted_committed(),
            _ => self,
        }
    }

    /// The id of the next entry of this leader.
    pub open spec fn next_log_id(self) -> LogId<NID> {
        LogId {
            leader_id: self.local.state.vote.leader(),
            index: next_index(self.local.state.last_log_id()) as u64,
        }
    }

    /// An entry without content is appended.
    #[verifier::opaque]
    pub open spec fn blank_appended(self, config: EngineConfig<NID>) -> Self {
        let log_id = self.next_log_id();
        LeadingView {
            local: LocalView {
                state: RaftStateView {
                    log: self.local.state.log.push(log_id),
                    ..self.local.state
                },
                output: self.local.output.push(CommandView::AppendBlankLog { log_id }),
            },
            ..self
        }.local_progressed(config, Some(log_id))
    }

    /// A membership comes into force: from now on its voters make up a quorum, and
    /// replication goes to its members.
    #[verifier::opaque]
    pub open spec fn membership_appended(
        self,
        config: EngineConfig<NID>,
        log_id: LogId<NID>,
        m: MembershipView<NID, M>,
    ) -> Self {
        let em = EffectiveMembershipView { log_id: Some(log_id), membership: m };
        LeadingView {
            leader: LeaderView {
                progress: self.leader.progress.for_membership(
                    m,
                    ProgressEntry::unknown(next_index(self.local.state.last_log_id())),
                ),
                ..self.leader
            },
            local: LocalView {
                state: RaftStateView {
                    membership: self.local.state.membership.appended(em),
                    ..self.local.state
                },
                output: self.local.output.push(CommandView::UpdateMembership { membership: em }),
            },
        }.streams_rebuilt(config).replication_initiated(config)
    }

    /// The log is purged as far as planned, unless entries that are to go are being sent.
    pub open spec fn purged_if_unused(self) -> Self {
        match self.local.state.purge_upto {
            Some(p) if !self.leader.progress.uses_log(p) => LeadingView {
                local: self.local.purged(),
                ..self
            },
            _ => self,
        }
    }
}

/// What a leader does: keeps track of its peers, sends to them, and commits.
pub struct ReplicationHandler<'x, NID: NodeId, N: Node> {
    pub config: &'x EngineConfig<NID>,
    pub leader: &'x mut Leader<NID>,
    pub state: &'x mut RaftState<NID, N>,
    pub output: &'x mut EngineOutput<NID, N>,
}

impl<'x, NID: NodeId, N: Node> ReplicationHandler<'x, NID, N> {
    /// The view of the borrowed fields.
    pub open spec fn view(&self) -> LeadingView<NID, N::V> {
        leading_view(*self.state, *self.output, *self.leader)
    }

    /// Starts replication over to every other member.
    pub fn rebuild_replication_streams(&mut self)
        ensures
            final(self)@ == old(self)@.streams_rebuilt(*old(self).config),
            *final(self).config == *old(self).config,
            *final(final(self).leader) == *final(old(self).leader),
            *final(final(self).state) == *final(old(self).state),
            *final(final(self).output) == *final(old(self).output),
    {
        proof {
            reveal(LeadingView::streams_rebuilt);
        }
        self.leader.progress.stop(&self.config.id);
        let targets = self.leader.progress.targets(&self.config.id);
        self.output.push_command(Command::RebuildReplicationStreams { targets });
    }

    /// Sends to every other member what it needs next, unless something is on its way to it.
    pub fn initiate_replication(&mut self)
        requires
            old(self)@.bounded(),
        ensures
            final(self)@ == old(self)@.replication_initiated(*old(self).config),
            *final(self).config == *old(self).config,
            *final(final(self).leader) == *final(old(self).leader),
            *final(final(self).state) == *final(old(self).state),
            *final(final(self).output) == *final(old(self).output),
    {
        proof {
            reveal(LeadingView::replication_initiated);
        }
        let ghost p = self.leader.progress@;
        let ghost s = self.state@;
        let ghost o = self.output@;
        send_to_all(&mut self.leader.progress.voters, self.config, &*self.state, &mut *self.output);
        send_to_all(
            &mut self.leader.progress.learners,
            self.config,
            &*self.state,
            &mut *self.output,
        );
        proof {
            let max = self.config.max_payload_entries as int;
            lemma_push_all_in_parts(
                o,
                requests(p.voters, self.config.id, s, max),
                requests(p.learners, self.config.id, s, max),
            );
        }
    }

    /// Appends an entry without content.
    pub fn append_blank_log(&mut self)
        requires
            next_index(old(self)@.local.state.last_log_id()) < u64::MAX,
        ensures
            final(self)@ == old(self)@.blank_appended(*old(self).config),
            *final(self).config == *old(self).config,
            *final(final(self).leader) == *final(old(self).leader),
            *final(final(self).state) == *final(old(self).state),
            *final(final(self).output) == *final(old(self).output),
    {
        proof {
            reveal(LeadingView::blank_appended);
        }
        let last = self.state.last_log_id();
        let log_id = LogId::new(self.state.vote.leader_id(), index_after(&last));
        self.state.log_ids.append(log_id);
        self.output.push_command(Command::AppendBlankLog { log_id });
        self.update_local_progress(Some(log_id));
    }

    /// Takes note that the log of this node is stored up to `upto`, and commits what a quorum
    /// has thereby accepted.
    pub fn update_local_progress(&mut self, upto: Option<LogId<NID>>)
        requires
            next_index(upto) <= u64::MAX,
        ensures
            final(self)@ == old(self)@.local_progressed(*old(self).config, upto),
            *final(self).config == *old(self).config,
            *final(final(self).leader) == *final(old(self).leader),
            *final(final(self).state) == *final(old(self).state),
            *final(final(self).output) == *final(old(self).output),
    {
        proof {
            reveal(LeadingView::local_progressed);
        }
        match (upto, self.leader.progress.get(&self.config.id)) {
            (Some(u), Some(e)) => {
                if opt_is_before(&e.matching, &upto) {
                    let searching_end: u64 = if e.searching_end > u.index {
                        e.searching_end
                    } else {
                        u.index + 1
                    };
                    self.leader.progress.set(
                        &self.config.id,
                        ProgressEntry { matching: upto, inflight: Inflight::Idle, searching_end },
                    );
                    self.try_commit_quorum_accepted();
                }
            },
            _ => {},
        }
    }

    /// Commits what a quorum has accepted, if it is from this leader and further than what
    /// was committed before.
    pub fn try_commit_quorum_accepted(&mut self)
        ensures
            final(self)@ == old(self)@.accepted_committed(),
            *final(self).config == *old(self).config,
            *final(final(self).leader) == *final(old(self).leader),
            *final(final(self).state) == *final(old(self).state),
            *final(final(self).output) == *final(old(self).output),
    {
        proof {
            reveal(LeadingView::accepted_committed);
        }
        let accepted = self.leader.progress.quorum_accepted();
        match accepted {
            Some(upto) => {
                if upto.leader_id.is_same(&self.state.vote.leader_id()) {
                    match self.state.update_committed(&accepted) {
                        Some(already_committed) => {
                            self.output.push_command(
                                Command::ReplicateCommitted { committed: accepted },
                            );
                            self.output.push_command(
                                Command::LeaderCommit { already_committed, upto },
                            );
                        },
                        None => {},
                    }
                }
            },
            None => {},
        }
    }

    /// Puts a membership into force.
    pub fn append_membership(&mut self, log_id: &LogId<NID>, m: &Membership<NID, N>)
        requires
            old(self)@.bounded(),
        ensures
            final(self)@ == old(self)@.membership_appended(*old(self).config, *log_id, m@),
            *final(self).config == *old(self).config,
            *final(final(self).leader) == *final(old(self).leader),
            *final(final(self).state) == *final(old(self).state),
            *final(final(self).output) == *final(old(self).output),
    {
        proof {
            reveal(LeadingView::membership_appended);
            reveal(LeadingView::streams_rebuilt);
        }
        let em = EffectiveMembership::new(Some(*log_id), m.clone());
        self.output.push_command(Command::UpdateMembership { membership: em.clone() });
        self.state.membership_state.append(em);
        let end = index_after(&self.state.last_log_id());
        self.leader.progress = self.leader.progress.upgrade(m, ProgressEntry::empty(end));
        proof {
            lemma_upgrade_bounded(old(self)@.leader.progress, m@, ProgressEntry::unknown(end as int));
        }
        self.rebuild_replication_streams();
        self.initiate_replication();
    }

    /// Purges the log as far as planned, unless entries that are to go are being sent.
    pub fn try_purge_log(&mut self)
        requires
            next_index(old(self)@.local.state.purge_upto) <= u64::MAX,
        ensures
            final(self)@ == old(self)@.purged_if_unused(),
            *final(self).config == *old(self).config,
            *final(final(self).leader) == *final(old(self).leader),
            *final(final(self).state) == *final(old(self).state),
            *final(final(self).output) == *final(old(self).output),
    {
        match self.state.purge_upto {
            Some(upto) => {
                if is_used(&self.leader.progress.voters, &upto) || is_used(
                    &self.leader.progress.learners,
                    &upto,
                ) {
                    return;
                }
                let mut h = LogHandler {
                    config: self.config,
                    state: &mut *self.state,
                    output: &mut *self.output,
                };
                h.purge_log();
            },
            None => {},
        }
    }
}

proof fn lemma_entry_bounded<NID>(entries: Seq<(NID, ProgressEntry<NID>)>, id: NID)
    requires
        bounded(entries),
    ensures
        crate::progress::entry_of(entries, id) matches Some(e) ==> next_index(e.matching)
            <= u64::MAX,
    decreases entries.len(),
{
    if entries.len() > 0 {
        assert(bounded(entries.drop_last()));
        lemma_entry_bounded(entries.drop_last(), id);
    }
}

proof fn lemma_upgrade_bounded<NID: NodeId, M>(
    p: ProgressView<NID>,
    m: MembershipView<NID, M>,
    default: ProgressEntry<NID>,
)
    requires
        bounded(p.voters),
        bounded(p.learners),
        default.matching is None,
    ensures
        bounded(p.for_membership(m, default).voters),
        bounded(p.for_membership(m, default).learners),
{
    assert forall|id: NID| (#[trigger] p.entry(id)) is Some implies next_index(
        p.entry(id)->0.matching,
    ) <= u64::MAX by {
        lemma_entry_bounded(p.voters, id);
        lemma_entry_bounded(p.learners, id);
    }
}

fn is_used<NID: NodeId>(entries: &Vec<(NID, ProgressEntry<NID>)>, upto: &LogId<NID>) -> (r: bool)
    ensures
        r == some_use(entries@, *upto),
{
    let mut i: usize = 0;
    while i < entries.len()
        invariant
            i <= entries@.len(),
            forall|k: int| 0 <= k < i ==> !(#[trigger] entries@[k]).1.uses_log(*upto),
        decreases entries@.len() - i,
    {
        if entries[i].1.is_log_range_inflight(upto) {
            assert(entries@[i as int].1.uses_log(*upto));
            return true;
        }
        i += 1;
    }
    false
}

fn send_to_all<NID: NodeId, N: Node>(
    entries: &mut Vec<(NID, ProgressEntry<NID>)>,
    config: &EngineConfig<NID>,
    state: &RaftState<NID, N>,
    output: &mut EngineOutput<NID, N>,
)
    requires
        next_index(state@.last_log_id()) <= u64::MAX,
        next_index(state@.purge_upto) <= u64::MAX,
        bounded(old(entries)@),
    ensures
        final(entries)@ == all_sent(
            old(entries)@,
            config.id,
            state@,
            config.max_payload_entries as int,
        ),
        final(output)@ == old(output)@.push_all(
            requests(old(entries)@, config.id, state@, config.max_payload_entries as int),
        ),
{
    let max = config.max_payload_entries;
    let ghost before = entries@;
    let ghost after = all_sent(before, config.id, state@, max as int);
    let mut i: usize = 0;
    while i < entries.len()
        invariant
            i <= entries@.len(),
            entries@.len() == before.len(),
            max == config.max_payload_entries,
            after == all_sent(before, config.id, state@, max as int),
            next_index(state@.last_log_id()) <= u64::MAX,
            next_index(state@.purge_upto) <= u64::MAX,
            bounded(before),
            forall|k: int| 0 <= k < i ==> #[trigger] entries@[k] == after[k],
            forall|k: int| i <= k < entries@.len() ==> #[trigger] entries@[k] == before[k],
            output@ == old(output)@.push_all(
                requests(before.take(i as int), config.id, state@, max as int),
            ),
        decreases entries@.len() - i,
    {
        let (target, e) = entries[i];
        let ghost longer = before.take(i + 1);
        assert(longer.drop_last() =~= before.take(i as int));
        assert(longer.last() == before[i as int]);
        let ghost reqs = requests(before.take(i as int), config.id, state@, max as int);
        let idle = match e.inflight {
            Inflight::Idle => true,
            _ => false,
        };
        if idle && !same_id(&target, &config.id) {
            let req = e.next_send(state, max);
            entries.set(i, (target, ProgressEntry { inflight: req, ..e }));
            match req {
                Inflight::Idle => {},
                _ => {
                    output.push_command(Command::Replicate { target, req });
                    proof {
                        let c = CommandView::<NID, N::V>::Replicate { target, req };
                        assert(reqs.push(c).drop_last() =~= reqs);
                    }
                },
            }
        }
        i += 1;
    }
    assert(before.take(i as int) =~= before);
    assert(entries@ =~= after);
}

} // verus!
