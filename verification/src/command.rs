//! The commands that the engine hands to the runtime.

use crate::log_id::LogId;
use crate::membership::{EffectiveMembership, EffectiveMembershipView};
use crate::message::VoteRequest;
use crate::node::{Node, NodeId};
use crate::progress::{copy_entries, Inflight, ProgressEntry};
use crate::vote::Vote;
use std::ops::Range;
use vstd::prelude::*;

verus! {

/// Which kinds of metrics have changed since they were last reported.
#[derive(Clone, Copy, Debug, PartialEq, Eq)]
pub struct MetricsChangeFlags {
    /// The replication to other nodes.
    pub replication: bool,
    /// What is stored on this node.
    pub local_data: bool,
    /// The membership or the part that this node plays.
    pub cluster: bool,
}

impl MetricsChangeFlags {
    /// Nothing has changed.
    pub open spec fn none() -> Self {
        MetricsChangeFlags { replication: false, local_data: false, cluster: false }
    }

    /// Notes a change of the replication to other nodes.
    pub fn set_replication_changed(&mut self)
        ensures
            *final(self) == (MetricsChangeFlags { replication: true, ..*old(self) }),
    {
        self.replication = true;
    }

    /// Notes a change of what is stored on this node.
    pub fn set_data_changed(&mut self)
        ensures
            *final(self) == (MetricsChangeFlags { local_data: true, ..*old(self) }),
    {
        self.local_data = true;
    }

    /// Notes a change of the membership or of the part that this node plays.
    pub fn set_cluster_changed(&mut self)
        ensures
            *final(self) == (MetricsChangeFlags { cluster: true, ..*old(self) }),
    {
        self.cluster = true;
    }
}

impl Default for MetricsChangeFlags {
    fn default() -> (r: Self)
        ensures
            r == MetricsChangeFlags::none(),
    {
        MetricsChangeFlags { replication: false, local_data: false, cluster: false }
    }
}

/// What the runtime has to do.
#[derive(Debug, PartialEq, Eq)]
pub enum Command<NID: NodeId, N: Node> {
    /// This node is now leader.
    BecomeLeader,
    /// This node is no longer leader.
    QuitLeader,
    /// Append a range of the entries that came with the event.
    AppendInputEntries { range: Range<usize> },
    /// Append an entry without content.
    AppendBlankLog { log_id: LogId<NID> },
    /// Tell the other nodes what is committed.
    ReplicateCommitted { committed: Option<LogId<NID>> },
    /// Apply the stored entries up to and with `upto`, and answer the clients that proposed
    /// them.
    LeaderCommit { already_committed: Option<LogId<NID>>, upto: LogId<NID> },
    /// Apply the stored entries up to and with `upto`.
    FollowerCommit { already_committed: Option<LogId<NID>>, upto: LogId<NID> },
    /// Send entries or a snapshot to a node.
    Replicate { target: NID, req: Inflight<NID> },
    /// A membership has come into force.
    UpdateMembership { membership: EffectiveMembership<NID, N> },
    /// Replicate to these nodes and to no other.
    RebuildReplicationStreams { targets: Vec<(NID, ProgressEntry<NID>)> },
    /// Step over `n` of the entries that came with the event.
    MoveInputCursorBy { n: usize },
    /// Store the vote.
    SaveVote { vote: Vote<NID> },
    /// Ask all other voters for their vote.
    SendVote { vote_req: VoteRequest<NID> },
    /// Start an election after some time, sooner if this node can become leader.
    InstallElectionTimer { can_be_leader: bool },
    /// Delete the entries up to and with `upto`.
    PurgeLog { upto: LogId<NID> },
    /// Delete the entries from `since` on.
    DeleteConflictLog { since: LogId<NID> },
}

/// The view of a command.
#[verifier::ext_equal]
#[verifier::reject_recursive_types(NID)]
pub enum CommandView<NID, M> {
    BecomeLeader,
    QuitLeader,
    AppendInputEntries { from: int, to: int },
    AppendBlankLog { log_id: LogId<NID> },
    ReplicateCommitted { committed: Option<LogId<NID>> },
    LeaderCommit { already_committed: Option<LogId<NID>>, upto: LogId<NID> },
    FollowerCommit { already_committed: Option<LogId<NID>>, upto: LogId<NID> },
    Replicate { target: NID, req: Inflight<NID> },
    UpdateMembership { membership: EffectiveMembershipView<NID, M> },
    RebuildReplicationStreams { targets: Seq<(NID, ProgressEntry<NID>)> },
    MoveInputCursorBy { n: int },
    SaveVote { vote: Vote<NID> },
    SendVote { vote_req: VoteRequest<NID> },
    InstallElectionTimer { can_be_leader: bool },
    PurgeLog { upto: LogId<NID> },
    DeleteConflictLog { since: LogId<NID> },
}

impl<NID: NodeId, N: Node> View for Command<NID, N> {
    type V = CommandView<NID, N::V>;

    open spec fn view(&self) -> CommandView<NID, N::V> {
        match *self {
            Command::BecomeLeader => CommandView::BecomeLeader,
            Command::QuitLeader => CommandView::QuitLeader,
            Command::AppendInputEntries { range } => CommandView::AppendInputEntries {
                from: range.start as int,
                to: range.end as int,
            },
            Command::AppendBlankLog { log_id } => CommandView::AppendBlankLog { log_id },
            Command::ReplicateCommitted { committed } => CommandView::ReplicateCommitted {
                committed,
            },
            Command::LeaderCommit { already_committed, upto } => CommandView::LeaderCommit {
                already_committed,
                upto,
            },
            Command::FollowerCommit { already_committed, upto } => CommandView::FollowerCommit {
                already_committed,
                upto,
            },
            Command::Replicate { target, req } => CommandView::Replicate { target, req },
            Command::UpdateMembership { membership } => CommandView::UpdateMembership {
                membership: membership@,
            },
            Command::RebuildReplicationStreams { targets } =>
                CommandView::RebuildReplicationStreams { targets: targets@ },
            Command::MoveInputCursorBy { n } => CommandView::MoveInputCursorBy { n: n as int },
            Command::SaveVote { vote } => CommandView::SaveVote { vote },
            Command::SendVote { vote_req } => CommandView::SendVote { vote_req },
            Command::InstallElectionTimer { can_be_leader } => CommandView::InstallElectionTimer {
                can_be_leader,
            },
            Command::PurgeLog { upto } => CommandView::PurgeLog { upto },
            Command::DeleteConflictLog { since } => CommandView::DeleteConflictLog { since },
        }
    }
}

impl<NID, M> CommandView<NID, M> {
    /// The command changes which nodes are replicated to.
    pub open spec fn changes_replication(self) -> bool {
        self is RebuildReplicationStreams
    }

    /// The command changes what is stored on this node.
    pub open spec fn changes_data(self) -> bool {
        ||| self is AppendInputEntries
        ||| self is AppendBlankLog
        ||| self is LeaderCommit
        ||| self is FollowerCommit
        ||| self is SaveVote
        ||| self is PurgeLog
        ||| self is DeleteConflictLog
    }

    /// The command changes the membership or the part that this node plays.
    pub open spec fn changes_cluster(self) -> bool {
        self is BecomeLeader || self is QuitLeader || self is UpdateMembership
    }

    /// The flags after the command is queued.
    pub open spec fn flagged(self, flags: MetricsChangeFlags) -> MetricsChangeFlags {
        MetricsChangeFlags {
            replication: flags.replication || self.changes_replication(),
            local_data: flags.local_data || self.changes_data(),
            cluster: flags.cluster || self.changes_cluster(),
        }
    }
}

impl<NID: NodeId, N: Node> Command<NID, N> {
    /// Notes which metrics the command changes.
    pub fn update_metrics_flags(&self, flags: &mut MetricsChangeFlags)
        ensures
            *final(flags) == self@.flagged(*old(flags)),
    {
        match self {
            Command::BecomeLeader => flags.set_cluster_changed(),
            Command::QuitLeader => flags.set_cluster_changed(),
            Command::AppendInputEntries { .. } => flags.set_data_changed(),
            Command::AppendBlankLog { .. } => flags.set_data_changed(),
            Command::ReplicateCommitted { .. } => {},
            Command::LeaderCommit { .. } => flags.set_data_changed(),
            Command::FollowerCommit { .. } => flags.set_data_changed(),
            Command::Replicate { .. } => {},
            Command::UpdateMembership { .. } => flags.set_cluster_changed(),
            Command::RebuildReplicationStreams { .. } => flags.set_replication_changed(),
            Command::MoveInputCursorBy { .. } => {},
            Command::SaveVote { .. } => flags.set_data_changed(),
            Command::SendVote { .. } => {},
            Command::InstallElectionTimer { .. } => {},
            Command::PurgeLog { .. } => flags.set_data_changed(),
            Command::DeleteConflictLog { .. } => flags.set_data_changed(),
        }
    }
}

impl<NID: NodeId, N: Node> Clone for Command<NID, N> {
    fn clone(&self) -> (r: Self)
        ensures
            r@ == self@,
    {
        match self {
            Command::BecomeLeader => Command::BecomeLeader,
            Command::QuitLeader => Command::QuitLeader,
            Command::AppendInputEntries { range } => Command::AppendInputEntries {
                range: range.start..range.end,
            },
            Command::AppendBlankLog { log_id } => Command::AppendBlankLog { log_id: *log_id },
            Command::ReplicateCommitted { committed } => Command::ReplicateCommitted {
                committed: *committed,
            },
            Command::LeaderCommit { already_committed, upto } => Command::LeaderCommit {
                already_committed: *already_committed,
                upto: *upto,
            },
            Command::FollowerCommit { already_committed, upto } => Command::FollowerCommit {
                already_committed: *already_committed,
                upto: *upto,
            },
            Command::Replicate { target, req } => Command::Replicate { target: *target, req: *req },
            Command::UpdateMembership { membership } => Command::UpdateMembership {
                membership: membership.clone(),
            },
            Command::RebuildReplicationStreams { targets } => Command::RebuildReplicationStreams {
                targets: copy_entries(targets),
            },
            Command::MoveInputCursorBy { n } => Command::MoveInputCursorBy { n: *n },
            Command::SaveVote { vote } => Command::SaveVote { vote: *vote },
            Command::SendVote { vote_req } => Command::SendVote { vote_req: *vote_req },
            Command::InstallElectionTimer { can_be_leader } => Command::InstallElectionTimer {
                can_be_leader: *can_be_leader,
            },
            Command::PurgeLog { upto } => Command::PurgeLog { upto: *upto },
            Command::DeleteConflictLog { since } => Command::DeleteConflictLog { since: *since },
        }
    }
}

/// The view of an [`EngineOutput`].
#[verifier::ext_equal]
#[verifier::reject_recursive_types(NID)]
pub struct OutputView<NID, M> {
    pub flags: MetricsChangeFlags,
    pub commands: Seq<CommandView<NID, M>>,
}

impl<NID, M> OutputView<NID, M> {
    /// Nothing is queued and nothing has changed.
    pub open spec fn none() -> Self {
        OutputView { flags: MetricsChangeFlags::none(), commands: Seq::empty() }
    }

    /// One more command is queued.
    pub open spec fn push(self, c: CommandView<NID, M>) -> Self {
        OutputView { flags: c.flagged(self.flags), commands: self.commands.push(c) }
    }

    /// The commands are queued one after the other.
    pub open spec fn push_all(self, cs: Seq<CommandView<NID, M>>) -> Self
        decreases cs.len(),
    {
        if cs.len() == 0 {
            self
        } else {
            self.push_all(cs.drop_last()).push(cs.last())
        }
    }

    /// The part that this node plays has changed.
    pub open spec fn cluster_changed(self) -> Self {
        OutputView { flags: MetricsChangeFlags { cluster: true, ..self.flags }, ..self }
    }

    /// What is stored on this node has changed.
    pub open spec fn data_changed(self) -> Self {
        OutputView { flags: MetricsChangeFlags { local_data: true, ..self.flags }, ..self }
    }

    /// The output holds everything that `earlier` held, in the same order.
    pub open spec fn extends(self, earlier: Self) -> bool {
        earlier.commands.is_prefix_of(self.commands)
    }
}

/// What the engine hands to the runtime.
#[derive(Debug, PartialEq, Eq)]
pub struct EngineOutput<NID: NodeId, N: Node> {
    /// Which metrics have changed.
    pub metrics_flags: MetricsChangeFlags,
    /// The commands that are to be executed, in this order.
    pub commands: Vec<Command<NID, N>>,
}

/// The views of a list of commands.
pub open spec fn command_views<NID: NodeId, N: Node>(commands: Seq<Command<NID, N>>) -> Seq<
    CommandView<NID, N::V>,
> {
    Seq::new(commands.len(), |i: int| commands[i]@)
}

impl<NID: NodeId, N: Node> View for EngineOutput<NID, N> {
    type V = OutputView<NID, N::V>;

    open spec fn view(&self) -> OutputView<NID, N::V> {
        OutputView { flags: self.metrics_flags, commands: command_views(self.commands@) }
    }
}

impl<NID: NodeId, N: Node> EngineOutput<NID, N> {
    /// Queues a command and notes which metrics it changes.
    pub fn push_command(&mut self, cmd: Command<NID, N>)
        ensures
            final(self)@ == old(self)@.push(cmd@),
    {
        cmd.update_metrics_flags(&mut self.metrics_flags);
        self.commands.push(cmd);
        assert(command_views(self.commands@) =~= command_views(old(self).commands@).push(cmd@));
    }
}

impl<NID: NodeId, N: Node> Default for EngineOutput<NID, N> {
    fn default() -> (r: Self)
        ensures
            r@ == OutputView::<NID, N::V>::none(),
    {
        let r = EngineOutput {
            metrics_flags: MetricsChangeFlags::default(),
            commands: Vec::new(),
        };
        assert(r@ =~= OutputView::<NID, N::V>::none());
        r
    }
}

impl<NID: NodeId, N: Node> Clone for EngineOutput<NID, N> {
    fn clone(&self) -> (r: Self)
        ensures
            r@ == self@,
    {
        let mut commands: Vec<Command<NID, N>> = Vec::new();
        let mut i: usize = 0;
        while i < self.commands.len()
            invariant
                i <= self.commands@.len(),
                command_views(commands@) == command_views(self.commands@).take(i as int),
            decreases self.commands@.len() - i,
        {
            let ghost before = commands@;
            commands.push(self.commands[i].clone());
            assert(command_views(commands@) =~= command_views(before).push(
                self.commands@[i as int]@,
            ));
            assert(command_views(commands@) =~= command_views(self.commands@).take(i + 1));
            i += 1;
        }
        assert(command_views(commands@) =~= command_views(self.commands@));
        EngineOutput { metrics_flags: self.metrics_flags, commands }
    }
}

/// Queueing two lists of commands one after the other is queueing their concatenation.
pub proof fn lemma_push_all_in_parts<NID, M>(
    o: OutputView<NID, M>,
    a: Seq<CommandView<NID, M>>,
    b: Seq<CommandView<NID, M>>,
)
    ensures
        o.push_all(a + b) == o.push_all(a).push_all(b),
    decreases b.len(),
{
    if b.len() == 0 {
        assert(a + b =~= a);
    } else {
        assert((a + b).drop_last() =~= a + b.drop_last());
        lemma_push_all_in_parts(o, a, b.drop_last());
    }
}

} // verus!
