//! What a follower or learner does with the log that a leader sends.

use crate::command::{Command, CommandView, EngineOutput};
use crate::config::EngineConfig;
use crate::entry::{entry_views, ids_of, EntryView, RaftEntry};
use crate::handler::server_state_handler::ServerStateHandler;
use crate::log_id::{cut_at, id_at, is_log, last_of, opt_is_before, opt_precedes, LogId};
use crate::membership::{EffectiveMembership, EffectiveMembershipView, MembershipStateView};
use crate::node::{Node, NodeId};
use crate::raft_state::{RaftState, RaftStateView};
use crate::view::{local_view, LocalView};
use vstd::prelude::*;

verus! {

/// The memberships that a list of entries holds.
pub open spec fn memberships_in<NID, M>(entries: Seq<EntryView<NID, M>>) -> Seq<
    EffectiveMembershipView<NID, M>,
>
    decreases entries.len(),
{
    if entries.len() == 0 {
        Seq::empty()
    } else {
        let before = memberships_in(entries.drop_last());
        match entries.last().membership {
            Some(m) => before.push(
                EffectiveMembershipView { log_id: Some(entries.last().log_id), membership: m },
            ),
            None => before,
        }
    }
}

/// The greater of two positions.
pub open spec fn later<NID: NodeId>(a: Option<LogId<NID>>, b: Option<LogId<NID>>) -> Option<
    LogId<NID>,
> {
    if opt_precedes(a, b) {
        b
    } else {
        a
    }
}

/// The lesser of two positions.
pub open spec fn earlier<NID: NodeId>(a: Option<LogId<NID>>, b: Option<LogId<NID>>) -> Option<
    LogId<NID>,
> {
    if opt_precedes(b, a) {
        b
    } else {
        a
    }
}

impl<NID: NodeId, M> MembershipStateView<NID, M> {
    /// Memberships arrive from a leader. The last one comes into force and the one before it
    /// counts as committed.
    pub open spec fn received(self, ms: Seq<EffectiveMembershipView<NID, M>>) -> Self {
        if ms.len() == 0 {
            self
        } else {
            MembershipStateView {
                committed: if ms.len() == 1 {
                    self.effective
                } else {
                    ms[ms.len() - 2]
                },
                effective: ms.last(),
            }
        }
    }
}

impl<NID: NodeId, M> LocalView<NID, M> {
    /// The entries from the index `since` on are deleted. If the membership in force was
    /// among them, the committed one is in force again.
    #[verifier::opaque]
    pub open spec fn truncated(self, id: NID, since: int) -> Self {
        match id_at(self.state.log, since) {
            None => self,
            Some(at) => {
                let cut = LocalView {
                    state: RaftStateView {
                        log: cut_at(self.state.log, since),
                        membership: self.state.membership.cut(since),
                        ..self.state
                    },
                    output: self.output.push(CommandView::DeleteConflictLog { since: at }),
                };
                if self.state.membership.is_cut(since) {
                    LocalView {
                        output: cut.output.push(
                            CommandView::UpdateMembership {
                                membership: cut.state.membership.effective,
                            },
                        ),
                        ..cut
                    }.role_updated(id)
                } else {
                    cut
                }
            },
        }
    }

    /// The memberships among newly received entries take effect.
    pub open spec fn memberships_received(
        self,
        id: NID,
        ms: Seq<EffectiveMembershipView<NID, M>>,
    ) -> Self {
        if ms.len() == 0 {
            self
        } else {
            LocalView {
                state: RaftStateView {
                    membership: self.state.membership.received(ms),
                    ..self.state
                },
                output: self.output.push(
                    CommandView::UpdateMembership { membership: ms.last() },
                ),
            }.role_updated(id)
        }
    }

    /// The entries from the position `since` on are appended.
    #[verifier::opaque]
    pub open spec fn appended(self, id: NID, entries: Seq<EntryView<NID, M>>, since: int) -> Self {
        if since >= entries.len() {
            self
        } else {
            let received = LocalView {
                state: RaftStateView {
                    log: self.state.log + ids_of(entries).skip(since),
                    ..self.state
                },
                output: self.output.push(
                    CommandView::AppendInputEntries { from: since, to: entries.len() as int },
                ),
            }.memberships_received(id, memberships_in(entries.skip(since)));
            LocalView {
                output: received.output.push(
                    CommandView::MoveInputCursorBy { n: entries.len() as int },
                ),
                ..received
            }
        }
    }

    /// What the leader has committed is committed here too, as far as it is known to be in
    /// the log: up to the last of the entries, or `prev` if there are none.
    pub open spec fn follower_committed(
        self,
        leader_committed: Option<LogId<NID>>,
        prev: Option<LogId<NID>>,
        ids: Seq<LogId<NID>>,
    ) -> Self {
        match earlier(leader_committed, later(last_of(ids), prev)) {
            Some(upto) if opt_precedes(self.state.committed, Some(upto)) => LocalView {
                state: self.state.committed_to(Some(upto)),
                output: self.output.push(
                    CommandView::FollowerCommit { already_committed: self.state.committed, upto },
                ),
            },
            _ => self,
        }
    }
}

/// What a follower or learner does with the log that a leader sends.
pub struct FollowingHandler<'x, NID: NodeId, N: Node> {
    pub config: &'x EngineConfig<NID>,
    pub state: &'x mut RaftState<NID, N>,
    pub output: &'x mut EngineOutput<NID, N>,
}

impl<'x, NID: NodeId, N: Node> FollowingHandler<'x, NID, N> {
    /// The view of the borrowed fields.
    pub open spec fn view(&self) -> LocalView<NID, N::V> {
        local_view(*self.state, *self.output)
    }

    /// Deletes the entries from the index `since` on.
    pub fn truncate_logs(&mut self, since: u64)
        ensures
            final(self)@ == old(self)@.truncated(old(self).config.id, since as int),
            *final(self).config == *old(self).config,
            *final(final(self).state) == *final(old(self).state),
            *final(final(self).output) == *final(old(self).output),
    {
        proof {
            reveal(LocalView::truncated);
        }
        let since_log_id = match self.state.get_log_id(since) {
            Some(x) => x,
            None => {
                return;
            },
        };
        self.state.log_ids.truncate(since);
        self.output.push_command(Command::DeleteConflictLog { since: since_log_id });
        match self.state.membership_state.truncate(since) {
            Some(membership) => {
                self.output.push_command(Command::UpdateMembership { membership });
                let mut h = ServerStateHandler {
                    config: self.config,
                    state: &mut *self.state,
                    output: &mut *self.output,
                };
                h.update_server_state_if_changed();
            },
            None => {},
        }
    }

    /// Appends `entries[since..]`.
    pub fn follower_do_append_entries<Ent: RaftEntry<NID, N>>(
        &mut self,
        entries: &[Ent],
        since: usize,
    )
        requires
            since <= entries@.len(),
            is_log(ids_of(entry_views::<NID, N, Ent>(entries@))),
            since < entries@.len() && old(self)@.state.log.len() > 0 ==> entries@[since as int].log_id().index
                == old(self)@.state.log.last().index + 1,
        ensures
            final(self)@ == old(self)@.appended(
                old(self).config.id,
                entry_views::<NID, N, Ent>(entries@),
                since as int,
            ),
            *final(self).config == *old(self).config,
            *final(final(self).state) == *final(old(self).state),
            *final(final(self).output) == *final(old(self).output),
    {
        proof {
            reveal(LocalView::appended);
        }
        let l = entries.len();
        if since == l {
            return;
        }
        self.state.extend_log_ids(entries, since);
        self.output.push_command(Command::AppendInputEntries { range: since..l });
        self.append_membership(entries, since);
        self.output.push_command(Command::MoveInputCursorBy { n: l });
    }

    /// Puts the memberships in `entries[since..]` into effect.
    fn append_membership<Ent: RaftEntry<NID, N>>(&mut self, entries: &[Ent], since: usize)
        requires
            since <= entries@.len(),
        ensures
            final(self)@ == old(self)@.memberships_received(
                old(self).config.id,
                memberships_in(entry_views::<NID, N, Ent>(entries@).skip(since as int)),
            ),
            *final(self).config == *old(self).config,
            *final(final(self).state) == *final(old(self).state),
            *final(final(self).output) == *final(old(self).output),
    {
        let (previous, latest) = last_two_memberships::<NID, N, Ent>(entries, since);
        match latest {
            None => {},
            Some(latest) => {
                match previous {
                    Some(previous) => {
                        self.state.membership_state.append(previous);
                    },
                    None => {},
                }
                self.output.push_command(Command::UpdateMembership { membership: latest.clone() });
                self.state.membership_state.append(latest);
                let mut h = ServerStateHandler {
                    config: self.config,
                    state: &mut *self.state,
                    output: &mut *self.output,
                };
                h.update_server_state_if_changed();
            },
        }
    }

    /// Commits what the leader has committed, as far as it is known to be in the log.
    pub fn follower_commit_entries<Ent: RaftEntry<NID, N>>(
        &mut self,
        leader_committed: Option<LogId<NID>>,
        prev_log_id: Option<LogId<NID>>,
        entries: &[Ent],
    )
        ensures
            final(self)@ == old(self)@.follower_committed(
                leader_committed,
                prev_log_id,
                ids_of(entry_views::<NID, N, Ent>(entries@)),
            ),
            *final(self).config == *old(self).config,
            *final(final(self).state) == *final(old(self).state),
            *final(final(self).output) == *final(old(self).output),
    {
        let l = entries.len();
        let last = if l == 0 {
            None
        } else {
            Some(*entries[l - 1].get_log_id())
        };
        let known = if opt_is_before(&last, &prev_log_id) {
            prev_log_id
        } else {
            last
        };
        let committed = if opt_is_before(&known, &leader_committed) {
            known
        } else {
            leader_committed
        };
        match (committed, self.state.update_committed(&committed)) {
            (Some(upto), Some(already_committed)) => {
                self.output.push_command(Command::FollowerCommit { already_committed, upto });
            },
            _ => {},
        }
    }
}

/// Finds the last two memberships in `entries[since..]`: the last one, and the one before it.
fn last_two_memberships<NID: NodeId, N: Node, Ent: RaftEntry<NID, N>>(
    entries: &[Ent],
    since: usize,
) -> (r: (Option<EffectiveMembership<NID, N>>, Option<EffectiveMembership<NID, N>>))
    requires
        since <= entries@.len(),
    ensures
        ({
            let ms = memberships_in(entry_views::<NID, N, Ent>(entries@).skip(since as int));
            &&& r.0 is Some <==> ms.len() >= 2
            &&& r.1 is Some <==> ms.len() >= 1
            &&& r.0 matches Some(m) ==> m@ == ms[ms.len() - 2]
            &&& r.1 matches Some(m) ==> m@ == ms[ms.len() - 1]
        }),
{
    let ghost views = entry_views::<NID, N, Ent>(entries@);
    let mut previous: Option<EffectiveMembership<NID, N>> = None;
    let mut latest: Option<EffectiveMembership<NID, N>> = None;
    let mut i: usize = since;
    assert(views.subrange(since as int, since as int) =~= Seq::empty());
    while i < entries.len()
        invariant
            since <= i <= entries@.len(),
            views == entry_views::<NID, N, Ent>(entries@),
            ({
                let ms = memberships_in(views.subrange(since as int, i as int));
                &&& previous is Some <==> ms.len() >= 2
                &&& latest is Some <==> ms.len() >= 1
                &&& previous matches Some(m) ==> m@ == ms[ms.len() - 2]
                &&& latest matches Some(m) ==> m@ == ms[ms.len() - 1]
            }),
        decreases entries@.len() - i,
    {
        let ghost longer = views.subrange(since as int, i + 1);
        assert(longer.drop_last() =~= views.subrange(since as int, i as int));
        assert(longer.last() == views[i as int]);
        match entries[i].get_membership() {
            Some(m) => {
                previous = latest;
                latest = Some(
                    EffectiveMembership::new(Some(*entries[i].get_log_id()), m.clone()),
                );
            },
            None => {},
        }
        i += 1;
    }
    assert(views.subrange(since as int, i as int) =~= views.skip(since as int));
    (previous, latest)
}

} // verus!
