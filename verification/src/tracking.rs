//! What a node that leads keeps track of stays within its log: where the logs of the others are
//! searched, and behind which entry they are sent entries.

use crate::command::CommandView;
use crate::config::EngineConfig;
use crate::entry::{ids_of, EntryView};
use crate::handler::replication_handler::all_sent;
use crate::history::Event;
use crate::leader::LeaderView;
use crate::log_id::{
    holds, id_at, is_log, last_of, lemma_leader_order_is_total, next_index, LogId,
};
use crate::meaning::law_known_progress;
use crate::membership::{EffectiveMembershipView, MembershipView};
use crate::message::VoteResponse;
use crate::node::NodeId;
use crate::progress::{Inflight, ProgressEntry, ProgressView};
use crate::raft_state::{RaftStateView, SnapshotView};
use crate::validity::{
    lemma_holds_on_log, lemma_id_at_held, lemma_last_held, lemma_purged_log, on_log,
};
use crate::view::{EngineView, LeadingView, LocalView};
use crate::vote::{lemma_vote_order_is_total, Vote};
use vstd::prelude::*;

verus! {

impl<NID: NodeId> ProgressEntry<NID> {
    /// The last matching entry is searched within the log, and entries are sent behind an entry
    /// that is on the log, or from the start on.
    pub open spec fn is_within(self, log: Seq<LogId<NID>>) -> bool {
        &&& self.searching_end <= next_index(last_of(log))
        &&& self.inflight matches Inflight::Logs { prev_log_id, .. } ==> (
        prev_log_id matches Some(x) ==> on_log(log, x))
    }
}

/// All records are within the log.
#[verifier::opaque]
pub open spec fn all_within<NID: NodeId>(
    log: Seq<LogId<NID>>,
    entries: Seq<(NID, ProgressEntry<NID>)>,
) -> bool {
    forall|i: int| 0 <= i < entries.len() ==> (#[trigger] entries[i]).1.is_within(log)
}

impl<NID: NodeId> ProgressView<NID> {
    /// All records are within the log.
    pub open spec fn is_within(self, log: Seq<LogId<NID>>) -> bool {
        all_within(log, self.voters) && all_within(log, self.learners)
    }

    proof fn lemma_entry_within(self, log: Seq<LogId<NID>>, id: NID)
        requires
            self.is_within(log),
        ensures
            self.entry(id) matches Some(e) ==> e.is_within(log),
    {
        reveal(all_within);
        law_known_progress(self, id, id, ProgressEntry::unknown(0));
        if let Some(e) = self.entry(id) {
            if self.voters.contains((id, e)) {
                let k = choose|k: int| 0 <= k < self.voters.len() && self.voters[k] == (id, e);
                assert(self.voters[k].1 == e);
            } else {
                let k = choose|k: int| 0 <= k < self.learners.len() && self.learners[k] == (id, e);
                assert(self.learners[k].1 == e);
            }
        }
    }

    proof fn lemma_for_membership_within<M>(
        self,
        log: Seq<LogId<NID>>,
        m: MembershipView<NID, M>,
        default: ProgressEntry<NID>,
    )
        requires
            self.is_within(log),
            default.is_within(log),
        ensures
            self.for_membership(m, default).is_within(log),
    {
        reveal(all_within);
        assert forall|id: NID| (#[trigger] self.entry(id)) is Some implies (
        self.entry(id)->0).is_within(log) by {
            self.lemma_entry_within(log, id);
        }
    }

    proof fn lemma_with_within(self, log: Seq<LogId<NID>>, id: NID, e: ProgressEntry<NID>)
        requires
            self.is_within(log),
            e.is_within(log),
        ensures
            self.with(id, e).is_within(log),
    {
        reveal(all_within);
    }

    proof fn lemma_within_other(self, log: Seq<LogId<NID>>, other: Seq<LogId<NID>>)
        requires
            self.is_within(log),
            next_index(last_of(log)) <= next_index(last_of(other)),
            forall|id: LogId<NID>| #[trigger] on_log(log, id) ==> on_log(other, id),
        ensures
            self.is_within(other),
    {
        reveal(all_within);
    }
}

impl<NID: NodeId, M> LeadingView<NID, M> {
    /// What is known of the others is within the log.
    pub open spec fn tracks_log(self) -> bool {
        self.leader.progress.is_within(self.local.state.log)
    }

    /// Rebuilding the streams keeps track.
    pub proof fn lemma_rebuilt_tracks(self, config: EngineConfig<NID>)
        requires
            self.tracks_log(),
        ensures
            self.streams_rebuilt(config).tracks_log(),
    {
        reveal(LeadingView::streams_rebuilt);
        reveal(all_within);
    }

    /// Sending keeps track.
    pub proof fn lemma_initiated_tracks(self, config: EngineConfig<NID>)
        requires
            is_log(self.local.state.log),
            self.tracks_log(),
        ensures
            self.replication_initiated(config).tracks_log(),
    {
        reveal(LeadingView::replication_initiated);
        let (s, p) = (self.local.state, self.leader.progress);
        let max = config.max_payload_entries as int;
        lemma_sent_within(p.voters, config.id, s, max);
        lemma_sent_within(p.learners, config.id, s, max);
    }

    /// Progress of this node within its log keeps track.
    pub proof fn lemma_progressed_tracks(self, config: EngineConfig<NID>, upto: Option<LogId<NID>>)
        requires
            is_log(self.local.state.log),
            next_index(self.local.state.last_log_id()) <= u64::MAX,
            upto matches Some(u) ==> holds(self.local.state.log, u),
            self.tracks_log(),
        ensures
            self.local_progressed(config, upto).tracks_log(),
    {
        reveal(LeadingView::local_progressed);
        reveal(LeadingView::accepted_committed);
        let p = self.leader.progress;
        let log = self.local.state.log;
        match (upto, p.entry(config.id)) {
            (Some(u), Some(e)) => {
                p.lemma_entry_within(log, config.id);
                lemma_holds_on_log(log, u);
                p.lemma_with_within(log, config.id, e.matched(u));
            },
            _ => {},
        }
    }

    /// Appending an entry without content keeps track.
    pub proof fn lemma_blank_tracks(self, config: EngineConfig<NID>)
        requires
            self.valid(),
            next_index(self.local.state.last_log_id()) < u64::MAX,
            self.tracks_log(),
        ensures
            self.blank_appended(config).tracks_log(),
    {
        reveal(LeadingView::blank_appended);
        let id = self.next_log_id();
        let s = self.local.state;
        let more = seq![id];
        lemma_leader_order_is_total(id.leader_id, id.leader_id);
        self.local.state.lemma_positions();
        self.local.state.lemma_log_extended(more);
        self.lemma_log_extended(more);
        assert(s.log.push(id) =~= s.log + more);
        let b = self.with_blank();
        b.local.state.lemma_positions();
        lemma_last_held(b.local.state.log);
        self.leader.progress.lemma_within_other(s.log, b.local.state.log);
        b.lemma_progressed_tracks(config, Some(id));
    }

    /// Putting a membership into force keeps track.
    pub proof fn lemma_membership_tracks(
        self,
        config: EngineConfig<NID>,
        log_id: LogId<NID>,
        m: MembershipView<NID, M>,
    )
        requires
            is_log(self.local.state.log),
            next_index(self.local.state.last_log_id()) <= u64::MAX,
            self.tracks_log(),
        ensures
            self.membership_appended(config, log_id, m).tracks_log(),
    {
        reveal(LeadingView::membership_appended);
        reveal(LeadingView::streams_rebuilt);
        let default = ProgressEntry::<NID>::unknown(next_index(self.local.state.last_log_id()));
        self.leader.progress.lemma_for_membership_within(self.local.state.log, m, default);
        let em = EffectiveMembershipView { log_id: Some(log_id), membership: m };
        let l = LeadingView {
            leader: LeaderView {
                progress: self.leader.progress.for_membership(m, default),
                ..self.leader
            },
            local: LocalView {
                state: RaftStateView {
                    membership: self.local.state.membership.appended(em),
                    ..self.local.state
                },
                output: self.local.output.push(CommandView::UpdateMembership { membership: em }),
            },
        };
        l.lemma_rebuilt_tracks(config);
        l.streams_rebuilt(config).lemma_initiated_tracks(config);
    }

    /// The effects of entries that a leader has appended keep track.
    pub proof fn lemma_absorbed_tracks(
        self,
        config: EngineConfig<NID>,
        entries: Seq<EntryView<NID, M>>,
        n: int,
    )
        requires
            is_log(self.local.state.log),
            next_index(self.local.state.last_log_id()) <= u64::MAX,
            self.tracks_log(),
        ensures
            self.absorbed(config, entries, n).tracks_log(),
        decreases n,
    {
        if n > 0 {
            self.lemma_absorbed_tracks(config, entries, n - 1);
            self.lemma_absorbed_log(config, entries, n - 1);
            let l = self.absorbed(config, entries, n - 1);
            let log_id = entries[n - 1].log_id;
            if let Some(m) = entries[n - 1].membership {
                let upto = id_at(l.local.state.log, log_id.index - 1);
                lemma_id_at_held(l.local.state.log, log_id.index - 1);
                l.lemma_progressed_tracks(config, upto);
                l.lemma_progressed_adds(config, upto);
                let p = if log_id.index > 0 {
                    l.local_progressed(config, upto)
                } else {
                    l
                };
                p.lemma_membership_tracks(config, log_id, m);
            }
        }
    }
}

proof fn lemma_sent_within<NID: NodeId, M>(
    entries: Seq<(NID, ProgressEntry<NID>)>,
    id: NID,
    s: RaftStateView<NID, M>,
    max: int,
)
    requires
        is_log(s.log),
        all_within(s.log, entries),
    ensures
        all_within(s.log, all_sent(entries, id, s, max)),
{
    reveal(all_within);
    let after = all_sent(entries, id, s, max);
    assert forall|i: int| 0 <= i < after.len() implies (#[trigger] after[i]).1.is_within(s.log) by {
        let e = entries[i].1;
        assert(e.is_within(s.log));
        if entries[i].0 != id && e.inflight is Idle {
            if let Inflight::Logs { prev_log_id, .. } = e.next_request(s, max) {
                if let Some(x) = prev_log_id {
                    let at = choose|at: int| id_at(s.log, at) == Some(x);
                    lemma_id_at_held(s.log, at);
                    lemma_holds_on_log(s.log, x);
                }
            }
        }
    }
}

impl<NID: NodeId, M> EngineView<NID, M> {
    /// What a node that leads knows of the others is within its log.
    pub open spec fn tracks_log(self) -> bool {
        self.leader matches Some(l) ==> l.progress.is_within(self.local.state.log)
    }

    proof fn lemma_candidacy_tracks(self)
        requires
            next_index(self.local.state.last_log_id()) <= u64::MAX,
        ensures
            self.candidacy().progress.is_within(self.local.state.log),
    {
        let s = self.local.state;
        let none = ProgressView::<NID>::none();
        let default = ProgressEntry::<NID>::unknown(next_index(s.last_log_id()));
        assert(none.is_within(s.log)) by {
            reveal(all_within);
        }
        none.lemma_for_membership_within(s.log, s.membership.effective.membership, default);
        let p = none.for_membership(s.membership.effective.membership, default);
        if let Some(e) = p.entry(self.config.id) {
            p.lemma_entry_within(s.log, self.config.id);
            p.lemma_with_within(
                s.log,
                self.config.id,
                ProgressEntry { matching: s.last_log_id(), ..e },
            );
        }
    }

    /// Taking note of a vote keeps track.
    pub proof fn lemma_saw_vote_tracks(self, vote: Vote<NID>)
        requires
            next_index(self.local.state.last_log_id()) <= u64::MAX,
            self.tracks_log(),
        ensures
            self.saw_vote(vote).tracks_log(),
    {
        if self.local.state.vote.precedes(vote) {
            EngineView {
                local: LocalView {
                    state: RaftStateView { vote, ..self.local.state },
                    output: self.local.output.push(CommandView::SaveVote { vote }),
                },
                ..self
            }.lemma_candidacy_tracks();
        } else {
            self.lemma_candidacy_tracks();
        }
    }

    /// Taking office keeps track.
    pub proof fn lemma_office_tracks(self)
        requires
            self.valid(),
            self.local.state.is_leading(self.config.id),
            next_index(self.local.state.last_log_id()) < u64::MAX,
            self.tracks_log(),
        ensures
            self.leader_established().tracks_log(),
    {
        reveal(EngineView::leader_established);
        let vote = self.local.state.vote.granted();
        self.lemma_office();
        self.lemma_saw_vote(vote);
        self.lemma_saw_vote_tracks(vote);
        let l = self.saw_vote(vote).leading();
        let a = l.streams_rebuilt(self.config);
        let b = a.blank_appended(self.config);
        l.lemma_streams_rebuilt(self.config);
        l.lemma_rebuilt_tracks(self.config);
        a.lemma_blank_appended(self.config);
        a.lemma_blank_tracks(self.config);
        b.local.state.lemma_positions();
        b.lemma_initiated_tracks(self.config);
    }

    proof fn lemma_elected_tracks(self)
        requires
            self.valid(),
            self.can_stand(),
            self.tracks_log(),
        ensures
            self.elected().tracks_log(),
    {
        reveal(EngineView::elected);
        let vote = self.next_vote();
        self.local.state.lemma_positions();
        self.lemma_saw_vote(vote);
        self.lemma_saw_vote_tracks(vote);
        lemma_vote_order_is_total(self.local.state.vote, vote);
        let e = self.stood();
        assert(e.local == self.saw_vote(vote).local);
        if (e.leader->0).is_granted() {
            e.lemma_office_tracks();
        }
    }

    /// Appending entries keeps track.
    pub proof fn lemma_taken_tracks(self, n: int)
        requires
            self.valid(),
            0 <= n,
            next_index(self.local.state.last_log_id()) + n <= u64::MAX,
            self.tracks_log(),
        ensures
            self.entries_taken(self.local.state.next_ids(n)).tracks_log(),
    {
        let s = self.local.state;
        let ids = s.next_ids(n);
        s.lemma_positions();
        s.lemma_next_ids(n);
        lemma_leader_order_is_total(s.vote.leader(), s.vote.leader());
        s.lemma_log_extended(ids);
        assert(next_index(last_of(s.log)) <= next_index(last_of(s.log + ids))) by {
            if n > 0 {
                assert((s.log + ids).last() == ids.last());
                assert(ids.last() == ids[n - 1]);
            } else {
                assert(s.log + ids =~= s.log);
            }
        }
        if let Some(l) = self.leader {
            l.progress.lemma_within_other(s.log, s.log + ids);
        }
    }

    proof fn lemma_initialize_tracks(self, membership: Option<MembershipView<NID, M>>)
        requires
            self.valid(),
            self.tracks_log(),
        ensures
            self.initialize_tried(membership).tracks_log(),
    {
        let s = self.local.state;
        if s.is_pristine() {
            let id = s.next_ids(1)[0];
            assert(s.next_ids(1) =~= seq![id]);
            self.lemma_entries_taken(1);
            self.lemma_taken_tracks(1);
            let e = self.entries_taken(seq![id]);
            if let Some(m) = membership {
                let em = EffectiveMembershipView { log_id: Some(id), membership: m };
                let in_force = EngineView {
                    local: LocalView {
                        state: RaftStateView {
                            membership: e.local.state.membership.appended(em),
                            ..e.local.state
                        },
                        ..e.local
                    },
                    ..e
                }.commanded(CommandView::UpdateMembership { membership: em });
                let ready = EngineView {
                    local: in_force.local.role_updated(self.config.id),
                    ..in_force
                }.commanded(CommandView::MoveInputCursorBy { n: 1 });
                assert(ready.valid());
                assert(ready.local.state.log =~= seq![id]);
                ready.lemma_elected_tracks();
            }
        }
    }

    proof fn lemma_answered_tracks(self, target: NID, resp: VoteResponse<NID>)
        requires
            self.valid(),
            self.takes_answer(target, resp),
            self.tracks_log(),
        ensures
            self.vote_answered(target, resp).tracks_log(),
    {
        if let Some(l) = self.leader {
            if resp.vote_granted && l.granted(target).is_granted() {
                EngineView { leader: Some(l.granted(target)), ..self }.lemma_office_tracks();
            }
        }
    }

    proof fn lemma_proposed_tracks(self, memberships: Seq<Option<MembershipView<NID, M>>>)
        requires
            self.valid(),
            self.can_propose(memberships.len() as int),
            self.tracks_log(),
        ensures
            self.entries_appended(self.proposed(memberships)).tracks_log(),
    {
        let n = memberships.len() as int;
        if n > 0 {
            let entries = self.proposed(memberships);
            let ids = self.local.state.next_ids(n);
            assert(ids_of(entries) =~= ids);
            self.lemma_entries_taken(n);
            self.lemma_taken_tracks(n);
            let e = self.entries_taken(ids);
            let l = e.leading();
            e.local.state.lemma_positions();
            l.lemma_absorbed_tracks(self.config, entries, n);
            l.lemma_absorbed_log(self.config, entries, n);
            let a = l.absorbed(self.config, entries, n);
            let last = Some(entries.last().log_id);
            assert(a.local.state.log.last() == ids.last());
            lemma_last_held(a.local.state.log);
            a.lemma_progressed_tracks(self.config, last);
            a.lemma_progressed_adds(self.config, last);
            a.local_progressed(self.config, last).lemma_initiated_tracks(self.config);
            a.local_progressed(self.config, last).lemma_initiated_adds(self.config);
        }
    }

    proof fn lemma_startup_tracks(self)
        requires
            self.valid(),
            self.tracks_log(),
        ensures
            self.started_up().tracks_log(),
    {
        if self.local.state.is_leader(self.config.id) {
            self.local.state.lemma_positions();
            self.lemma_candidacy_tracks();
            let l = self.took_side().leading();
            l.lemma_rebuilt_tracks(self.config);
            reveal(LeadingView::streams_rebuilt);
            l.streams_rebuilt(self.config).lemma_initiated_tracks(self.config);
        }
    }

    proof fn lemma_snapshot_tracks(self, meta: SnapshotView<NID, M>)
        requires
            self.valid(),
            self.trusts_snapshot(meta),
            self.tracks_log(),
        ensures
            self.snapshot_finished(meta).tracks_log(),
    {
        if self.local.is_newer_snapshot(meta) {
            self.local.lemma_snapshot_planned(meta, self.config);
            let s = self.local.snapshot_updated(meta).state.purge_planned(self.config);
            s.lemma_positions();
            if let (Some(l), Some(p)) = (self.leader, s.purge_upto) {
                lemma_purged_log(s.log, p);
                l.progress.lemma_within_other(s.log, s.purged(p).log);
            }
        }
    }

    /// Every event that can happen keeps what a node that leads knows of the others within its
    /// log: no log is searched beyond the end of the own one, and what is on its way to a node
    /// starts right behind an entry of the own log.
    pub proof fn law_every_event_keeps_track(self, event: Event<NID, M>)
        requires
            self.valid(),
            self.tracks_log(),
            self.admits(event),
        ensures
            self.after(event).tracks_log(),
    {
        reveal(EngineView::after);
        self.local.state.lemma_positions();
        match event {
            Event::Startup => {
                self.lemma_startup_tracks();
            },
            Event::Initialize { membership } => {
                self.lemma_initialize_tracks(membership);
            },
            Event::Elect => {
                self.lemma_elected_tracks();
            },
            Event::VoteReq { req } => {
                self.lemma_saw_vote_tracks(req.vote);
            },
            Event::VoteResp { target, resp } => {
                self.lemma_answered_tracks(target, resp);
            },
            Event::Propose { memberships } => {
                self.lemma_proposed_tracks(memberships);
            },
            Event::AppendReq { vote, prev, entries, leader_committed } => {
                if !vote.precedes(self.local.state.vote) {
                    self.law_accepted_leader_is_followed(vote, prev, entries, leader_committed);
                }
            },
            Event::StepDown => {},
            Event::Snapshot { meta } => {
                self.lemma_snapshot_tracks(meta);
            },
        }
    }
}

} // verus!
