//! When the state of a node makes sense, and what keeps it so.

use crate::entry::{ids_of, EntryView};
use crate::command::CommandView;
use crate::config::EngineConfig;
use crate::handler::following_handler::{earlier, later};
use crate::leader::LeaderView;
use crate::log_id::{
    cut_at, fit, holds, id_at, is_log, last_of, lemma_join_logs, lemma_leader_order_is_total,
    lemma_log_id_order_is_total, lemma_log_ids_fit, lemma_opt_order, lemma_part_of_log, next_index,
    opt_precedes, purged_to, LogId,
};
use crate::membership::{EffectiveMembershipView, MembershipView};
use crate::node::NodeId;
use crate::progress::{entry_of, ProgressEntry, ProgressView};
use crate::request::{shown_log, shows_log};
use crate::raft_state::{positions_agree, RaftStateView, SnapshotView};
use crate::view::{EngineView, LeadingView, LocalView};
use crate::vote::{lemma_vote_order_is_total, Vote};
use vstd::prelude::*;

verus! {

/// A log id that the log holds, or held before it was purged.
pub open spec fn on_log<NID: NodeId>(log: Seq<LogId<NID>>, id: LogId<NID>) -> bool {
    &&& id.index < next_index(last_of(log))
    &&& forall|k: int| 0 <= k < log.len() ==> fit(#[trigger] log[k], id)
}

/// What is recorded as matching is on the log.
#[verifier::opaque]
pub open spec fn all_on_log<NID: NodeId>(
    log: Seq<LogId<NID>>,
    entries: Seq<(NID, ProgressEntry<NID>)>,
) -> bool {
    forall|i: int|
        0 <= i < entries.len() ==> ((#[trigger] entries[i]).1.matching matches Some(m) ==> on_log(
            log,
            m,
        ))
}

impl<NID: NodeId> ProgressView<NID> {
    /// What is recorded as matching is on the log.
    pub open spec fn is_on(self, log: Seq<LogId<NID>>) -> bool {
        all_on_log(log, self.voters) && all_on_log(log, self.learners)
    }
}

impl<NID: NodeId, M> LeadingView<NID, M> {
    /// The state makes sense, and what the peers are recorded to have is on the log.
    pub open spec fn valid(self) -> bool {
        self.local.state.valid() && self.leader.progress.is_on(self.local.state.log)
    }
}

impl<NID: NodeId, M> EngineView<NID, M> {
    /// The state makes sense, and what the peers are recorded to have is on the log.
    pub open spec fn valid(self) -> bool {
        &&& self.local.state.valid()
        &&& self.leader matches Some(l) ==> l.progress.is_on(self.local.state.log)
    }
}

/// A log id that the log holds is on the log.
pub proof fn lemma_holds_on_log<NID: NodeId>(log: Seq<LogId<NID>>, id: LogId<NID>)
    requires
        is_log(log),
        holds(log, id),
    ensures
        on_log(log, id),
{
    assert forall|k: int| 0 <= k < log.len() implies fit(#[trigger] log[k], id) by {
        assert(log[log.len() - 1].index == log[0].index + (log.len() - 1));
        assert(log[k].index == log[0].index + k);
        assert(holds(log, log[k]));
        lemma_log_ids_fit(log, log[k], id);
    }
}

/// A log id that is on the log and not before its start is held by the log.
pub proof fn lemma_on_log_holds<NID: NodeId>(log: Seq<LogId<NID>>, id: LogId<NID>)
    requires
        is_log(log),
        on_log(log, id),
        log.len() > 0,
        log[0].index <= id.index,
    ensures
        holds(log, id),
{
    let k = id.index - log[0].index;
    assert(log[log.len() - 1].index == log[0].index + (log.len() - 1));
    assert(log[k].index == log[0].index + k);
    assert(fit(log[k], id));
}

/// What stands at an index of a log is held by it, and has that index.
pub proof fn lemma_id_at_held<NID: NodeId>(log: Seq<LogId<NID>>, index: int)
    requires
        is_log(log),
    ensures
        id_at(log, index) matches Some(id) ==> holds(log, id) && id.index == index,
{
    if id_at(log, index) is Some {
        let k = index - log[0].index;
        assert(log[log.len() - 1].index == log[0].index + (log.len() - 1));
        assert(log[k].index == log[0].index + k);
    }
}

/// Every id of a log is held by it.
pub proof fn lemma_member_held<NID: NodeId>(log: Seq<LogId<NID>>, k: int)
    requires
        is_log(log),
        0 <= k < log.len(),
    ensures
        holds(log, log[k]),
{
    assert(log[log.len() - 1].index == log[0].index + (log.len() - 1));
    assert(log[k].index == log[0].index + k);
}

/// The last id of a log is held by it.
pub proof fn lemma_last_held<NID: NodeId>(log: Seq<LogId<NID>>)
    requires
        is_log(log),
        log.len() > 0,
    ensures
        holds(log, log.last()),
{
    assert(log[log.len() - 1].index == log[0].index + (log.len() - 1));
}

/// A log keeps what was on it when ids are added at its end.
pub proof fn lemma_on_longer_log<NID: NodeId>(
    log: Seq<LogId<NID>>,
    more: Seq<LogId<NID>>,
    id: LogId<NID>,
)
    requires
        is_log(log),
        is_log(log + more),
        on_log(log, id),
    ensures
        on_log(log + more, id),
{
    let all = log + more;
    let n = log.len() as int;
    assert(n > 0);
    assert(all[all.len() - 1].index == all[n - 1].index + (all.len() - n));
    assert forall|k: int| 0 <= k < all.len() implies fit(#[trigger] all[k], id) by {
        if k < n {
            assert(fit(log[k], id));
        } else {
            assert(fit(log[n - 1], id));
            assert(all[n - 1] == log[n - 1]);
            assert(all[k].index == all[n - 1].index + (k - (n - 1)));
            assert(!all[k].leader_id.precedes(all[n - 1].leader_id));
            lemma_leader_order_is_total(all[k].leader_id, all[n - 1].leader_id);
            lemma_leader_order_is_total(id.leader_id, all[n - 1].leader_id);
            lemma_leader_order_is_total(id.leader_id, all[k].leader_id);
        }
    }
}

/// A log keeps what it holds when ids are added at its end.
pub proof fn lemma_longer_log_holds<NID: NodeId>(
    log: Seq<LogId<NID>>,
    more: Seq<LogId<NID>>,
    id: LogId<NID>,
)
    requires
        is_log(log),
        is_log(log + more),
        holds(log, id),
    ensures
        holds(log + more, id),
{
    let all = log + more;
    assert(all[all.len() - 1].index == all[0].index + (all.len() - 1));
    assert(log[log.len() - 1].index == log[0].index + (log.len() - 1));
    assert(all[id.index - log[0].index] == log[id.index - log[0].index]);
}

/// A log that is cut keeps what it held before the cut.
pub proof fn lemma_cut_log_holds<NID: NodeId>(log: Seq<LogId<NID>>, at: int, id: LogId<NID>)
    requires
        is_log(log),
        holds(log, id),
        id.index < at,
    ensures
        is_log(cut_at(log, at)),
        holds(cut_at(log, at), id),
        cut_at(log, at)[0] == log[0],
{
    let short = cut_at(log, at);
    assert(log[log.len() - 1].index == log[0].index + (log.len() - 1));
    if log.last().index >= at {
        assert(short =~= log.subrange(0, at - log[0].index));
        lemma_part_of_log(log, 0, at - log[0].index);
        assert(short[short.len() - 1].index == short[0].index + (short.len() - 1));
    }
}

/// What is left of a log after it is cut is a log, and ends before the cut.
pub proof fn lemma_cut_log<NID: NodeId>(log: Seq<LogId<NID>>, at: int)
    requires
        is_log(log),
    ensures
        is_log(cut_at(log, at)),
        cut_at(log, at).len() > 0 ==> cut_at(log, at).last().index < at,
        cut_at(log, at).len() > 0 ==> cut_at(log, at)[0] == log[0],
        cut_at(log, at).len() > 0 ==> !log.last().leader_id.precedes(
            cut_at(log, at).last().leader_id,
        ),
{
    let short = cut_at(log, at);
    if log.len() > 0 && log.last().index >= at && at > log[0].index {
        assert(log[log.len() - 1].index == log[0].index + (log.len() - 1));
        assert(short =~= log.subrange(0, at - log[0].index));
        lemma_part_of_log(log, 0, at - log[0].index);
        assert(short[short.len() - 1].index == short[0].index + (short.len() - 1));
        assert(short.last() == log[at - log[0].index - 1]);
        assert(!log[log.len() - 1].leader_id.precedes(log[at - log[0].index - 1].leader_id));
    } else if log.len() > 0 {
        lemma_leader_order_is_total(log.last().leader_id, log.last().leader_id);
    }
}

/// What is left of a log after it is purged up to an id that it holds is the part from there
/// on.
pub proof fn lemma_purged_log<NID: NodeId>(log: Seq<LogId<NID>>, upto: LogId<NID>)
    requires
        is_log(log),
        holds(log, upto),
    ensures
        is_log(purged_to(log, upto)),
        purged_to(log, upto).len() > 0,
        purged_to(log, upto)[0] == upto,
        purged_to(log, upto).last() == log.last(),
        forall|id: LogId<NID>|
            upto.index <= id.index && #[trigger] holds(log, id) ==> holds(purged_to(log, upto), id),
        forall|id: LogId<NID>| #[trigger] on_log(log, id) ==> on_log(purged_to(log, upto), id),
{
    let short = purged_to(log, upto);
    let n = log.len() as int;
    let from = upto.index - log[0].index;
    assert(log[n - 1].index == log[0].index + (n - 1));
    assert(short =~= log.subrange(from, n));
    lemma_part_of_log(log, from, n);
    assert(short[short.len() - 1].index == short[0].index + (short.len() - 1));
    assert forall|id: LogId<NID>| upto.index <= id.index && #[trigger] holds(log, id)
        implies holds(short, id) by {
        assert(short[id.index - upto.index] == log[id.index - log[0].index]);
    }
    assert forall|id: LogId<NID>| #[trigger] on_log(log, id) implies on_log(short, id) by {
        assert forall|k: int| 0 <= k < short.len() implies fit(#[trigger] short[k], id) by {
            assert(short[k] == log[from + k]);
        }
    }
}

impl<NID: NodeId, M> RaftStateView<NID, M> {
    /// What a valid state says about its positions.
    pub proof fn lemma_positions(self)
        requires
            self.valid(),
        ensures
            is_log(self.log),
            next_index(self.last_log_id()) <= u64::MAX,
            next_index(self.last_purged()) <= next_index(self.purge_upto) <= next_index(
                self.committed,
            ) <= next_index(self.last_log_id()),
            next_index(self.snapshot.last_log_id) <= next_index(self.committed),
            self.committed matches Some(c) ==> holds(self.log, c),
            self.purge_upto matches Some(p) ==> holds(self.log, p),
            self.last_log_id() matches Some(l) ==> !self.vote.leader().precedes(l.leader_id),
    {
        reveal(positions_agree);
    }

    /// The log grows at its end, with entries that are not from a later leader than the vote.
    pub proof fn lemma_log_extended(self, more: Seq<LogId<NID>>)
        requires
            self.valid(),
            is_log(more),
            more.len() > 0 ==> more[0].index == next_index(self.last_log_id()),
            more.len() > 0 && self.log.len() > 0 ==> !more[0].leader_id.precedes(
                self.log.last().leader_id,
            ),
            next_index(last_of(more)) <= u64::MAX,
            last_of(more) matches Some(l) ==> !self.vote.leader().precedes(l.leader_id),
        ensures
            (RaftStateView { log: self.log + more, ..self }).valid(),
            forall|id: LogId<NID>| #[trigger] on_log(self.log, id) ==> on_log(self.log + more, id),
    {
        reveal(positions_agree);
        let after = RaftStateView { log: self.log + more, ..self };
        lemma_join_logs(self.log, more);
        assert forall|id: LogId<NID>| #[trigger] on_log(self.log, id) implies on_log(
            self.log + more,
            id,
        ) by {
            lemma_on_longer_log(self.log, more, id);
        }
        if more.len() > 0 {
            assert(after.log.last() == more.last());
        } else {
            assert(after.log =~= self.log);
        }
        if let Some(c) = self.committed {
            lemma_longer_log_holds(self.log, more, c);
        }
        if let Some(s) = self.snapshot.last_log_id {
            lemma_longer_log_holds(self.log, more, s);
        }
        if let Some(p) = self.purge_upto {
            lemma_longer_log_holds(self.log, more, p);
        }
    }

    /// The vote is replaced by a greater one.
    pub proof fn lemma_vote_raised(self, vote: Vote<NID>)
        requires
            self.valid(),
            self.vote.precedes(vote),
        ensures
            (RaftStateView { vote, ..self }).valid(),
    {
        reveal(positions_agree);
        if let Some(l) = self.last_log_id() {
            let (a, b, c) = (l.leader_id, self.vote.leader(), vote.leader());
            lemma_leader_order_is_total(a, b);
            lemma_leader_order_is_total(b, c);
            lemma_leader_order_is_total(a, c);
        }
    }

    /// The log is cut after what is committed.
    pub proof fn lemma_log_cut(self, at: int)
        requires
            self.valid(),
            next_index(self.committed) <= at,
        ensures
            (RaftStateView { log: cut_at(self.log, at), ..self }).valid(),
    {
        reveal(positions_agree);
        lemma_cut_log(self.log, at);
        if let Some(c) = self.committed {
            lemma_cut_log_holds(self.log, at, c);
        }
        if let Some(s) = self.snapshot.last_log_id {
            lemma_cut_log_holds(self.log, at, s);
        }
        if let Some(p) = self.purge_upto {
            lemma_cut_log_holds(self.log, at, p);
        }
        let short = cut_at(self.log, at);
        if short.len() > 0 {
            let (a, b, c) = (
                short.last().leader_id,
                self.log.last().leader_id,
                self.vote.leader(),
            );
            lemma_leader_order_is_total(a, b);
            lemma_leader_order_is_total(b, c);
            lemma_leader_order_is_total(a, c);
        }
    }

    /// An entry of the log is committed.
    pub proof fn lemma_committed(self, upto: LogId<NID>)
        requires
            self.valid(),
            holds(self.log, upto),
            opt_precedes(self.committed, Some(upto)),
        ensures
            self.committed_to(Some(upto)).valid(),
            next_index(self.committed) <= upto.index,
    {
        reveal(positions_agree);
        if let Some(c) = self.committed {
            lemma_log_ids_fit(self.log, c, upto);
            lemma_log_id_order_is_total(c, upto);
        }
    }

    /// The log is purged up to an entry as planned.
    pub proof fn lemma_purged(self, upto: LogId<NID>)
        requires
            self.valid(),
            self.purge_upto == Some(upto),
        ensures
            self.purged(upto).valid(),
            forall|id: LogId<NID>| #[trigger]
                on_log(self.log, id) ==> on_log(self.purged(upto).log, id),
    {
        reveal(positions_agree);
        lemma_purged_log(self.log, upto);
    }
}

/// An entry that is on the log and further than what is committed is in the log.
pub proof fn lemma_uncommitted_held<NID: NodeId, M>(s: RaftStateView<NID, M>, id: LogId<NID>)
    requires
        s.valid(),
        on_log(s.log, id),
        opt_precedes(s.committed, Some(id)),
    ensures
        holds(s.log, id),
{
    reveal(positions_agree);
    assert(s.log.len() > 0);
    if id.index < s.log[0].index {
        assert(fit(s.log[0], id));
        match s.committed {
            Some(c) => {
                assert(s.log[s.log.len() - 1].index == s.log[0].index + (s.log.len() - 1));
                assert(holds(s.log, s.log[0]));
                lemma_log_ids_fit(s.log, s.log[0], c);
                lemma_leader_order_is_total(id.leader_id, s.log[0].leader_id);
                lemma_leader_order_is_total(s.log[0].leader_id, c.leader_id);
                lemma_leader_order_is_total(id.leader_id, c.leader_id);
            },
            None => {
                assert(s.purged_next == 0);
            },
        }
    }
    lemma_on_log_holds(s.log, id);
}

proof fn lemma_entry_on_log<NID: NodeId>(
    log: Seq<LogId<NID>>,
    entries: Seq<(NID, ProgressEntry<NID>)>,
    id: NID,
)
    requires
        all_on_log(log, entries),
    ensures
        entry_of(entries, id) matches Some(e) ==> (e.matching matches Some(m) ==> on_log(log, m)),
    decreases entries.len(),
{
    reveal(all_on_log);
    if entries.len() > 0 {
        assert(all_on_log(log, entries.drop_last())) by {
            assert forall|i: int| 0 <= i < entries.drop_last().len() implies ((
            #[trigger] entries.drop_last()[i]).1.matching matches Some(m) ==> on_log(log, m)) by {
                assert(entries[i] == entries.drop_last()[i]);
            }
        }
        lemma_entry_on_log(log, entries.drop_last(), id);
        assert(entries[entries.len() - 1] == entries.last());
    }
}

impl<NID: NodeId> ProgressView<NID> {
    /// What is recorded for a node is on the log.
    pub proof fn lemma_entry_is_on(self, log: Seq<LogId<NID>>, id: NID)
        requires
            self.is_on(log),
        ensures
            self.entry(id) matches Some(e) ==> (e.matching matches Some(m) ==> on_log(log, m)),
    {
        lemma_entry_on_log(log, self.voters, id);
        lemma_entry_on_log(log, self.learners, id);
    }

    /// The records for another membership are on the log.
    pub proof fn lemma_for_membership_is_on<M>(
        self,
        log: Seq<LogId<NID>>,
        m: MembershipView<NID, M>,
        default: ProgressEntry<NID>,
    )
        requires
            self.is_on(log),
            default.matching is None,
        ensures
            self.for_membership(m, default).is_on(log),
    {
        reveal(all_on_log);
        assert forall|id: NID| (#[trigger] self.entry(id)) is Some implies (
        self.entry(id)->0.matching matches Some(x) ==> on_log(log, x)) by {
            self.lemma_entry_is_on(log, id);
        }
    }

    /// A record is replaced by one that is on the log.
    pub proof fn lemma_with_is_on(self, log: Seq<LogId<NID>>, id: NID, e: ProgressEntry<NID>)
        requires
            self.is_on(log),
            e.matching matches Some(m) ==> on_log(log, m),
        ensures
            self.with(id, e).is_on(log),
    {
        reveal(all_on_log);
    }

    /// What was on the log is on any log that keeps all that was on it.
    pub proof fn lemma_is_on_other(self, log: Seq<LogId<NID>>, other: Seq<LogId<NID>>)
        requires
            self.is_on(log),
            forall|id: LogId<NID>| #[trigger] on_log(log, id) ==> on_log(other, id),
        ensures
            self.is_on(other),
    {
        reveal(all_on_log);
    }

    /// There is a greatest position that a quorum has accepted.
    pub proof fn lemma_greatest_exists(self)
        ensures
            self.is_greatest_accepted(self.quorum_accepted()),
    {
        let upto = self.lemma_greatest_among(self.voters.len() as int);
        assert(self.is_greatest_accepted(upto));
    }

    proof fn lemma_greatest_among(self, n: int) -> (upto: Option<LogId<NID>>)
        requires
            0 <= n <= self.voters.len(),
        ensures
            upto is None || exists|k: int|
                0 <= k < n && (#[trigger] self.voters[k]).1.matching == upto && self.is_accepted(
                    upto,
                ),
            forall|k: int|
                0 <= k < n && self.is_accepted((#[trigger] self.voters[k]).1.matching)
                    ==> !opt_precedes(upto, self.voters[k].1.matching),
        decreases n,
    {
        if n == 0 {
            None
        } else {
            let before = self.lemma_greatest_among(n - 1);
            let last = self.voters[n - 1].1.matching;
            if self.is_accepted(last) && opt_precedes(before, last) {
                assert forall|k: int|
                    0 <= k < n && self.is_accepted((#[trigger] self.voters[k]).1.matching)
                    implies !opt_precedes(last, self.voters[k].1.matching) by {
                    let m = self.voters[k].1.matching;
                    lemma_position_order(before, last, m);
                }
                last
            } else {
                before
            }
        }
    }

    /// What a quorum has accepted is on the log.
    pub proof fn lemma_accepted_on_log(self, log: Seq<LogId<NID>>)
        requires
            self.is_on(log),
        ensures
            self.quorum_accepted() matches Some(u) ==> on_log(log, u),
    {
        reveal(all_on_log);
        self.lemma_greatest_exists();
    }
}

/// If one position is before a second one and not before a third one, the second one is not
/// before the third one.
proof fn lemma_position_order<NID: NodeId>(
    a: Option<LogId<NID>>,
    b: Option<LogId<NID>>,
    c: Option<LogId<NID>>,
)
    ensures
        opt_precedes(a, b) && !opt_precedes(a, c) ==> !opt_precedes(b, c),
        !opt_precedes(a, a),
{
    lemma_opt_order(a, b);
    lemma_opt_order(b, c);
    lemma_opt_order(a, c);
    lemma_opt_order(a, a);
}

impl<NID: NodeId, M> LocalView<NID, M> {
    /// A new snapshot of committed entries, and the purge that it allows, keep the state
    /// valid.
    pub proof fn lemma_snapshot_planned(
        self,
        meta: SnapshotView<NID, M>,
        config: EngineConfig<NID>,
    )
        requires
            self.state.valid(),
            self.is_newer_snapshot(meta),
            holds(self.state.log, meta.last_log_id->0),
            next_index(self.state.purge_upto) <= next_index(meta.last_log_id) <= next_index(
                self.state.committed,
            ),
        ensures
            self.snapshot_updated(meta).state.valid(),
            self.snapshot_updated(meta).state.purge_planned(config).valid(),
    {
        reveal(positions_agree);
        let s = self.snapshot_updated(meta).state;
        let new = meta.last_log_id->0;
        if let Some(old) = self.state.snapshot.last_log_id {
            lemma_log_ids_fit(self.state.log, old, new);
            lemma_log_id_order_is_total(old, new);
        }
        if let Some(p) = s.next_purge(config) {
            lemma_id_at_held(s.log, s.purgeable_end(config) - 1);
        }
    }
}

impl<NID: NodeId, M> LeadingView<NID, M> {
    /// Rebuilding the streams keeps the state valid.
    pub proof fn lemma_streams_rebuilt(self, config: EngineConfig<NID>)
        requires
            self.valid(),
        ensures
            self.streams_rebuilt(config).valid(),
            self.streams_rebuilt(config).bounded(),
            self.streams_rebuilt(config).local.state == self.local.state,
    {
        reveal(LeadingView::streams_rebuilt);
        reveal(all_on_log);
        self.streams_rebuilt(config).lemma_bounded();
    }

    /// Sending keeps the state valid.
    pub proof fn lemma_replication_initiated(self, config: EngineConfig<NID>)
        requires
            self.valid(),
        ensures
            self.replication_initiated(config).valid(),
    {
        reveal(LeadingView::replication_initiated);
        reveal(all_on_log);
    }

    /// Committing what a quorum has accepted keeps the state valid.
    pub proof fn lemma_accepted_committed(self)
        requires
            self.valid(),
        ensures
            self.accepted_committed().valid(),
    {
        reveal(LeadingView::accepted_committed);
        self.leader.progress.lemma_accepted_on_log(self.local.state.log);
        match self.leader.progress.quorum_accepted() {
            Some(upto) => {
                if opt_precedes(self.local.state.committed, Some(upto)) {
                    lemma_uncommitted_held(self.local.state, upto);
                    self.local.state.lemma_committed(upto);
                }
            },
            None => {},
        }
    }

    /// Progress of this node within its log keeps the state valid.
    pub proof fn lemma_local_progressed(self, config: EngineConfig<NID>, upto: Option<LogId<NID>>)
        requires
            self.valid(),
            upto matches Some(u) ==> holds(self.local.state.log, u),
        ensures
            self.local_progressed(config, upto).valid(),
    {
        reveal(LeadingView::local_progressed);
        match (upto, self.leader.progress.entry(config.id)) {
            (Some(u), Some(e)) => {
                self.local.state.lemma_positions();
                lemma_holds_on_log(self.local.state.log, u);
                self.leader.progress.lemma_with_is_on(
                    self.local.state.log,
                    config.id,
                    e.matched(u),
                );
                LeadingView {
                    leader: LeaderView {
                        progress: self.leader.progress.with(config.id, e.matched(u)),
                        ..self.leader
                    },
                    ..self
                }.lemma_accepted_committed();
            },
            _ => {},
        }
    }

    /// Appending entries of this leader keeps the state valid.
    pub proof fn lemma_log_extended(self, more: Seq<LogId<NID>>)
        requires
            self.valid(),
            is_log(more),
            more.len() > 0 ==> more[0].index == next_index(self.local.state.last_log_id()),
            more.len() > 0 ==> more[0].leader_id == self.local.state.vote.leader(),
            more.len() > 0 ==> more.last().leader_id == self.local.state.vote.leader(),
            next_index(last_of(more)) <= u64::MAX,
        ensures
            (LeadingView {
                local: LocalView {
                    state: RaftStateView {
                        log: self.local.state.log + more,
                        ..self.local.state
                    },
                    ..self.local
                },
                ..self
            }).valid(),
    {
        let s = self.local.state;
        s.lemma_positions();
        lemma_leader_order_is_total(s.vote.leader(), s.vote.leader());
        s.lemma_log_extended(more);
        self.leader.progress.lemma_is_on_other(s.log, s.log + more);
    }

    /// Appending an entry without content keeps the state valid.
    pub proof fn lemma_blank_appended(self, config: EngineConfig<NID>)
        requires
            self.valid(),
            next_index(self.local.state.last_log_id()) < u64::MAX,
        ensures
            self.blank_appended(config).valid(),
    {
        reveal(LeadingView::blank_appended);
        let id = self.next_log_id();
        let s = self.local.state;
        let more = seq![id];
        lemma_leader_order_is_total(id.leader_id, id.leader_id);
        self.lemma_log_extended(more);
        assert(s.log.push(id) =~= s.log + more);
        let after = LeadingView {
            local: LocalView {
                state: RaftStateView { log: s.log.push(id), ..s },
                output: self.local.output.push(CommandView::AppendBlankLog { log_id: id }),
            },
            ..self
        };
        after.local.state.lemma_positions();
        lemma_last_held(after.local.state.log);
        after.lemma_local_progressed(config, Some(id));
    }

    /// Putting a membership into force keeps the state valid.
    pub proof fn lemma_membership_appended(
        self,
        config: EngineConfig<NID>,
        log_id: LogId<NID>,
        m: MembershipView<NID, M>,
    )
        requires
            self.valid(),
        ensures
            self.membership_appended(config, log_id, m).valid(),
    {
        reveal(LeadingView::membership_appended);
        let default = ProgressEntry::<NID>::unknown(next_index(self.local.state.last_log_id()));
        self.leader.progress.lemma_for_membership_is_on(self.local.state.log, m, default);
        let em = EffectiveMembershipView { log_id: Some(log_id), membership: m };
        let l = LeadingView {
            leader: LeaderView {
                progress: self.leader.progress.for_membership(m, default),
                ..self.leader
            },
            local: LocalView {
                state: RaftStateView {
                    membership: self.local.state.membership.appended(em),
                    ..self.local.state
                },
                output: self.local.output.push(CommandView::UpdateMembership { membership: em }),
            },
        };
        l.lemma_streams_rebuilt(config);
        l.streams_rebuilt(config).lemma_replication_initiated(config);
    }

    /// Purging keeps the state valid.
    pub proof fn lemma_purged_if_unused(self)
        requires
            self.valid(),
        ensures
            self.purged_if_unused().valid(),
    {
        if let Some(p) = self.local.state.purge_upto {
            self.local.state.lemma_purged(p);
            self.leader.progress.lemma_is_on_other(
                self.local.state.log,
                self.local.state.purged(p).log,
            );
        }
    }

    /// A valid state is small enough to replicate.
    pub proof fn lemma_bounded(self)
        requires
            self.valid(),
        ensures
            self.bounded(),
    {
        reveal(positions_agree);
        reveal(all_on_log);
    }
}

impl<NID: NodeId, M> EngineView<NID, M> {
    /// A candidacy knows only the log of this node.
    pub proof fn lemma_candidacy(self)
        requires
            self.local.state.valid(),
        ensures
            self.candidacy().progress.is_on(self.local.state.log),
    {
        let s = self.local.state;
        let none = ProgressView::<NID>::none();
        s.lemma_positions();
        assert(none.is_on(s.log)) by {
            reveal(all_on_log);
        }
        let default = ProgressEntry::<NID>::unknown(next_index(s.last_log_id()));
        none.lemma_for_membership_is_on(s.log, s.membership.effective.membership, default);
        let p = none.for_membership(s.membership.effective.membership, default);
        if let Some(e) = p.entry(self.config.id) {
            if s.log.len() > 0 {
                lemma_last_held(s.log);
                lemma_holds_on_log(s.log, s.log.last());
            }
            p.lemma_with_is_on(
                s.log,
                self.config.id,
                ProgressEntry { matching: s.last_log_id(), ..e },
            );
        }
    }

    /// Leading or following keeps the state valid.
    pub proof fn lemma_took_side(self)
        requires
            self.valid(),
        ensures
            self.took_side().valid(),
            self.became_following().valid(),
            self.became_leading().valid(),
    {
        self.lemma_candidacy();
    }

    /// Taking note of a vote keeps the state valid.
    pub proof fn lemma_saw_vote(self, vote: Vote<NID>)
        requires
            self.valid(),
        ensures
            self.saw_vote(vote).valid(),
    {
        if self.local.state.vote.precedes(vote) {
            self.local.state.lemma_vote_raised(vote);
            let s = RaftStateView { vote, ..self.local.state };
            EngineView {
                local: LocalView {
                    state: s,
                    output: self.local.output.push(CommandView::SaveVote { vote }),
                },
                ..self
            }.lemma_took_side();
        } else {
            self.lemma_took_side();
        }
    }
}

impl<NID: NodeId, M> RaftStateView<NID, M> {
    /// The ids that a node gives to new entries make up a log.
    pub proof fn lemma_next_ids(self, n: int)
        requires
            self.valid(),
            0 <= n,
            next_index(self.last_log_id()) + n <= u64::MAX,
        ensures
            is_log(self.next_ids(n)),
            next_index(last_of(self.next_ids(n))) <= u64::MAX,
    {
        reveal(positions_agree);
        lemma_leader_order_is_total(self.vote.leader(), self.vote.leader());
    }
}

impl<NID: NodeId, M> LeadingView<NID, M> {
    /// The effects of entries leave the log as it is.
    pub proof fn lemma_absorbed_log(
        self,
        config: EngineConfig<NID>,
        entries: Seq<EntryView<NID, M>>,
        n: int,
    )
        ensures
            self.absorbed(config, entries, n).local.state.log == self.local.state.log,
        decreases n,
    {
        reveal(LeadingView::local_progressed);
        reveal(LeadingView::accepted_committed);
        reveal(LeadingView::membership_appended);
        reveal(LeadingView::streams_rebuilt);
        reveal(LeadingView::replication_initiated);
        if n > 0 {
            self.lemma_absorbed_log(config, entries, n - 1);
        }
    }
}

impl<NID: NodeId, M> RaftStateView<NID, M> {
    /// The first missing entry is missing, and those before it are not.
    pub proof fn lemma_first_missing(self, ids: Seq<LogId<NID>>, from: int)
        requires
            0 <= from <= ids.len(),
        ensures
            from <= self.first_missing(ids, from) <= ids.len(),
            forall|k: int|
                from <= k < self.first_missing(ids, from) ==> self.has_log_id(#[trigger] ids[k]),
            self.first_missing(ids, from) < ids.len() ==> !self.has_log_id(
                ids[self.first_missing(ids, from)],
            ),
        decreases ids.len() - from,
    {
        if from < ids.len() && self.has_log_id(ids[from]) {
            self.lemma_first_missing(ids, from + 1);
        }
    }

    /// Which entries are missing depends only on the log and on what is committed.
    pub proof fn lemma_same_missing(self, other: Self, ids: Seq<LogId<NID>>, from: int)
        requires
            0 <= from <= ids.len(),
            self.log == other.log,
            self.committed == other.committed,
        ensures
            self.first_missing(ids, from) == other.first_missing(ids, from),
        decreases ids.len() - from,
    {
        if from < ids.len() {
            self.lemma_same_missing(other, ids, from + 1);
        }
    }
}

/// Two entries of a log that follow each other.
proof fn lemma_neighbours<NID: NodeId>(log: Seq<LogId<NID>>, i: int)
    requires
        is_log(log),
        0 <= i < log.len() - 1,
    ensures
        log[i + 1].index == log[i].index + 1,
        !log[i + 1].leader_id.precedes(log[i].leader_id),
{
}

/// A log that is cut behind an entry ends with it.
proof fn lemma_cut_behind<NID: NodeId>(log: Seq<LogId<NID>>, x: LogId<NID>)
    requires
        is_log(log),
        holds(log, x),
    ensures
        last_of(cut_at(log, x.index + 1)) == Some(x),
{
    let cut = cut_at(log, x.index + 1);
    assert(log[log.len() - 1].index == log[0].index + (log.len() - 1));
    lemma_cut_log_holds(log, x.index + 1, x);
    assert(cut[cut.len() - 1].index == cut[0].index + (cut.len() - 1));
}

/// A log that is cut behind one of its entries ends there.
proof fn lemma_cut_within<NID: NodeId>(log: Seq<LogId<NID>>, at: int)
    requires
        is_log(log),
        log.len() > 0,
        log[0].index < at <= log.last().index + 1,
    ensures
        cut_at(log, at).len() > 0,
        cut_at(log, at).last().index == at - 1,
{
    let cut = cut_at(log, at);
    assert(log[log.len() - 1].index == log[0].index + (log.len() - 1));
    if log.last().index >= at {
        assert(cut.last() == log[at - log[0].index - 1]);
        assert(log[at - log[0].index - 1].index == log[0].index + (at - log[0].index - 1));
    }
}

impl<NID: NodeId, M> RaftStateView<NID, M> {
    /// The log after entries with these ids were stored: it is cut at the first one that is
    /// missing, and continued from there.
    pub open spec fn log_after(self, ids: Seq<LogId<NID>>) -> Seq<LogId<NID>> {
        let since = self.first_missing(ids, 0);
        if since < ids.len() {
            cut_at(self.log, ids[since].index as int) + ids.skip(since)
        } else {
            self.log
        }
    }

    /// What is missing of a request that shows a part of a log continues the log here.
    pub proof fn lemma_request_continues(self, prev: Option<LogId<NID>>, ids: Seq<LogId<NID>>)
        requires
            self.valid(),
            prev matches Some(p) ==> self.has_log_id(p),
            shows_log(prev, ids),
        ensures
            self.is_continued_by(ids),
            ({
                let since = self.first_missing(ids, 0);
                let log = cut_at(self.log, ids[since].index as int);
                since < ids.len() ==> {
                    &&& next_index(self.committed) <= ids[since].index
                    &&& next_index(last_of(log)) == ids[since].index
                }
            }),
    {
        reveal(positions_agree);
        let since = self.first_missing(ids, 0);
        let shown = shown_log(prev, ids);
        let skip = shown.len() - ids.len();
        self.lemma_first_missing(ids, 0);
        assert(is_log(ids)) by {
            assert(ids =~= shown.subrange(skip, shown.len() as int));
            lemma_part_of_log(shown, skip, shown.len() as int);
        }
        if since < ids.len() {
            let at = ids[since].index as int;
            assert(shown[since + skip] == ids[since]);
            if since + skip > 0 {
                let x = shown[since + skip - 1];
                assert(x.index + 1 == at) by {
                    lemma_neighbours(shown, since + skip - 1);
                }
                assert(self.has_log_id(x)) by {
                    if since > 0 {
                        assert(x == ids[since - 1]);
                    }
                }
                lemma_cut_within(self.log, at);
            }
        }
    }

    /// The first missing entry of a request that agrees with what is committed follows what is
    /// left of the log when it is cut there.
    pub proof fn lemma_request_joins(self, prev: Option<LogId<NID>>, ids: Seq<LogId<NID>>)
        requires
            self.valid(),
            prev matches Some(p) ==> self.has_log_id(p),
            shows_log(prev, ids),
            self.agrees_with(prev, ids),
        ensures
            is_log(ids),
            ({
                let since = self.first_missing(ids, 0);
                let log = cut_at(self.log, ids[since].index as int);
                since < ids.len() ==> {
                    &&& next_index(self.committed) <= ids[since].index
                    &&& next_index(last_of(log)) == ids[since].index
                    &&& log.len() > 0 ==> !ids[since].leader_id.precedes(log.last().leader_id)
                }
            }),
    {
        let since = self.first_missing(ids, 0);
        let shown = shown_log(prev, ids);
        let skip = shown.len() - ids.len();
        self.lemma_positions();
        self.lemma_first_missing(ids, 0);
        assert(is_log(ids)) by {
            assert(ids =~= shown.subrange(skip, shown.len() as int));
            lemma_part_of_log(shown, skip, shown.len() as int);
        }
        if since < ids.len() {
            let at = ids[since].index as int;
            assert(shown[since + skip] == ids[since]);
            if since + skip > 0 {
                let x = shown[since + skip - 1];
                assert(x.index + 1 == at && !ids[since].leader_id.precedes(x.leader_id)) by {
                    lemma_neighbours(shown, since + skip - 1);
                }
                assert(self.has_log_id(x)) by {
                    if since > 0 {
                        assert(x == ids[since - 1]);
                    }
                }
                assert(holds(self.log, x)) by {
                    if x.index < next_index(self.committed) {
                        assert(holds(self.log, x) || fit(x, self.committed->0));
                    }
                }
                lemma_cut_behind(self.log, x);
            } else {
                lemma_cut_log(self.log, at);
            }
        }
    }

    /// Cutting the log at the first missing entry of a request and continuing it from there
    /// makes a log, which keeps what was there before the cut.
    pub proof fn lemma_log_after(
        self,
        prev: Option<LogId<NID>>,
        ids: Seq<LogId<NID>>,
        x: LogId<NID>,
    )
        requires
            self.valid(),
            prev matches Some(p) ==> self.has_log_id(p),
            shows_log(prev, ids),
            self.agrees_with(prev, ids),
        ensures
            is_log(self.log_after(ids)),
            holds(self.log, x) && (self.first_missing(ids, 0) < ids.len() ==> x.index
                < ids[self.first_missing(ids, 0)].index) ==> holds(self.log_after(ids), x),
    {
        let since = self.first_missing(ids, 0);
        self.lemma_positions();
        self.lemma_first_missing(ids, 0);
        self.lemma_request_joins(prev, ids);
        if since < ids.len() {
            let at = ids[since].index as int;
            let log = cut_at(self.log, at);
            let more = ids.skip(since);
            assert(more =~= ids.subrange(since, ids.len() as int));
            lemma_part_of_log(ids, since, ids.len() as int);
            lemma_cut_log(self.log, at);
            lemma_join_logs(log, more);
            if holds(self.log, x) && x.index < at {
                lemma_cut_log_holds(self.log, at, x);
                lemma_longer_log_holds(log, more, x);
            }
        }
    }

    /// Storing the entries of a request leaves what was in the log before the first missing
    /// one.
    pub proof fn lemma_kept_before(
        self,
        prev: Option<LogId<NID>>,
        ids: Seq<LogId<NID>>,
        x: LogId<NID>,
    )
        requires
            self.valid(),
            prev matches Some(p) ==> self.has_log_id(p),
            shows_log(prev, ids),
            holds(self.log, x),
            self.first_missing(ids, 0) < ids.len() ==> x.index < ids[self.first_missing(
                ids,
                0,
            )].index,
        ensures
            holds(self.log_after(ids), x),
            self.log_after(ids)[0] == self.log[0],
    {
        let since = self.first_missing(ids, 0);
        self.lemma_positions();
        self.lemma_first_missing(ids, 0);
        self.lemma_request_continues(prev, ids);
        if since < ids.len() {
            let at = ids[since].index as int;
            let log = cut_at(self.log, at);
            let more = ids.skip(since);
            lemma_cut_log_holds(self.log, at, x);
            assert(ids[ids.len() - 1].index == ids[since].index + (ids.len() - 1 - since));
            assert(log[log.len() - 1].index == log[0].index + (log.len() - 1));
            assert((log + more)[x.index - log[0].index] == log[x.index - log[0].index]);
            assert((log + more).last() == ids.last());
        }
    }

    /// Once the entries of a request are stored, an entry that it shows is here.
    pub proof fn lemma_shown_stored(
        self,
        prev: Option<LogId<NID>>,
        ids: Seq<LogId<NID>>,
        k: int,
    )
        requires
            self.valid(),
            prev matches Some(p) ==> self.has_log_id(p),
            shows_log(prev, ids),
            0 <= k < shown_log(prev, ids).len(),
        ensures
            ({
                let id = shown_log(prev, ids)[k];
                id.index < next_index(self.committed) || holds(self.log_after(ids), id)
            }),
    {
        let since = self.first_missing(ids, 0);
        let shown = shown_log(prev, ids);
        let after = self.log_after(ids);
        let skip = shown.len() - ids.len();
        let x = shown[k];
        self.lemma_positions();
        self.lemma_first_missing(ids, 0);
        self.lemma_request_continues(prev, ids);
        if k < since + skip {
            assert(self.has_log_id(x)) by {
                if k >= skip {
                    assert(x == ids[k - skip]);
                }
            }
            if since < ids.len() {
                assert(shown[since + skip] == ids[since]);
                assert(shown[since + skip].index == shown[k].index + (since + skip - k));
            }
            if holds(self.log, x) {
                self.lemma_kept_before(prev, ids, x);
            }
        } else {
            let i = k - skip;
            let log = cut_at(self.log, ids[since].index as int);
            let j = log.len() + (i - since);
            assert(x == ids[i]);
            assert(after[j] == x);
            assert(ids[i].index == ids[since].index + (i - since));
            assert(ids[ids.len() - 1].index == ids[since].index + (ids.len() - 1 - since));
            assert(after.last() == ids.last());
            if log.len() > 0 {
                lemma_cut_log(self.log, ids[since].index as int);
                assert(log[log.len() - 1].index == log[0].index + (log.len() - 1));
                assert(after[0] == log[0]);
            } else {
                assert(after[0] == ids[since]);
            }
        }
    }
}

impl<NID: NodeId, M> LocalView<NID, M> {
    /// Cutting the log after what is committed keeps the state valid.
    pub proof fn lemma_truncated(self, id: NID, since: int)
        requires
            self.state.valid(),
            next_index(self.state.committed) <= since,
        ensures
            self.truncated(id, since).state.valid(),
            self.truncated(id, since).state.log == cut_at(self.state.log, since),
            self.truncated(id, since).state.committed == self.state.committed,
            self.truncated(id, since).state.vote == self.state.vote,
    {
        reveal(LocalView::truncated);
        reveal(positions_agree);
        let s = self.state;
        s.lemma_log_cut(since);
        if s.log.len() > 0 {
            assert(s.log[s.log.len() - 1].index == s.log[0].index + (s.log.len() - 1));
        }
    }

    /// Appending entries changes the log, the membership and the part that the node plays.
    pub proof fn lemma_appended(self, id: NID, entries: Seq<EntryView<NID, M>>, since: int)
        requires
            since < entries.len(),
            (RaftStateView {
                log: self.state.log + ids_of(entries).skip(since),
                ..self.state
            }).valid(),
        ensures
            self.appended(id, entries, since).state.valid(),
            self.appended(id, entries, since).state.log == self.state.log + ids_of(entries).skip(
                since,
            ),
            self.appended(id, entries, since).state.committed == self.state.committed,
            self.appended(id, entries, since).state.vote == self.state.vote,
    {
        reveal(LocalView::appended);
    }

    /// Storing the entries that a leader sends cuts the log at the first missing one and
    /// continues it from there.
    pub proof fn lemma_stored_log(
        self,
        id: NID,
        prev: Option<LogId<NID>>,
        entries: Seq<EntryView<NID, M>>,
    )
        requires
            self.state.valid(),
            prev matches Some(p) ==> self.state.has_log_id(p),
            shows_log(prev, ids_of(entries)),
        ensures
            ({
                let s = self.state;
                let ids = ids_of(entries);
                let since = s.first_missing(ids, 0);
                let cut = self.truncated(id, ids[since].index as int);
                let stored = if since < ids.len() {
                    cut.appended(id, entries, since)
                } else {
                    self
                };
                &&& is_log(ids)
                &&& since < ids.len() ==> {
                    &&& next_index(s.committed) <= ids[since].index
                    &&& next_index(last_of(cut.state.log)) == ids[since].index
                }
                &&& stored.state.log == s.log_after(ids)
                &&& stored.state.committed == s.committed
                &&& stored.state.vote == s.vote
            }),
    {
        let s = self.state;
        let ids = ids_of(entries);
        let since = s.first_missing(ids, 0);
        s.lemma_first_missing(ids, 0);
        s.lemma_request_continues(prev, ids);
        if since < ids.len() {
            self.lemma_truncated(id, ids[since].index as int);
            reveal(LocalView::appended);
        }
    }

    /// Storing the entries that a leader sends keeps the state valid.
    pub proof fn lemma_stored(
        self,
        id: NID,
        vote: Vote<NID>,
        prev: Option<LogId<NID>>,
        entries: Seq<EntryView<NID, M>>,
        leader_committed: Option<LogId<NID>>,
    )
        requires
            self.state.valid(),
            self.state.vote == vote,
            prev matches Some(p) ==> self.state.has_log_id(p),
            self.state.fits_request(vote, prev, ids_of(entries), leader_committed),
        ensures
            ({
                let s = self.state;
                let ids = ids_of(entries);
                let since = s.first_missing(ids, 0);
                let cut = self.truncated(id, ids[since].index as int);
                let stored = if since < ids.len() {
                    cut.appended(id, entries, since)
                } else {
                    self
                };
                &&& is_log(ids)
                &&& since < ids.len() ==> {
                    &&& next_index(s.committed) <= ids[since].index
                    &&& next_index(last_of(cut.state.log)) == ids[since].index
                }
                &&& stored.state.log == s.log_after(ids)
                &&& stored.state.valid()
                &&& stored.state.committed == s.committed
                &&& stored.state.vote == s.vote
            }),
    {
        let s = self.state;
        let ids = ids_of(entries);
        let since = s.first_missing(ids, 0);
        self.lemma_stored_log(id, prev, entries);
        s.lemma_first_missing(ids, 0);
        s.lemma_request_joins(prev, ids);
        if since < ids.len() {
            let at = ids[since].index as int;
            self.lemma_truncated(id, at);
            let cut = self.truncated(id, at);
            let more = ids.skip(since);
            assert(more =~= ids.subrange(since, ids.len() as int));
            lemma_part_of_log(ids, since, ids.len() as int);
            assert(last_of(more) == last_of(ids));
            cut.state.lemma_log_extended(more);
            cut.lemma_appended(id, entries, since);
        }
    }

    /// Committing what a leader has committed keeps the state valid, once the entries that it
    /// sends are stored.
    pub proof fn lemma_follower_committed(
        self,
        before: RaftStateView<NID, M>,
        vote: Vote<NID>,
        prev: Option<LogId<NID>>,
        ids: Seq<LogId<NID>>,
        leader_committed: Option<LogId<NID>>,
    )
        requires
            self.state.valid(),
            self.state.committed == before.committed,
            before.fits_request(vote, prev, ids, leader_committed),
            prev matches Some(p) ==> before.has_log_id(p),
            before.valid(),
            self.state.log == before.log_after(ids),
        ensures
            self.follower_committed(leader_committed, prev, ids).state.valid(),
    {
        let shown = shown_log(prev, ids);
        let n = shown.len() as int;
        let last = later(last_of(ids), prev);
        before.lemma_positions();
        assert(last == last_of(shown)) by {
            if let Some(p) = prev {
                assert(shown[0] == p);
                if ids.len() > 0 {
                    assert(shown[n - 1] == ids.last());
                    assert(shown[n - 1].index == p.index + (n - 1));
                    assert(!shown[n - 1].leader_id.precedes(p.leader_id));
                    lemma_leader_order_is_total(shown[n - 1].leader_id, p.leader_id);
                }
            }
        }
        if let Some(u) = earlier(leader_committed, last) {
            if opt_precedes(self.state.committed, Some(u)) {
                if let Some(c) = before.committed {
                    lemma_log_id_order_is_total(c, u);
                }
                assert(n > 0);
                assert(shown[n - 1].index == shown[0].index + (n - 1));
                if Some(u) == last {
                    assert(shown[n - 1] == u);
                    before.lemma_shown_stored(prev, ids, n - 1);
                    if u.index < next_index(before.committed) {
                        assert(fit(shown[n - 1], before.committed->0));
                    }
                } else {
                    assert(leader_committed == Some(u));
                    assert(fit(shown[n - 1], u));
                    lemma_log_id_order_is_total(shown[n - 1], u);
                    if u.index >= shown[0].index {
                        let k = u.index - shown[0].index;
                        assert(shown[k].index == shown[0].index + k);
                        assert(fit(shown[k], u));
                        assert(shown[k] == u);
                        before.lemma_shown_stored(prev, ids, k);
                        if u.index < next_index(before.committed) {
                            assert(fit(shown[k], before.committed->0));
                        }
                    } else {
                        assert(prev is Some);
                        assert(shown[0] == prev->0);
                        assert(holds(before.log, shown[0]));
                        assert(holds(before.log, u));
                        before.lemma_first_missing(ids, 0);
                        let since = before.first_missing(ids, 0);
                        if since < ids.len() {
                            assert(shown[since + 1] == ids[since]);
                            assert(shown[since + 1].index == shown[0].index + (since + 1));
                        }
                        before.lemma_log_after(prev, ids, u);
                    }
                }
                assert(holds(self.state.log, u));
                self.state.lemma_committed(u);
            }
        }
    }
}

impl<NID: NodeId, M> EngineView<NID, M> {
    /// A longer log keeps an engine valid, whether it leads or not.
    pub proof fn lemma_log_extended_by(self, more: Seq<LogId<NID>>)
        requires
            self.valid(),
            (RaftStateView { log: self.local.state.log + more, ..self.local.state }).valid(),
            forall|id: LogId<NID>| #[trigger]
                on_log(self.local.state.log, id) ==> on_log(self.local.state.log + more, id),
        ensures
            (EngineView {
                local: LocalView {
                    state: RaftStateView {
                        log: self.local.state.log + more,
                        ..self.local.state
                    },
                    ..self.local
                },
                ..self
            }).valid(),
    {
        if let Some(l) = self.leader {
            l.progress.lemma_is_on_other(self.local.state.log, self.local.state.log + more);
        }
    }

    /// What a follower does with the entries that a leader sends keeps its state valid.
    pub proof fn lemma_entries_received(
        self,
        vote: Vote<NID>,
        prev: Option<LogId<NID>>,
        entries: Seq<EntryView<NID, M>>,
        leader_committed: Option<LogId<NID>>,
    )
        requires
            self.valid(),
            self.trusts_request(vote, prev, ids_of(entries), leader_committed),
        ensures
            self.entries_received(vote, prev, entries, leader_committed).valid(),
    {
        let id = self.config.id;
        let ids = ids_of(entries);
        self.lemma_saw_vote(vote);
        lemma_vote_order_is_total(vote, self.local.state.vote);
        let e = self.saw_vote(vote);
        let s = e.local.state;
        if !vote.precedes(self.local.state.vote) {
            assert(e.leader is None);
            assert(s.vote == vote);
            if !self.follows_from(vote, prev) {
                e.local.lemma_truncated(id, prev->0.index as int);
            } else {
                let since = s.first_missing(ids, 0);
                s.lemma_first_missing(ids, 0);
                let stored = if since < ids.len() {
                    e.local.truncated(id, ids[since].index as int).appended(id, entries, since)
                } else {
                    e.local
                };
                e.local.lemma_stored(id, vote, prev, entries, leader_committed);
                stored.lemma_follower_committed(s, vote, prev, ids, leader_committed);
            }
        }
    }
}

} // verus!
