//! How far a leader commits when it appends entries: one batch or two make no difference, and
//! without the other voters it commits nothing.

use crate::command::CommandView;
use crate::config::EngineConfig;
use crate::entry::{ids_of, EntryView};
use crate::history::Event;
use crate::leader::LeaderView;
use crate::leadership::{all_end_before, lemma_nothing_absorbed};
use crate::log_id::{
    fit, holds, id_at, lemma_leader_order_is_total, lemma_log_id_order_is_total, lemma_log_ids_fit,
    lemma_opt_order, lemma_order_chain, next_index, opt_precedes, LogId,
};
use crate::membership::{is_quorum, EffectiveMembershipView, MembershipView};
use crate::message::VoteResponse;
use crate::node::NodeId;
use crate::node_set::is_majority;
use crate::progress::{entry_of, with_entry, ProgressEntry, ProgressView};
use crate::raft_state::RaftStateView;
use crate::validity::{
    lemma_holds_on_log, lemma_id_at_held, lemma_last_held, lemma_member_held, on_log,
};
use crate::view::{EngineView, LeadingView, LocalView};
use crate::vote::{lemma_vote_order_is_total, Vote};
use vstd::prelude::*;
use vstd::set_lib::lemma_len_subset;

verus! {

/// The same nodes are known to have the same.
pub open spec fn match_alike<NID>(
    a: Seq<(NID, ProgressEntry<NID>)>,
    b: Seq<(NID, ProgressEntry<NID>)>,
) -> bool {
    &&& a.len() == b.len()
    &&& forall|i: int|
        0 <= i < a.len() ==> (#[trigger] a[i]).0 == (#[trigger] b[i]).0 && a[i].1.matching
            == b[i].1.matching
}

impl<NID: NodeId> ProgressView<NID> {
    /// The same nodes are known to have the same, whatever is on its way to them.
    pub open spec fn matches_like(self, other: Self) -> bool {
        &&& self.configs == other.configs
        &&& match_alike(self.voters, other.voters)
        &&& match_alike(self.learners, other.learners)
    }

    proof fn lemma_same_voter(self, other: Self, k: int)
        requires
            self.matches_like(other),
            0 <= k < self.voters.len(),
        ensures
            k < other.voters.len(),
            self.voters[k].0 == other.voters[k].0,
            self.voters[k].1.matching == other.voters[k].1.matching,
    {
        assert(self.voters[k].0 == other.voters[k].0);
    }

    proof fn lemma_same_matched_by(self, other: Self, upto: Option<LogId<NID>>)
        requires
            self.matches_like(other),
        ensures
            self.matched_by(upto) == other.matched_by(upto),
    {
        assert(self.matched_by(upto) =~= other.matched_by(upto)) by {
            assert forall|id: NID| #[trigger] self.matched_by(upto).contains(id)
                == other.matched_by(upto).contains(id) by {
                if self.matched_by(upto).contains(id) {
                    let k = choose|k: int|
                        0 <= k < self.voters.len() && (#[trigger] self.voters[k]).0 == id
                            && !opt_precedes(self.voters[k].1.matching, upto);
                    self.lemma_same_voter(other, k);
                    assert(other.voters[k].0 == id);
                }
                if other.matched_by(upto).contains(id) {
                    let k = choose|k: int|
                        0 <= k < other.voters.len() && (#[trigger] other.voters[k]).0 == id
                            && !opt_precedes(other.voters[k].1.matching, upto);
                    other.lemma_same_voter(self, k);
                    assert(self.voters[k].0 == id);
                }
            }
        }
    }

    /// What a quorum has accepted depends only on what the nodes are known to have.
    proof fn lemma_same_accepted(self, other: Self)
        requires
            self.matches_like(other),
        ensures
            self.quorum_accepted() == other.quorum_accepted(),
    {
        self.lemma_greatest_exists();
        other.lemma_greatest_exists();
        let (a, b) = (self.quorum_accepted(), other.quorum_accepted());
        if a is Some {
            let k = choose|k: int|
                0 <= k < self.voters.len() && (#[trigger] self.voters[k]).1.matching == a
                    && self.is_accepted(a);
            self.lemma_same_voter(other, k);
            self.lemma_same_matched_by(other, a);
            assert(other.is_accepted(other.voters[k].1.matching));
        }
        if b is Some {
            let k = choose|k: int|
                0 <= k < other.voters.len() && (#[trigger] other.voters[k]).1.matching == b
                    && other.is_accepted(b);
            other.lemma_same_voter(self, k);
            other.lemma_same_matched_by(self, b);
            assert(self.is_accepted(self.voters[k].1.matching));
        }
        lemma_opt_order(a, b);
    }

    /// What one node is known to have depends only on what the nodes are known to have.
    proof fn lemma_same_entry(self, other: Self, id: NID)
        requires
            self.matches_like(other),
        ensures
            self.entry(id) is Some <==> other.entry(id) is Some,
            self.entry(id) matches Some(e) ==> e.matching == (other.entry(id)->0).matching,
    {
        lemma_same_entry_of(self.voters, other.voters, id);
        lemma_same_entry_of(self.learners, other.learners, id);
    }

    proof fn lemma_matched_by_finite(self, upto: Option<LogId<NID>>)
        ensures
            self.matched_by(upto).finite(),
    {
        let all = crate::leadership::ids_in(self.voters);
        vstd::seq_lib::seq_to_set_is_finite(all);
        assert forall|id: NID| #[trigger] self.matched_by(upto).contains(id)
            implies all.to_set().contains(id) by {
            let k = choose|k: int|
                0 <= k < self.voters.len() && (#[trigger] self.voters[k]).0 == id
                    && !opt_precedes(self.voters[k].1.matching, upto);
            assert(all[k] == id);
        }
        lemma_len_subset(self.matched_by(upto), all.to_set());
    }
}

proof fn lemma_same_entry_of<NID>(
    a: Seq<(NID, ProgressEntry<NID>)>,
    b: Seq<(NID, ProgressEntry<NID>)>,
    id: NID,
)
    requires
        match_alike(a, b),
    ensures
        entry_of(a, id) is Some <==> entry_of(b, id) is Some,
        entry_of(a, id) matches Some(e) ==> e.matching == (entry_of(b, id)->0).matching,
    decreases a.len(),
{
    if a.len() > 0 {
        let n = a.len() - 1;
        assert(a[n].0 == b[n].0);
        let (c, d) = (a.drop_last(), b.drop_last());
        assert forall|i: int| 0 <= i < c.len() implies (#[trigger] c[i]).0 == (#[trigger] d[i]).0
            && c[i].1.matching == d[i].1.matching by {
            assert(a[i].0 == b[i].0);
        }
        lemma_same_entry_of(c, d, id);
    }
}

/// Whoever has a quorum still has it with more nodes.
proof fn lemma_more_is_quorum<NID>(configs: Seq<Set<NID>>, a: Set<NID>, b: Set<NID>)
    requires
        is_quorum(configs, a),
        a.subset_of(b),
        b.finite(),
    ensures
        is_quorum(configs, b),
{
    assert forall|i: int| 0 <= i < configs.len() implies is_majority(#[trigger] configs[i], b) by {
        let c = configs[i];
        assert(is_majority(c, a));
        lemma_len_subset(c.intersect(b), b);
        lemma_len_subset(c.intersect(a), c.intersect(b));
    }
}

impl<NID: NodeId, M> RaftStateView<NID, M> {
    /// A leader commits what a quorum has accepted, if it is of its own leadership and further
    /// than what is committed.
    pub open spec fn commits(self, accepted: Option<LogId<NID>>) -> Self {
        match accepted {
            Some(upto) if upto.leader_id == self.vote.leader() && opt_precedes(
                self.committed,
                Some(upto),
            ) => self.committed_to(Some(upto)),
            _ => self,
        }
    }

    /// Committing in two steps is committing in one.
    proof fn lemma_commits_twice(self, a: Option<LogId<NID>>, b: Option<LogId<NID>>)
        requires
            !opt_precedes(b, a),
            opt_precedes(a, b) && (a matches Some(x) && x.leader_id == self.vote.leader()) ==> (
            b matches Some(y) && y.leader_id == self.vote.leader()),
        ensures
            self.commits(a).commits(b) == self.commits(b),
    {
        let eff = self.membership.effective.log_id;
        lemma_opt_order(a, b);
        lemma_order_chain(self.committed, a, b);
        lemma_order_chain(a, b, eff);
        lemma_order_chain(eff, a, b);
        lemma_opt_order(self.committed, a);
        lemma_opt_order(self.committed, b);
        lemma_opt_order(b, b);
        assert(self.commits(a).commits(b) =~= self.commits(b));
    }
}

impl<NID: NodeId, M> LeadingView<NID, M> {
    /// What the state is once this node counts as having its log up to `u`.
    proof fn lemma_progressed_state(self, config: EngineConfig<NID>, u: LogId<NID>)
        requires
            self.leader.progress.entry(config.id) matches Some(e) ==> opt_precedes(
                e.matching,
                Some(u),
            ),
        ensures
            ({
                let after = self.local_progressed(config, Some(u));
                let p = self.leader.progress;
                match p.entry(config.id) {
                    Some(e) => {
                        &&& after.leader.progress == p.with(config.id, e.matched(u))
                        &&& after.local.state == self.local.state.commits(
                            after.leader.progress.quorum_accepted(),
                        )
                    },
                    None => after == self,
                }
            }),
    {
        reveal(LeadingView::local_progressed);
        reveal(LeadingView::accepted_committed);
    }

    proof fn lemma_initiated_matches(self, config: EngineConfig<NID>)
        ensures
            self.replication_initiated(config).leader.progress.matches_like(self.leader.progress),
    {
        reveal(LeadingView::replication_initiated);
        let p = self.leader.progress;
        let q = self.replication_initiated(config).leader.progress;
        assert(match_alike(q.voters, p.voters));
        assert(match_alike(q.learners, p.learners));
    }

    /// What another node is known to have comes before an entry that is put behind the log.
    proof fn lemma_match_is_earlier(self, k: int, u: LogId<NID>)
        requires
            self.valid(),
            holds(self.local.state.log, u),
            0 <= k < self.leader.progress.voters.len(),
            next_index(self.leader.progress.voters[k].1.matching) <= u.index,
        ensures
            opt_precedes(self.leader.progress.voters[k].1.matching, Some(u)),
    {
        reveal(crate::validity::all_on_log);
        let log = self.local.state.log;
        self.local.state.lemma_positions();
        if let Some(x) = self.leader.progress.voters[k].1.matching {
            assert(on_log(log, x));
            assert(fit(log[u.index - log[0].index], x));
        }
    }

    /// A leader that has stored more is no further back with what a quorum has accepted.
    proof fn lemma_accepted_grows(self, config: EngineConfig<NID>, x: LogId<NID>, y: LogId<NID>)
        requires
            self.valid(),
            holds(self.local.state.log, x),
            holds(self.local.state.log, y),
            x.precedes(y),
            all_end_before(self.leader.progress.voters, x.index as int),
            self.leader.progress.entry(config.id) is Some,
        ensures
            ({
                let p = self.leader.progress;
                let e = p.entry(config.id)->0;
                !opt_precedes(
                    p.with(config.id, e.matched(y)).quorum_accepted(),
                    p.with(config.id, e.matched(x)).quorum_accepted(),
                )
            }),
    {
        let id = config.id;
        let p = self.leader.progress;
        let e = p.entry(id)->0;
        let (px, py) = (p.with(id, e.matched(x)), p.with(id, e.matched(y)));
        px.lemma_greatest_exists();
        py.lemma_greatest_exists();
        let (gx, gy) = (px.quorum_accepted(), py.quorum_accepted());
        if gx is Some {
            let k = choose|k: int|
                0 <= k < px.voters.len() && (#[trigger] px.voters[k]).1.matching == gx
                    && px.is_accepted(gx);
            let a = px.matched_by(gx);
            if px.voters[k].0 == id {
                let b = py.matched_by(Some(y));
                assert(gx == Some(x));
                assert(py.voters[k].1.matching == Some(y));
                lemma_opt_order(Some(y), Some(y));
                assert forall|n: NID| #[trigger] a.contains(n) implies b.contains(n) by {
                    let j = choose|j: int|
                        0 <= j < px.voters.len() && (#[trigger] px.voters[j]).0 == n
                            && !opt_precedes(px.voters[j].1.matching, gx);
                    if n != id {
                        assert(px.voters[j] == p.voters[j]);
                        self.lemma_match_is_earlier(j, x);
                    }
                    assert(py.voters[j].0 == n);
                }
                py.lemma_matched_by_finite(Some(y));
                lemma_more_is_quorum(p.configs, a, b);
                assert(py.is_accepted(py.voters[k].1.matching));
                lemma_order_chain(Some(x), Some(y), gy);
                lemma_opt_order(gx, gy);
            } else {
                let b = py.matched_by(gx);
                assert(py.voters[k].1.matching == gx);
                assert forall|n: NID| #[trigger] a.contains(n) implies b.contains(n) by {
                    let j = choose|j: int|
                        0 <= j < px.voters.len() && (#[trigger] px.voters[j]).0 == n
                            && !opt_precedes(px.voters[j].1.matching, gx);
                    assert(py.voters[j].0 == n);
                    if n == id {
                        lemma_order_chain(gx, Some(x), Some(y));
                        lemma_opt_order(Some(x), Some(y));
                    }
                }
                py.lemma_matched_by_finite(gx);
                lemma_more_is_quorum(p.configs, a, b);
                assert(py.is_accepted(py.voters[k].1.matching));
            }
        }
    }

    /// What is accepted and comes after an entry of this leadership is of this leadership.
    proof fn lemma_own_between(self, a: Option<LogId<NID>>, b: Option<LogId<NID>>)
        requires
            self.valid(),
            b matches Some(y) ==> on_log(self.local.state.log, y),
            self.local.state.last_log_id() matches Some(l) && l.leader_id
                == self.local.state.vote.leader(),
            a matches Some(x) && x.leader_id == self.local.state.vote.leader(),
            !opt_precedes(b, a),
        ensures
            b matches Some(y) && y.leader_id == self.local.state.vote.leader(),
    {
        let log = self.local.state.log;
        let x = a->0;
        let y = b->0;
        let last = log.last();
        self.local.state.lemma_positions();
        assert(b is Some);
        assert(fit(log[log.len() - 1], y));
        lemma_log_id_order_is_total(y, last);
        lemma_log_id_order_is_total(x, y);
        lemma_leader_order_is_total(y.leader_id, x.leader_id);
        lemma_leader_order_is_total(y.leader_id, last.leader_id);
    }
}

impl<NID: NodeId, M> EngineView<NID, M> {
    /// What the state is after entries without a membership were proposed.
    proof fn lemma_plain_entries(self, memberships: Seq<Option<MembershipView<NID, M>>>)
        requires
            self.valid(),
            self.can_propose(memberships.len() as int),
            memberships.len() > 0,
            forall|i: int| 0 <= i < memberships.len() ==> #[trigger] memberships[i] is None,
        ensures
            ({
                let n = memberships.len() as int;
                let ids = self.local.state.next_ids(n);
                let l = self.entries_taken(ids).leading();
                let p = l.local_progressed(self.config, Some(ids.last()));
                let after = self.entries_appended(self.proposed(memberships));
                &&& after.local.state == p.local.state
                &&& after.leader is Some
                &&& after.config == self.config
                &&& (after.leader->0).progress.matches_like(p.leader.progress)
                &&& l.valid()
                &&& holds(l.local.state.log, ids.last())
                &&& l.ends_before(next_index(self.local.state.last_log_id()))
                &&& l.leader.progress.entry(self.config.id) matches Some(e) ==> opt_precedes(
                    e.matching,
                    Some(ids.last()),
                )
            }),
    {
        let n = memberships.len() as int;
        let s = self.local.state;
        let entries = self.proposed(memberships);
        let ids = s.next_ids(n);
        assert(ids_of(entries) =~= ids);
        self.lemma_entries_taken(n);
        let l = self.entries_taken(ids).leading();
        let last = ids.last();
        lemma_nothing_absorbed(l, self.config, entries, n);
        self.leading().lemma_ends_with_log();
        l.local.state.lemma_positions();
        lemma_last_held(l.local.state.log);
        l.lemma_entry_is_later(self.config, last);
        let p = l.local_progressed(self.config, Some(last));
        p.lemma_initiated_adds(self.config);
        p.lemma_initiated_matches(self.config);
    }

    /// Entries without a membership can be proposed in one batch or in two: they get the same
    /// ids, and the state is the same afterwards, with the same log, committed position, vote
    /// and membership.
    pub proof fn law_batches_add_up(
        self,
        xs: Seq<Option<MembershipView<NID, M>>>,
        ys: Seq<Option<MembershipView<NID, M>>>,
    )
        requires
            self.valid(),
            self.can_propose((xs.len() + ys.len()) as int),
            forall|i: int| 0 <= i < xs.len() ==> #[trigger] xs[i] is None,
            forall|i: int| 0 <= i < ys.len() ==> #[trigger] ys[i] is None,
        ensures
            ({
                let whole = self.entries_appended(self.proposed(xs + ys));
                let first = self.entries_appended(self.proposed(xs));
                let second = first.entries_appended(first.proposed(ys));
                &&& self.local.state.next_ids((xs.len() + ys.len()) as int)
                    == self.local.state.next_ids(xs.len() as int)
                    + first.local.state.next_ids(ys.len() as int)
                &&& first.can_propose(ys.len() as int)
                &&& whole.local.state == second.local.state
            }),
    {
        let s = self.local.state;
        let (a, b) = (xs.len() as int, ys.len() as int);
        let first = self.entries_appended(self.proposed(xs));
        self.lemma_proposed(xs);
        if a == 0 {
            assert(xs + ys =~= ys);
            assert(s.next_ids(0) + s.next_ids(b) =~= s.next_ids(b));
        } else if b == 0 {
            assert(xs + ys =~= xs);
            self.lemma_plain_entries(xs);
            assert(s.next_ids(a) + first.local.state.next_ids(0) =~= s.next_ids(a));
            self.lemma_first_batch(xs, 0);
        } else {
            self.lemma_first_batch(xs, b);
            self.lemma_second_batch(xs, ys);
        }
    }

    /// The ids that follow a batch.
    proof fn lemma_first_batch(self, xs: Seq<Option<MembershipView<NID, M>>>, b: int)
        requires
            self.valid(),
            0 <= b,
            self.can_propose(xs.len() + b),
            xs.len() > 0,
            forall|i: int| 0 <= i < xs.len() ==> #[trigger] xs[i] is None,
        ensures
            ({
                let s = self.local.state;
                let a = xs.len() as int;
                let first = self.entries_appended(self.proposed(xs));
                &&& first.local.state.log == s.log + s.next_ids(a)
                &&& first.local.state.vote == s.vote
                &&& next_index(first.local.state.last_log_id()) == next_index(s.last_log_id()) + a
                &&& s.next_ids(a + b) == s.next_ids(a) + first.local.state.next_ids(b)
                &&& first.can_propose(b)
            }),
    {
        let s = self.local.state;
        let a = xs.len() as int;
        let first = self.entries_appended(self.proposed(xs));
        self.lemma_plain_entries(xs);
        let ids = s.next_ids(a);
        let l = self.entries_taken(ids).leading();
        l.lemma_progressed_adds(self.config, Some(ids.last()));
        l.lemma_progressed_state(self.config, ids.last());
        assert(first.local.state.last_log_id() == Some(ids.last()));
        assert(s.next_ids(a + b) =~= ids + first.local.state.next_ids(b));
    }

    proof fn lemma_second_batch(
        self,
        xs: Seq<Option<MembershipView<NID, M>>>,
        ys: Seq<Option<MembershipView<NID, M>>>,
    )
        requires
            self.valid(),
            self.can_propose((xs.len() + ys.len()) as int),
            xs.len() > 0,
            ys.len() > 0,
            forall|i: int| 0 <= i < xs.len() ==> #[trigger] xs[i] is None,
            forall|i: int| 0 <= i < ys.len() ==> #[trigger] ys[i] is None,
        ensures
            ({
                let whole = self.entries_appended(self.proposed(xs + ys));
                let first = self.entries_appended(self.proposed(xs));
                whole.local.state == first.entries_appended(first.proposed(ys)).local.state
            }),
    {
        let s = self.local.state;
        let id = self.config.id;
        let (a, b) = (xs.len() as int, ys.len() as int);
        let all = xs + ys;
        assert forall|i: int| 0 <= i < all.len() implies #[trigger] all[i] is None by {
            if i >= a {
                assert(ys[i - a] is None);
            } else {
                assert(xs[i] is None);
            }
        }
        self.lemma_first_batch(xs, b);
        self.lemma_proposed(xs);
        self.lemma_plain_entries(xs);
        self.lemma_plain_entries(all);
        let first = self.entries_appended(self.proposed(xs));
        first.lemma_plain_entries(ys);
        let (ix, iw, iy) = (s.next_ids(a), s.next_ids(a + b), first.local.state.next_ids(b));
        let (x, y) = (ix.last(), iw.last());
        assert(iy.last() == y);
        let lx = self.entries_taken(ix).leading();
        let lw = self.entries_taken(iw).leading();
        let ly = first.entries_taken(iy).leading();
        lx.lemma_progressed_state(self.config, x);
        lw.lemma_progressed_state(self.config, y);
        ly.lemma_progressed_state(self.config, y);
        assert(s.log + iw =~= (s.log + ix) + iy);
        let p = (self.leader->0).progress;
        let p1 = (first.leader->0).progress;
        let px = lx.local_progressed(self.config, Some(x)).leader.progress;
        p1.lemma_same_entry(px, id);
        if let Some(e) = p.entry(id) {
            let pw = p.with(id, e.matched(y));
            assert(px == p.with(id, e.matched(x)));
            lemma_entry_with(p, id, e.matched(x));
            let f = p1.entry(id)->0;
            let p2 = p1.with(id, f.matched(y));
            lemma_with_matches(p1, px, id, f.matched(y), e.matched(y));
            assert(px.with(id, e.matched(y)).voters =~= pw.voters);
            assert(px.with(id, e.matched(y)).learners =~= pw.learners);
            assert(p2.matches_like(pw));
            p2.lemma_same_accepted(pw);
            let (gx, g) = (px.quorum_accepted(), pw.quorum_accepted());
            let log = lw.local.state.log;
            lw.local.state.lemma_positions();
            assert(log[s.log.len() + (a - 1)] == x);
            lemma_member_held(log, s.log.len() + (a - 1));
            lemma_log_ids_fit(log, x, y);
            assert(all_end_before(p.voters, x.index as int));
            lw.lemma_accepted_grows(self.config, x, y);
            lemma_holds_on_log(log, y);
            p.lemma_with_is_on(log, id, e.matched(y));
            pw.lemma_accepted_on_log(log);
            if gx matches Some(v) && v.leader_id == s.vote.leader() {
                lw.lemma_own_between(gx, g);
            }
            s.lemma_commits_twice(gx, g);
            assert(lw.local.state.commits(g) =~= (RaftStateView {
                log: s.log + iw,
                ..s.commits(g)
            }));
            assert(ly.local.state.commits(g) =~= (RaftStateView {
                log: s.log + iw,
                ..s.commits(gx).commits(g)
            }));
        }
    }
}

/// What a node is recorded to have is found again.
pub proof fn lemma_entry_with<NID: NodeId>(p: ProgressView<NID>, id: NID, e: ProgressEntry<NID>)
    requires
        p.entry(id) is Some,
    ensures
        p.with(id, e).entry(id) == Some(e),
{
    lemma_entry_of_with(p.voters, id, e);
    lemma_entry_of_with(p.learners, id, e);
}

proof fn lemma_entry_of_with<NID>(
    entries: Seq<(NID, ProgressEntry<NID>)>,
    id: NID,
    e: ProgressEntry<NID>,
)
    ensures
        entry_of(entries, id) is Some ==> entry_of(with_entry(entries, id, e), id) == Some(e),
        entry_of(entries, id) is None ==> entry_of(with_entry(entries, id, e), id) is None,
    decreases entries.len(),
{
    if entries.len() > 0 {
        lemma_entry_of_with(entries.drop_last(), id, e);
        assert(with_entry(entries, id, e).drop_last() =~= with_entry(entries.drop_last(), id, e));
    }
}

proof fn lemma_with_matches<NID: NodeId>(
    p: ProgressView<NID>,
    q: ProgressView<NID>,
    id: NID,
    e: ProgressEntry<NID>,
    f: ProgressEntry<NID>,
)
    requires
        p.matches_like(q),
        e.matching == f.matching,
    ensures
        p.with(id, e).matches_like(q.with(id, f)),
{
    lemma_with_entry_matches(p.voters, q.voters, id, e, f);
    lemma_with_entry_matches(p.learners, q.learners, id, e, f);
}

proof fn lemma_with_entry_matches<NID>(
    a: Seq<(NID, ProgressEntry<NID>)>,
    b: Seq<(NID, ProgressEntry<NID>)>,
    id: NID,
    e: ProgressEntry<NID>,
    f: ProgressEntry<NID>,
)
    requires
        match_alike(a, b),
        e.matching == f.matching,
    ensures
        match_alike(with_entry(a, id, e), with_entry(b, id, f)),
{
    let (c, d) = (with_entry(a, id, e), with_entry(b, id, f));
    assert forall|i: int| 0 <= i < c.len() implies (#[trigger] c[i]).0 == (#[trigger] d[i]).0
        && c[i].1.matching == d[i].1.matching by {
        assert(a[i].0 == b[i].0);
    }
}

impl<NID: NodeId> ProgressView<NID> {
    /// The voters that have the log up to and with `upto`, where the node `id` counts as having
    /// everything.
    pub open spec fn backed_by(self, id: NID, upto: Option<LogId<NID>>) -> Set<NID> {
        Set::new(
            |n: NID|
                exists|k: int|
                    0 <= k < self.voters.len() && (#[trigger] self.voters[k]).0 == n && (n == id
                        || !opt_precedes(self.voters[k].1.matching, upto)),
        )
    }

    proof fn lemma_backed_by_finite(self, id: NID, upto: Option<LogId<NID>>)
        ensures
            self.backed_by(id, upto).finite(),
    {
        let all = crate::leadership::ids_in(self.voters);
        vstd::seq_lib::seq_to_set_is_finite(all);
        assert forall|n: NID| #[trigger] self.backed_by(id, upto).contains(n)
            implies all.to_set().contains(n) by {
            let k = choose|k: int|
                0 <= k < self.voters.len() && (#[trigger] self.voters[k]).0 == n && (n == id
                    || !opt_precedes(self.voters[k].1.matching, upto));
            assert(all[k] == n);
        }
        lemma_len_subset(self.backed_by(id, upto), all.to_set());
    }

    /// Whom an entry is backed by depends only on what the other nodes are known to have.
    proof fn lemma_same_backed_by(self, other: Self, id: NID, upto: Option<LogId<NID>>)
        requires
            self.agrees_but_for(other, id),
        ensures
            self.backed_by(id, upto) == other.backed_by(id, upto),
    {
        assert forall|n: NID| #[trigger] self.backed_by(id, upto).contains(n)
            == other.backed_by(id, upto).contains(n) by {
            if self.backed_by(id, upto).contains(n) {
                let k = choose|k: int|
                    0 <= k < self.voters.len() && (#[trigger] self.voters[k]).0 == n && (n == id
                        || !opt_precedes(self.voters[k].1.matching, upto));
                assert(self.voters[k].0 == other.voters[k].0);
            }
            if other.backed_by(id, upto).contains(n) {
                let k = choose|k: int|
                    0 <= k < other.voters.len() && (#[trigger] other.voters[k]).0 == n && (n == id
                        || !opt_precedes(other.voters[k].1.matching, upto));
                assert(self.voters[k].0 == other.voters[k].0);
            }
        }
        assert(self.backed_by(id, upto) =~= other.backed_by(id, upto));
    }

    /// The same voters are known to have the same, but for the node `id`.
    pub open spec fn agrees_but_for(self, other: Self, id: NID) -> bool {
        &&& self.configs == other.configs
        &&& self.voters.len() == other.voters.len()
        &&& forall|k: int|
            0 <= k < self.voters.len() ==> (#[trigger] self.voters[k]).0 == (
            #[trigger] other.voters[k]).0 && (self.voters[k].0 == id
                || self.voters[k].1.matching == other.voters[k].1.matching)
    }
}

impl<NID: NodeId, M> LeadingView<NID, M> {
    /// What a quorum has accepted is committed: an entry of this leadership that another voter
    /// is recorded to have, and that a quorum backs if this node counts as having everything,
    /// is not after the committed position.
    pub open spec fn settled(self, config: EngineConfig<NID>) -> bool {
        let p = self.leader.progress;
        let s = self.local.state;
        forall|k: int|
            0 <= k < p.voters.len() && (#[trigger] p.voters[k]).0 != config.id ==> (
            p.voters[k].1.matching matches Some(m) ==> m.leader_id == s.vote.leader() && is_quorum(
                p.configs,
                p.backed_by(config.id, Some(m)),
            ) ==> !opt_precedes(s.committed, Some(m)))
    }

    /// What stays of the others, and commits no less, stays settled.
    proof fn lemma_stays_settled(self, after: Self, config: EngineConfig<NID>)
        requires
            self.settled(config),
            after.leader.progress.agrees_but_for(self.leader.progress, config.id),
            after.local.state.vote.leader() == self.local.state.vote.leader(),
            !opt_precedes(after.local.state.committed, self.local.state.committed),
        ensures
            after.settled(config),
    {
        let (p, q) = (self.leader.progress, after.leader.progress);
        let id = config.id;
        assert forall|k: int| 0 <= k < q.voters.len() && (#[trigger] q.voters[k]).0 != id && (
        q.voters[k].1.matching matches Some(m) && m.leader_id
            == after.local.state.vote.leader() && is_quorum(
            q.configs,
            q.backed_by(id, Some(m)),
        )) implies !opt_precedes(after.local.state.committed, q.voters[k].1.matching) by {
            let m = q.voters[k].1.matching;
            assert(p.voters[k].0 == q.voters[k].0);
            q.lemma_same_backed_by(p, id, m);
            lemma_order_chain(m, self.local.state.committed, after.local.state.committed);
        }
    }

    proof fn lemma_progress_keeps_settled(
        self,
        config: EngineConfig<NID>,
        upto: Option<LogId<NID>>,
    )
        requires
            self.settled(config),
        ensures
            self.local_progressed(config, upto).settled(config),
    {
        reveal(LeadingView::local_progressed);
        reveal(LeadingView::accepted_committed);
        let c = self.local.state.committed;
        lemma_opt_order(c, c);
        let after = self.local_progressed(config, upto);
        lemma_opt_order(c, after.local.state.committed);
        self.lemma_stays_settled(after, config);
    }

    proof fn lemma_initiated_keeps_settled(self, config: EngineConfig<NID>)
        requires
            self.settled(config),
        ensures
            self.replication_initiated(config).settled(config),
    {
        reveal(LeadingView::replication_initiated);
        let c = self.local.state.committed;
        lemma_opt_order(c, c);
        self.lemma_stays_settled(self.replication_initiated(config), config);
    }

    proof fn lemma_rebuilt_keeps_settled(self, config: EngineConfig<NID>)
        requires
            self.settled(config),
        ensures
            self.streams_rebuilt(config).settled(config),
    {
        reveal(LeadingView::streams_rebuilt);
        let c = self.local.state.committed;
        lemma_opt_order(c, c);
        self.lemma_stays_settled(self.streams_rebuilt(config), config);
    }

    proof fn lemma_blank_keeps_settled(self, config: EngineConfig<NID>)
        requires
            self.settled(config),
        ensures
            self.blank_appended(config).settled(config),
    {
        reveal(LeadingView::blank_appended);
        let c = self.local.state.committed;
        lemma_opt_order(c, c);
        self.lemma_stays_settled(self.with_blank(), config);
        self.with_blank().lemma_progress_keeps_settled(config, Some(self.next_log_id()));
    }

    /// Once this node counts as having its whole log, everything that a quorum has accepted is
    /// committed.
    proof fn lemma_progress_settles(self, config: EngineConfig<NID>, u: LogId<NID>)
        requires
            self.valid(),
            self.local.state.last_log_id() == Some(u),
            u.leader_id == self.local.state.vote.leader(),
            self.leader.progress.entry(config.id) matches Some(e) && opt_precedes(
                e.matching,
                Some(u),
            ),
        ensures
            self.local_progressed(config, Some(u)).settled(config),
    {
        let id = config.id;
        let p = self.leader.progress;
        let s = self.local.state;
        let e = p.entry(id)->0;
        let q = p.with(id, e.matched(u));
        let after = self.local_progressed(config, Some(u));
        self.lemma_progressed_state(config, u);
        s.lemma_positions();
        lemma_last_held(s.log);
        lemma_holds_on_log(s.log, u);
        p.lemma_with_is_on(s.log, id, e.matched(u));
        q.lemma_greatest_exists();
        q.lemma_accepted_on_log(s.log);
        let g = q.quorum_accepted();
        assert forall|k: int| 0 <= k < q.voters.len() && (#[trigger] q.voters[k]).0 != id && (
        q.voters[k].1.matching matches Some(m) && m.leader_id == s.vote.leader() && is_quorum(
            q.configs,
            q.backed_by(id, Some(m)),
        )) implies !opt_precedes(after.local.state.committed, q.voters[k].1.matching) by {
            let m = q.voters[k].1.matching;
            reveal(crate::validity::all_on_log);
            assert(on_log(s.log, m->0));
            assert(fit(s.log[s.log.len() - 1], m->0));
            lemma_opt_order(m, Some(u));
            assert forall|n: NID| #[trigger] q.backed_by(id, m).contains(n) implies q.matched_by(
                m,
            ).contains(n) by {
                let j = choose|j: int|
                    0 <= j < q.voters.len() && (#[trigger] q.voters[j]).0 == n && (n == id
                        || !opt_precedes(q.voters[j].1.matching, m));
                assert(q.voters[j].0 == n);
            }
            q.lemma_matched_by_finite(m);
            lemma_more_is_quorum(q.configs, q.backed_by(id, m), q.matched_by(m));
            assert(q.is_accepted(q.voters[k].1.matching));
            self.lemma_own_between(m, g);
            lemma_opt_order(s.committed, g);
            lemma_order_chain(m, g, s.committed);
        }
    }

    /// If a quorum needs other voters, and what they have is settled, this node alone commits
    /// nothing.
    proof fn lemma_alone_commits_nothing(self, config: EngineConfig<NID>, u: LogId<NID>)
        requires
            self.valid(),
            self.settled(config),
            !is_quorum(self.leader.progress.configs, set![config.id]),
            holds(self.local.state.log, u),
            all_end_before(self.leader.progress.voters, u.index as int),
            self.leader.progress.entry(config.id) matches Some(e) ==> opt_precedes(
                e.matching,
                Some(u),
            ),
        ensures
            self.local_progressed(config, Some(u)).local.state == self.local.state,
    {
        let id = config.id;
        let p = self.leader.progress;
        let s = self.local.state;
        self.lemma_progressed_state(config, u);
        if let Some(e) = p.entry(id) {
            let q = p.with(id, e.matched(u));
            q.lemma_greatest_exists();
            let g = q.quorum_accepted();
            if g matches Some(x) && x.leader_id == s.vote.leader() && opt_precedes(s.committed, g) {
                let k = choose|k: int|
                    0 <= k < q.voters.len() && (#[trigger] q.voters[k]).1.matching == g
                        && q.is_accepted(g);
                if q.voters[k].0 == id {
                    self.lemma_only_this_node(config, u, e.matched(u));
                } else {
                    assert(p.voters[k] == q.voters[k]);
                    assert forall|n: NID| #[trigger] q.matched_by(g).contains(n)
                        implies p.backed_by(id, g).contains(n) by {
                        let j = choose|j: int|
                            0 <= j < q.voters.len() && (#[trigger] q.voters[j]).0 == n
                                && !opt_precedes(q.voters[j].1.matching, g);
                        assert(p.voters[j].0 == n);
                    }
                    p.lemma_backed_by_finite(id, g);
                    lemma_more_is_quorum(p.configs, q.matched_by(g), p.backed_by(id, g));
                }
            }
        }
    }

    /// If a quorum needs other voters, an entry that no other voter has is not accepted.
    proof fn lemma_only_this_node(
        self,
        config: EngineConfig<NID>,
        u: LogId<NID>,
        e: ProgressEntry<NID>,
    )
        requires
            self.valid(),
            !is_quorum(self.leader.progress.configs, set![config.id]),
            holds(self.local.state.log, u),
            others_end_before(self.leader.progress.voters, config.id, u.index as int),
        ensures
            !self.leader.progress.with(config.id, e).is_accepted(Some(u)),
    {
        let id = config.id;
        let p = self.leader.progress;
        let q = p.with(id, e);
        if q.is_accepted(Some(u)) {
            assert forall|n: NID| #[trigger] q.matched_by(Some(u)).contains(n)
                implies set![id].contains(n) by {
                let j = choose|j: int|
                    0 <= j < q.voters.len() && (#[trigger] q.voters[j]).0 == n && !opt_precedes(
                        q.voters[j].1.matching,
                        Some(u),
                    );
                if n != id {
                    assert(p.voters[j] == q.voters[j]);
                    self.lemma_match_is_earlier(j, u);
                }
            }
            lemma_more_is_quorum(p.configs, q.matched_by(Some(u)), set![id]);
        }
    }
}

/// No node but `id` is known to have an entry at or after an index.
pub open spec fn others_end_before<NID>(
    entries: Seq<(NID, ProgressEntry<NID>)>,
    id: NID,
    end: int,
) -> bool {
    forall|i: int|
        0 <= i < entries.len() && (#[trigger] entries[i]).0 != id ==> next_index(
            entries[i].1.matching,
        ) <= end
}

impl<NID: NodeId, M> EngineView<NID, M> {
    /// If this node leads, what a quorum has accepted is committed.
    pub open spec fn settled(self) -> bool {
        self.leader is Some ==> self.leading().settled(self.config)
    }

    /// While a quorum needs other voters, a leader commits nothing by appending entries
    /// without a membership, provided that what a quorum has accepted is committed already.
    pub proof fn law_append_alone_commits_nothing(
        self,
        memberships: Seq<Option<MembershipView<NID, M>>>,
    )
        requires
            self.valid(),
            self.in_step(),
            self.settled(),
            self.can_propose(memberships.len() as int),
            !is_quorum(
                self.local.state.membership.effective.membership.configs,
                set![self.config.id],
            ),
            forall|i: int| 0 <= i < memberships.len() ==> #[trigger] memberships[i] is None,
        ensures
            ({
                let after = self.entries_appended(self.proposed(memberships)).local.state;
                &&& after.committed == self.local.state.committed
                &&& after.membership == self.local.state.membership
            }),
    {
        if memberships.len() > 0 {
            self.lemma_plain_entries(memberships);
            let ids = self.local.state.next_ids(memberships.len() as int);
            let l = self.entries_taken(ids).leading();
            let c = self.local.state.committed;
            lemma_opt_order(c, c);
            self.leading().lemma_stays_settled(l, self.config);
            l.lemma_alone_commits_nothing(self.config, ids.last());
        }
    }
}

impl<NID: NodeId, M> EngineView<NID, M> {
    /// A candidacy starts settled: no other node is known to have anything.
    proof fn lemma_candidacy_settled(self)
        ensures
            (LeadingView { local: self.local, leader: self.candidacy() }).settled(self.config),
    {
        let s = self.local.state;
        let l = LeaderView::started(s.vote, s.membership.effective.membership, s.last_log_id());
        let p = self.candidacy().progress;
        let none = ProgressView::<NID>::none();
        assert forall|k: int| 0 <= k < p.voters.len() && (#[trigger] p.voters[k]).0
            != self.config.id implies p.voters[k].1.matching is None by {
            assert(none.entry(l.progress.voters[k].0) is None);
            assert(l.progress.voters[k].1.matching is None);
        }
    }

    proof fn lemma_took_side_settled(self)
        requires
            self.settled(),
        ensures
            self.took_side().settled(),
    {
        let c = self.local.state.committed;
        lemma_opt_order(c, c);
        let after = self.took_side();
        if self.local.state.is_leading(self.config.id) {
            if self.leader matches Some(l) && l.vote.leader() == self.local.state.vote.leader() {
                self.leading().lemma_stays_settled(after.leading(), self.config);
            } else {
                self.lemma_candidacy_settled();
                LeadingView { local: self.local, leader: self.candidacy() }.lemma_stays_settled(
                    after.leading(),
                    self.config,
                );
            }
        }
    }

    proof fn lemma_saw_vote_settled(self, vote: Vote<NID>)
        requires
            self.in_step(),
            self.settled(),
        ensures
            self.saw_vote(vote).settled(),
    {
        let s = self.local.state;
        if s.vote.precedes(vote) {
            let e = EngineView {
                local: LocalView {
                    state: RaftStateView { vote, ..s },
                    output: self.local.output.push(CommandView::SaveVote { vote }),
                },
                ..self
            };
            lemma_opt_order(s.committed, s.committed);
            if vote.leader() == s.vote.leader() {
                if self.leader is Some {
                    self.leading().lemma_stays_settled(e.leading(), self.config);
                }
                e.lemma_took_side_settled();
            } else {
                // The node works for an earlier leadership, if for any, and gives it up.
                if let Some(l) = self.leader {
                    lemma_leader_order_is_total(l.vote.leader(), s.vote.leader());
                    lemma_leader_order_is_total(vote.leader(), s.vote.leader());
                    assert(l.vote.leader() != vote.leader());
                }
                EngineView { leader: None, ..e }.lemma_took_side_settled();
                let fresh = EngineView { leader: None, ..e }.took_side();
                assert(e.took_side().leader == fresh.leader);
                assert(e.took_side().local.state.vote == fresh.local.state.vote);
                assert(e.took_side().local.state.committed == fresh.local.state.committed);
                if fresh.leader is Some {
                    fresh.leading().lemma_stays_settled(e.took_side().leading(), self.config);
                }
            }
        } else {
            self.lemma_took_side_settled();
        }
    }

    proof fn lemma_office_settled(self)
        requires
            self.in_step(),
            self.settled(),
            self.local.state.is_leading(self.config.id),
        ensures
            self.leader_established().settled(),
    {
        reveal(EngineView::leader_established);
        let vote = self.local.state.vote.granted();
        self.lemma_office();
        self.lemma_saw_vote_settled(vote);
        let l = self.saw_vote(vote).leading();
        let a = l.streams_rebuilt(self.config);
        let b = a.blank_appended(self.config);
        l.lemma_rebuilt_keeps_settled(self.config);
        a.lemma_blank_keeps_settled(self.config);
        b.lemma_initiated_keeps_settled(self.config);
    }

    proof fn lemma_elected_settled(self)
        requires
            self.stands_by_vote(),
            self.local.state.vote.term < u64::MAX,
        ensures
            self.elected().settled(),
    {
        reveal(EngineView::elected);
        let vote = self.next_vote();
        let e = self.stood();
        self.lemma_stood();
        let cast = EngineView {
            local: LocalView {
                state: RaftStateView { vote, ..self.local.state },
                output: self.local.output.push(CommandView::SaveVote { vote }),
            },
            ..self
        };
        if let Some(l) = self.leader {
            assert(l.vote.leader() != vote.leader());
        }
        cast.lemma_candidacy_settled();
        let c = self.local.state.committed;
        lemma_opt_order(c, c);
        LeadingView { local: cast.local, leader: cast.candidacy() }.lemma_stays_settled(
            e.leading(),
            self.config,
        );
        if (e.leader->0).is_granted() {
            e.lemma_office_settled();
        } else {
            e.leading().lemma_stays_settled(self.elected().leading(), self.config);
        }
    }

    proof fn lemma_initialize_settled(self, membership: Option<MembershipView<NID, M>>)
        requires
            self.in_step(),
            self.settled(),
        ensures
            self.initialize_tried(membership).settled(),
    {
        let s = self.local.state;
        lemma_opt_order(s.committed, s.committed);
        if s.is_pristine() {
            let id = s.next_ids(1)[0];
            let e = self.entries_taken(seq![id]);
            if self.leader is Some {
                self.leading().lemma_stays_settled(e.leading(), self.config);
            }
            if let Some(m) = membership {
                let em = EffectiveMembershipView { log_id: Some(id), membership: m };
                let in_force = EngineView {
                    local: LocalView {
                        state: RaftStateView {
                            membership: e.local.state.membership.appended(em),
                            ..e.local.state
                        },
                        ..e.local
                    },
                    ..e
                }.commanded(CommandView::UpdateMembership { membership: em });
                let ready = EngineView {
                    local: in_force.local.role_updated(self.config.id),
                    ..in_force
                }.commanded(CommandView::MoveInputCursorBy { n: 1 });
                ready.lemma_elected_settled();
            }
        }
    }

    proof fn lemma_vote_answered_settled(self, target: NID, resp: VoteResponse<NID>)
        requires
            self.valid(),
            self.in_step(),
            self.settled(),
            self.takes_answer(target, resp),
        ensures
            self.vote_answered(target, resp).settled(),
    {
        let s = self.local.state;
        let after = self.vote_answered(target, resp);
        lemma_opt_order(s.committed, s.committed);
        if let Some(l) = self.leader {
            if resp.vote_granted {
                let e = EngineView { leader: Some(l.granted(target)), ..self };
                self.leading().lemma_stays_settled(e.leading(), self.config);
                if l.granted(target).is_granted() {
                    e.lemma_office_settled();
                }
            } else if s.vote.precedes(resp.vote) && s.vote.leader() != resp.vote.leader() {
                // No entry in the log is of a leadership that is later than the vote was.
                let p = l.progress;
                assert forall|k: int| 0 <= k < p.voters.len() && (
                (#[trigger] p.voters[k]).1.matching matches Some(m)) implies (
                p.voters[k].1.matching->0).leader_id != resp.vote.leader() by {
                    let m = p.voters[k].1.matching->0;
                    reveal(crate::validity::all_on_log);
                    s.lemma_positions();
                    assert(on_log(s.log, m));
                    let last = s.log.last();
                    assert(fit(s.log[s.log.len() - 1], m));
                    lemma_leader_order_is_total(m.leader_id, last.leader_id);
                    lemma_leader_order_is_total(last.leader_id, s.vote.leader());
                    lemma_leader_order_is_total(s.vote.leader(), resp.vote.leader());
                }
            } else {
                self.leading().lemma_stays_settled(after.leading(), self.config);
            }
        }
    }

    proof fn lemma_proposed_settled(self, memberships: Seq<Option<MembershipView<NID, M>>>)
        requires
            self.valid(),
            self.in_step(),
            self.settled(),
            self.can_propose(memberships.len() as int),
            self.stays_member(memberships),
        ensures
            self.entries_appended(self.proposed(memberships)).settled(),
    {
        let n = memberships.len() as int;
        if n > 0 {
            let s = self.local.state;
            let id = self.config.id;
            let entries = self.proposed(memberships);
            let ids = s.next_ids(n);
            let last = ids.last();
            assert(ids_of(entries) =~= ids);
            self.lemma_entries_taken(n);
            let l = self.entries_taken(ids).leading();
            let a = l.absorbed(self.config, entries, n);
            let p = a.local_progressed(self.config, Some(last));
            let r = p.replication_initiated(self.config);
            lemma_opt_order(s.committed, s.committed);
            self.leading().lemma_stays_settled(l, self.config);
            if forall|i: int| 0 <= i < n ==> #[trigger] memberships[i] is None {
                lemma_nothing_absorbed(l, self.config, entries, n);
                a.lemma_progress_keeps_settled(self.config, Some(last));
            } else {
                self.leading().lemma_ends_with_log();
                l.lemma_absorbed_ends_before(self.config, entries, n, last.index as int);
                l.lemma_absorbed_leads(self.config, entries, n);
                l.lemma_absorbed_log(self.config, entries, n);
                l.lemma_absorbed_serves(self.config, entries, n);
                assert(a.local.state.vote == s.vote) by {
                    reveal(LeadingView::serves);
                }
                a.local.state.lemma_positions();
                lemma_last_held(a.local.state.log);
                a.lemma_entry_is_later(self.config, last);
                p.lemma_initiated_matches(self.config);
                r.leader.progress.lemma_same_entry(p.leader.progress, id);
                a.lemma_progressed_state(self.config, last);
                a.lemma_progress_settles(self.config, last);
            }
            p.lemma_initiated_keeps_settled(self.config);
            let after = self.entries_appended(entries);
            lemma_opt_order(r.local.state.committed, r.local.state.committed);
            r.lemma_stays_settled(after.leading(), self.config);
        }
    }

    proof fn lemma_startup_settled(self)
        requires
            self.settled(),
        ensures
            self.started_up().settled(),
    {
        let c = self.local.state.committed;
        lemma_opt_order(c, c);
        if self.local.state.is_leader(self.config.id) {
            self.lemma_took_side_settled();
            let l = self.took_side().leading();
            l.lemma_rebuilt_keeps_settled(self.config);
            l.streams_rebuilt(self.config).lemma_initiated_keeps_settled(self.config);
        } else if self.leader is Some {
            self.leading().lemma_stays_settled(self.started_up().leading(), self.config);
        }
    }

    /// If there are memberships among the proposed entries, the node is still among the nodes
    /// of the last of them.
    pub open spec fn stays_member(self, memberships: Seq<Option<MembershipView<NID, M>>>) -> bool {
        ||| forall|i: int| 0 <= i < memberships.len() ==> #[trigger] memberships[i] is None
        ||| (self.entries_appended(self.proposed(memberships)).leader->0).progress.entry(
            self.config.id,
        ) is Some
    }

    /// Every event that can happen leaves everything committed that a quorum is recorded to
    /// have accepted, if it was so before. The one event of which this does not hold is that
    /// a leader proposes a membership without itself: it takes no note of its own progress
    /// then, and so does not look at what the new quorums have.
    pub proof fn law_every_event_keeps_settled(self, event: Event<NID, M>)
        requires
            self.valid(),
            self.in_step(),
            self.settled(),
            self.admits(event),
            event matches Event::Propose { memberships } ==> self.stays_member(memberships),
        ensures
            self.after(event).settled(),
    {
        reveal(EngineView::after);
        let c = self.local.state.committed;
        lemma_opt_order(c, c);
        match event {
            Event::Startup => {
                self.lemma_startup_settled();
            },
            Event::Initialize { membership } => {
                self.lemma_initialize_settled(membership);
            },
            Event::Elect => {
                self.lemma_elected_settled();
            },
            Event::VoteReq { req } => {
                self.lemma_saw_vote_settled(req.vote);
            },
            Event::VoteResp { target, resp } => {
                self.lemma_vote_answered_settled(target, resp);
            },
            Event::Propose { memberships } => {
                self.lemma_proposed_settled(memberships);
            },
            Event::AppendReq { vote, prev, entries, leader_committed } => {
                lemma_vote_order_is_total(vote, self.local.state.vote);
            },
            Event::StepDown => {},
            Event::Snapshot { meta } => {
                if self.leader is Some {
                    let after = self.snapshot_finished(meta);
                    self.leading().lemma_stays_settled(after.leading(), self.config);
                }
            },
        }
    }
}

impl<NID: NodeId, M> LeadingView<NID, M> {
    /// The node leads a cluster in which quorums need other voters, none of which is known to
    /// have an entry at or after `start`; and it has committed nothing at or after `end`.
    spec fn waits(self, config: EngineConfig<NID>, start: int, end: int) -> bool {
        &&& self.valid()
        &&& self.in_step()
        &&& !is_quorum(
            self.local.state.membership.effective.membership.configs,
            set![config.id],
        )
        &&& others_end_before(self.leader.progress.voters, config.id, start)
        &&& others_end_before(self.leader.progress.learners, config.id, start)
        &&& next_index(self.local.state.committed) <= end
    }

    /// A node that waits commits nothing of its own.
    proof fn lemma_waits_on(
        self,
        config: EngineConfig<NID>,
        u: LogId<NID>,
        start: int,
        end: int,
    )
        requires
            self.waits(config, start, end),
            0 <= start <= end,
            start <= u.index,
            holds(self.local.state.log, u),
        ensures
            self.local_progressed(config, Some(u)).waits(config, start, end),
    {
        let id = config.id;
        let p = self.leader.progress;
        let after = self.local_progressed(config, Some(u));
        self.lemma_local_progressed(config, Some(u));
        self.lemma_local_progressed_serves(config, Some(u));
        assert(after.in_step()) by {
            reveal(LeadingView::serves);
        }
        reveal(LeadingView::local_progressed);
        reveal(LeadingView::accepted_committed);
        if let Some(e) = p.entry(id) {
            if opt_precedes(e.matching, Some(u)) {
                let q = p.with(id, e.matched(u));
                q.lemma_greatest_exists();
                let g = q.quorum_accepted();
                if g is Some {
                    let k = choose|k: int|
                        0 <= k < q.voters.len() && (#[trigger] q.voters[k]).1.matching == g
                            && q.is_accepted(g);
                    if q.voters[k].0 == id {
                        self.lemma_only_this_node(config, u, e.matched(u));
                    } else {
                        assert(p.voters[k] == q.voters[k]);
                    }
                }
            }
        }
    }

    /// A membership under which quorums need other voters makes the node wait.
    proof fn lemma_membership_waits(
        self,
        config: EngineConfig<NID>,
        log_id: LogId<NID>,
        m: MembershipView<NID, M>,
        start: int,
        end: int,
    )
        requires
            self.valid(),
            self.in_step(),
            0 <= start,
            !is_quorum(m.configs, set![config.id]),
            others_end_before(self.leader.progress.voters, config.id, start),
            others_end_before(self.leader.progress.learners, config.id, start),
            next_index(self.local.state.committed) <= end,
        ensures
            self.membership_appended(config, log_id, m).waits(config, start, end),
    {
        let after = self.membership_appended(config, log_id, m);
        self.lemma_membership_appended(config, log_id, m);
        self.lemma_membership_appended_serves(config, log_id, m);
        assert(after.in_step()) by {
            reveal(LeadingView::serves);
        }
        reveal(LeadingView::membership_appended);
        reveal(LeadingView::streams_rebuilt);
        reveal(LeadingView::replication_initiated);
        let id = config.id;
        let p = self.leader.progress;
        let default = ProgressEntry::unknown(next_index(self.local.state.last_log_id()));
        let q = p.for_membership(m, default);
        assert forall|i: int| 0 <= i < q.voters.len() && (#[trigger] q.voters[i]).0 != id
            implies next_index(q.voters[i].1.matching) <= start by {
            lemma_other_ends_before(p.voters, id, q.voters[i].0, start);
            lemma_other_ends_before(p.learners, id, q.voters[i].0, start);
        }
        assert forall|i: int| 0 <= i < q.learners.len() && (#[trigger] q.learners[i]).0 != id
            implies next_index(q.learners[i].1.matching) <= start by {
            lemma_other_ends_before(p.voters, id, q.learners[i].0, start);
            lemma_other_ends_before(p.learners, id, q.learners[i].0, start);
        }
        let r = q.stopped(id);
        assert(others_end_before(r.voters, id, start));
        assert(others_end_before(r.learners, id, start));
    }

    /// While the entries from a membership on take effect, a node that waits goes on waiting.
    proof fn lemma_absorbed_waits(
        self,
        config: EngineConfig<NID>,
        entries: Seq<EntryView<NID, M>>,
        k: int,
        n: int,
        start: int,
    )
        requires
            self.valid(),
            self.in_step(),
            self.ends_before(start),
            0 <= start,
            0 <= k < n <= entries.len(),
            forall|i: int| 0 <= i < k ==> (#[trigger] entries[i]).membership is None,
            entries[k].membership is Some,
            forall|i: int|
                k <= i < entries.len() ==> ((#[trigger] entries[i]).membership matches Some(m)
                    ==> !is_quorum(m.configs, set![config.id])),
            forall|i: int|
                0 <= i < entries.len() ==> (#[trigger] entries[i]).log_id.index == start + i
                    && holds(self.local.state.log, entries[i].log_id),
        ensures
            self.absorbed(config, entries, n).waits(config, start, start + k),
        decreases n,
    {
        let l = self.absorbed(config, entries, n - 1);
        let last = entries[n - 1];
        let log_id = last.log_id;
        self.lemma_absorbed_log(config, entries, n - 1);
        self.lemma_absorbed_leads(config, entries, n - 1);
        if n - 1 > k {
            self.lemma_absorbed_waits(config, entries, k, n - 1, start);
        } else {
            lemma_nothing_absorbed(self, config, entries, k);
        }
        if let Some(m) = last.membership {
            let before = log_id.index - 1;
            let log = l.local.state.log;
            let prev = id_at(log, before);
            l.local.state.lemma_positions();
            lemma_id_at_held(log, before);
            l.lemma_local_progressed(config, prev);
            l.lemma_local_progressed_serves(config, prev);
            let p = if log_id.index > 0 {
                l.local_progressed(config, prev)
            } else {
                l
            };
            assert(p.in_step()) by {
                reveal(LeadingView::serves);
            }
            if log_id.index > 0 {
                if n - 1 > k {
                    assert(entries[n - 2].log_id.index == start + (n - 2));
                    assert(prev == Some(entries[n - 2].log_id));
                    l.lemma_waits_on(config, prev->0, start, start + k);
                } else {
                    l.lemma_progress_ends_before(config, prev, start + k);
                    l.lemma_others_stay(config, prev, start);
                }
            }
            p.lemma_membership_waits(config, log_id, m, start, start + k);
        }
    }

    /// The progress of this node leaves that of the others alone.
    proof fn lemma_others_stay(self, config: EngineConfig<NID>, upto: Option<LogId<NID>>, end: int)
        requires
            others_end_before(self.leader.progress.voters, config.id, end),
            others_end_before(self.leader.progress.learners, config.id, end),
        ensures
            ({
                let p = self.local_progressed(config, upto).leader.progress;
                &&& others_end_before(p.voters, config.id, end)
                &&& others_end_before(p.learners, config.id, end)
            }),
    {
        reveal(LeadingView::local_progressed);
        reveal(LeadingView::accepted_committed);
    }
}

proof fn lemma_other_ends_before<NID>(
    entries: Seq<(NID, ProgressEntry<NID>)>,
    id: NID,
    other: NID,
    end: int,
)
    requires
        others_end_before(entries, id, end),
        other != id,
    ensures
        entry_of(entries, other) matches Some(e) ==> next_index(e.matching) <= end,
    decreases entries.len(),
{
    if entries.len() > 0 {
        let front = entries.drop_last();
        assert forall|i: int| 0 <= i < front.len() && (#[trigger] front[i]).0 != id
            implies next_index(front[i].1.matching) <= end by {
            assert(entries[i] == front[i]);
        }
        assert(entries[entries.len() - 1] == entries.last());
        lemma_other_ends_before(front, id, other, end);
    }
}

impl<NID: NodeId, M> EngineView<NID, M> {
    /// From a membership on under which quorums need other voters, a leader commits nothing of
    /// what it appends, unless a later membership makes it the only voter again.
    pub proof fn law_nothing_is_committed_from_membership_on(
        self,
        memberships: Seq<Option<MembershipView<NID, M>>>,
        k: int,
    )
        requires
            self.valid(),
            self.in_step(),
            self.can_propose(memberships.len() as int),
            0 <= k < memberships.len(),
            forall|i: int| 0 <= i < k ==> #[trigger] memberships[i] is None,
            memberships[k] is Some,
            forall|i: int|
                k <= i < memberships.len() ==> (#[trigger] memberships[i] matches Some(m)
                    ==> !is_quorum(m.configs, set![self.config.id])),
        ensures
            next_index(
                self.entries_appended(self.proposed(memberships)).local.state.committed,
            ) <= next_index(self.local.state.last_log_id()) + k,
    {
        let n = memberships.len() as int;
        let s = self.local.state;
        let start = next_index(s.last_log_id());
        let entries = self.proposed(memberships);
        let ids = s.next_ids(n);
        let last = ids.last();
        assert(ids_of(entries) =~= ids);
        self.lemma_entries_taken(n);
        let l = self.entries_taken(ids).leading();
        self.leading().lemma_serves_same(l);
        assert(l.in_step()) by {
            reveal(LeadingView::serves);
        }
        self.leading().lemma_ends_with_log();
        l.local.state.lemma_positions();
        let log = l.local.state.log;
        assert forall|i: int| 0 <= i < entries.len() implies (#[trigger] entries[i]).log_id.index
            == start + i && holds(log, entries[i].log_id) by {
            assert(log[s.log.len() + i] == ids[i]);
            lemma_member_held(log, s.log.len() + i);
        }
        assert forall|i: int| 0 <= i < k implies (#[trigger] entries[i]).membership is None by {
            assert(memberships[i] is None);
        }
        assert(entries[k].membership == memberships[k]);
        assert forall|i: int| k <= i < entries.len() implies (
        (#[trigger] entries[i]).membership matches Some(m) ==> !is_quorum(
            m.configs,
            set![self.config.id],
        )) by {
            assert(entries[i].membership == memberships[i]);
        }
        l.lemma_absorbed_waits(self.config, entries, k, n, start);
        l.lemma_absorbed_log(self.config, entries, n);
        let a = l.absorbed(self.config, entries, n);
        a.lemma_waits_on(self.config, last, start, start + k);
        a.local_progressed(self.config, Some(last)).lemma_initiated_adds(self.config);
    }

    /// If a sole voter proposes entries and then memberships under which quorums need others,
    /// it commits the entries before the first membership, and nothing else.
    pub proof fn law_growing_cluster_commits_up_to_membership(
        self,
        memberships: Seq<Option<MembershipView<NID, M>>>,
        k: int,
    )
        requires
            self.valid(),
            self.in_step(),
            self.can_propose(memberships.len() as int),
            self.local.state.membership.effective.membership.is_sole_voter(self.config.id),
            0 < k < memberships.len(),
            forall|i: int| 0 <= i < k ==> #[trigger] memberships[i] is None,
            memberships[k] is Some,
            forall|i: int|
                k <= i < memberships.len() ==> (#[trigger] memberships[i] matches Some(m)
                    ==> !is_quorum(m.configs, set![self.config.id])),
        ensures
            self.entries_appended(self.proposed(memberships)).local.state.committed == Some(
                self.local.state.next_ids(memberships.len() as int)[k - 1],
            ),
    {
        let n = memberships.len() as int;
        let s = self.local.state;
        let entries = self.proposed(memberships);
        let ids = s.next_ids(n);
        let after = self.entries_appended(entries);
        self.law_entries_before_membership_are_committed(memberships, k);
        self.law_nothing_is_committed_from_membership_on(memberships, k);
        self.lemma_proposed(memberships);
        after.local.state.lemma_positions();
        assert(ids_of(entries) =~= ids);
        let l = self.entries_taken(ids).leading();
        let a = l.absorbed(self.config, entries, n);
        l.lemma_absorbed_log(self.config, entries, n);
        a.lemma_progressed_adds(self.config, Some(entries.last().log_id));
        a.local_progressed(self.config, Some(entries.last().log_id)).lemma_initiated_adds(
            self.config,
        );
        let log = after.local.state.log;
        assert(log == s.log + ids);
        let j = s.log.len() + (k - 1);
        assert(log[j] == ids[k - 1]);
        lemma_member_held(log, j);
        let c = after.local.state.committed->0;
        assert(c.index == ids[k - 1].index);
    }
}

} // verus!
