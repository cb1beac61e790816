//! What the notions mean that everything else is stated with: the orders of votes and log ids,
//! logs, quorums, the part that a node plays, and the metrics.

use crate::command::{CommandView, OutputView};
use crate::commit::lemma_entry_with;
use crate::log_id::{
    cut_at, holds, id_at, is_log, last_of, lemma_leader_order_is_total, lemma_log_by_neighbours,
    lemma_log_id_order_is_total, next_index, opt_precedes, purged_to, LeaderId, LogId,
};
use crate::membership::{is_quorum, EffectiveMembershipView, MembershipStateView, MembershipView};
use crate::node::NodeId;
use crate::node_set::{in_order, is_majority, lemma_order_exists};
use crate::progress::{entry_of, probe, with_entry, ProgressEntry, ProgressView};
use crate::request::{shown_log, shows_log};
use crate::raft_state::{positions_agree, RaftStateView, ServerState};
use crate::validity::{lemma_cut_log, lemma_cut_log_holds, lemma_member_held, lemma_purged_log};
use crate::vote::Vote;
use vstd::prelude::*;

verus! {

/// Votes are ordered by term, then by node, and the vote of a leader comes behind its vote as
/// candidate.
pub proof fn law_order_of_votes<NID: NodeId>(a: Vote<NID>, b: Vote<NID>)
    ensures
        a.term < b.term ==> a.precedes(b) && !b.precedes(a),
        a.term == b.term && a.node_id.rank() < b.node_id.rank() ==> a.precedes(b) && !b.precedes(a),
        a.term == b.term && a.node_id == b.node_id ==> (a.precedes(b) <==> !a.committed
            && b.committed),
        a.leader() == (LeaderId { term: a.term, node_id: a.node_id }),
        a.granted() == (Vote { term: a.term, node_id: a.node_id, committed: true }),
        Vote::<NID>::least() == (Vote { term: 0, node_id: NID::default_spec(), committed: false }),
{
    if a.node_id.rank() == b.node_id.rank() {
        NID::rank_is_injective(a.node_id, b.node_id);
    }
}

/// Log ids are ordered by the term of the leader, then by the node of the leader, then by index.
/// No position comes before every other.
pub proof fn law_order_of_log_ids<NID: NodeId>(a: LogId<NID>, b: LogId<NID>)
    ensures
        a.leader_id.term < b.leader_id.term ==> a.precedes(b) && !b.precedes(a),
        a.leader_id.term == b.leader_id.term && a.leader_id.node_id.rank()
            < b.leader_id.node_id.rank() ==> a.precedes(b) && !b.precedes(a),
        a.leader_id == b.leader_id ==> (a.precedes(b) <==> a.index < b.index),
        opt_precedes(Some(a), Some(b)) <==> a.precedes(b),
        opt_precedes(None, Some(a)),
        !opt_precedes(Some(a), None),
        !opt_precedes::<NID>(None, None),
        next_index(Some(a)) == a.index + 1,
        next_index::<NID>(None) == 0,
{
    lemma_leader_order_is_total(a.leader_id, b.leader_id);
}

/// In a log the index grows by one from each entry to the next, and no entry is of an earlier
/// leader than the one before it. What the log has at an index is the entry with that index.
pub proof fn law_positions_in_log<NID: NodeId>(log: Seq<LogId<NID>>, i: int, x: LogId<NID>)
    requires
        is_log(log),
        0 <= i < log.len(),
    ensures
        log[i].index == log[0].index + i,
        i > 0 ==> !log[i].leader_id.precedes(log[i - 1].leader_id),
        id_at(log, log[i].index as int) == Some(log[i]),
        last_of(log) == Some(log[log.len() - 1]),
        holds(log, x) <==> log.contains(x),
        id_at(log, log[0].index - 1) is None,
        id_at(log, log[log.len() - 1].index + 1) is None,
{
    lemma_member_held(log, i);
    assert(log[log.len() - 1].index == log[0].index + (log.len() - 1));
    if holds(log, x) {
        assert(log[x.index - log[0].index] == x);
    }
    if log.contains(x) {
        let k = choose|k: int| 0 <= k < log.len() && log[k] == x;
        lemma_member_held(log, k);
    }
}

/// Cutting a log at an index deletes the entries from there on, and no others.
pub proof fn law_cut_keeps_what_is_before<NID: NodeId>(log: Seq<LogId<NID>>, at: int, x: LogId<NID>)
    requires
        is_log(log),
    ensures
        is_log(cut_at(log, at)),
        cut_at(log, at).contains(x) <==> log.contains(x) && x.index < at,
{
    lemma_cut_log(log, at);
    let cut = cut_at(log, at);
    if log.len() > 0 {
        assert(log[log.len() - 1].index == log[0].index + (log.len() - 1));
    }
    if log.contains(x) && x.index < at {
        let k = choose|k: int| 0 <= k < log.len() && log[k] == x;
        lemma_member_held(log, k);
        lemma_cut_log_holds(log, at, x);
        assert(cut[x.index - cut[0].index] == x);
    }
    if cut.contains(x) {
        let k = choose|k: int| 0 <= k < cut.len() && cut[k] == x;
        assert(log[k] == x);
        assert(cut[cut.len() - 1].index == cut[k].index + (cut.len() - 1 - k));
    }
}

/// Purging a log up to an entry of it deletes the entries before that one, and no others: the
/// entry itself stays as the mark of the last purged one.
pub proof fn law_purge_keeps_what_is_behind<NID: NodeId>(
    log: Seq<LogId<NID>>,
    upto: LogId<NID>,
    x: LogId<NID>,
)
    requires
        is_log(log),
        log.contains(upto),
    ensures
        is_log(purged_to(log, upto)),
        purged_to(log, upto)[0] == upto,
        purged_to(log, upto).contains(x) <==> log.contains(x) && upto.index <= x.index,
{
    let k = choose|k: int| 0 <= k < log.len() && log[k] == upto;
    lemma_member_held(log, k);
    lemma_purged_log(log, upto);
    let short = purged_to(log, upto);
    let from = upto.index - log[0].index;
    assert(log[log.len() - 1].index == log[0].index + (log.len() - 1));
    if log.contains(x) && upto.index <= x.index {
        let j = choose|j: int| 0 <= j < log.len() && log[j] == x;
        assert(log[j].index == log[0].index + j);
        assert(short[j - from] == x);
    }
    if short.contains(x) {
        let j = choose|j: int| 0 <= j < short.len() && short[j] == x;
        assert(log[from + j] == x);
        assert(log[from + j].index == log[0].index + (from + j));
    }
}

/// Purging beyond the end of a log leaves only the mark of the last purged entry.
pub proof fn law_purge_beyond_end<NID: NodeId>(log: Seq<LogId<NID>>, upto: LogId<NID>)
    requires
        log.len() > 0 ==> log[log.len() - 1].index < upto.index,
    ensures
        purged_to(log, upto) == seq![upto],
{
}

/// A majority is more than half of a configuration. A quorum is a majority of every
/// configuration. Voters are the members of all configurations, learners the other nodes.
pub proof fn law_quorums<NID, M>(m: MembershipView<NID, M>, ids: Set<NID>, id: NID, i: int)
    requires
        0 <= i < m.configs.len(),
    ensures
        is_majority(m.configs[i], ids) <==> 2 * m.configs[i].intersect(ids).len()
            > m.configs[i].len(),
        is_quorum(m.configs, ids) ==> 2 * m.configs[i].intersect(ids).len() > m.configs[i].len(),
        (forall|k: int|
            0 <= k < m.configs.len() ==> 2 * (#[trigger] m.configs[k]).intersect(ids).len()
                > m.configs[k].len()) ==> is_quorum(m.configs, ids),
        m.configs[i].contains(id) ==> m.voters().contains(id),
        m.voters().contains(id) ==> exists|k: int|
            0 <= k < m.configs.len() && (#[trigger] m.configs[k]).contains(id),
        m.learners().contains(id) <==> m.nodes.contains_key(id) && !m.voters().contains(id),
{
}

/// The part that a node plays: a node that does not vote is a learner; a voter is leader if its
/// vote is for itself and granted, candidate if it is for itself and not granted yet, and
/// follower otherwise.
pub proof fn law_roles<NID: NodeId, M>(s: RaftStateView<NID, M>, id: NID)
    ensures
        s.role_of(id) == ServerState::Learner
            <==> !s.membership.effective.membership.voters().contains(id),
        s.role_of(id) == ServerState::Leader
            <==> s.membership.effective.membership.voters().contains(id) && s.vote.node_id == id
            && s.vote.committed,
        s.role_of(id) == ServerState::Candidate
            <==> s.membership.effective.membership.voters().contains(id) && s.vote.node_id == id
            && !s.vote.committed,
        s.is_leader(id) <==> s.vote.node_id == id && s.vote.committed,
        s.is_leading(id) <==> s.vote.node_id == id,
        s.is_voter(id) <==> s.membership.effective.membership.voters().contains(id),
{
}

/// A node counts an entry as present that is at or before the committed position, or in the log.
pub proof fn law_present_entries<NID: NodeId, M>(s: RaftStateView<NID, M>, x: LogId<NID>)
    requires
        is_log(s.log),
    ensures
        s.has_log_id(x) <==> (s.committed matches Some(c) && x.index <= c.index) || s.log.contains(
            x,
        ),
        s.is_pristine() <==> s.log.len() == 0 && s.vote.term == 0 && s.vote.node_id
            == NID::default_spec() && !s.vote.committed,
        s.last_log_id() == (if s.log.len() == 0 {
            None
        } else {
            Some(s.log[s.log.len() - 1])
        }),
{
    if s.log.len() > 0 {
        law_positions_in_log(s.log, 0, x);
    }
}

/// The ids of the next entries continue the log, under the leadership that the vote is for.
pub proof fn law_next_ids<NID: NodeId, M>(s: RaftStateView<NID, M>, n: int, i: int)
    requires
        s.valid(),
        0 <= i < n,
        next_index(s.last_log_id()) + n <= u64::MAX,
    ensures
        s.next_ids(n).len() == n,
        s.next_ids(n)[i].leader_id.term == s.vote.term,
        s.next_ids(n)[i].leader_id.node_id == s.vote.node_id,
        s.log.len() == 0 ==> s.next_ids(n)[i].index == i,
        s.log.len() > 0 ==> s.next_ids(n)[i].index == s.log[s.log.len() - 1].index + 1 + i,
{
    s.lemma_positions();
}

/// In a valid state the log is in order; it starts with the last purged entry, or at the start;
/// what is committed, in the snapshot or to be purged is in it; purging does not go beyond the
/// snapshot, nor the snapshot beyond what is committed; and no entry is of a later leader than
/// the vote.
pub proof fn law_valid_states<NID: NodeId, M>(s: RaftStateView<NID, M>)
    ensures
        s.valid() <==> {
            &&& is_log(s.log)
            &&& s.log.len() > 0 ==> s.log[s.log.len() - 1].index < u64::MAX
            &&& 0 <= s.purged_next
            &&& s.purged_next == 0 && s.log.len() > 0 ==> s.log[0].index == 0
            &&& s.purged_next > 0 ==> s.log.len() > 0 && s.log[0].index == s.purged_next - 1
            &&& s.committed matches Some(c) ==> s.log.contains(c)
            &&& s.snapshot.last_log_id matches Some(x) ==> s.log.contains(x) && (
            s.committed matches Some(c) && x.index <= c.index)
            &&& s.purge_upto matches Some(p) ==> s.log.contains(p) && (s.committed matches Some(c)
                && p.index <= c.index) && (s.snapshot.last_log_id matches Some(x) ==> p.index
                <= x.index)
            &&& s.purged_next > 0 ==> (s.purge_upto matches Some(p) && s.purged_next <= p.index + 1)
            &&& s.log.len() > 0 ==> !s.vote.leader().precedes(s.log[s.log.len() - 1].leader_id)
        },
{
    reveal(positions_agree);
    if is_log(s.log) && s.log.len() > 0 {
        assert(last_of(s.log) == Some(s.log[s.log.len() - 1]));
        if let Some(c) = s.committed {
            law_positions_in_log(s.log, 0, c);
        }
        if let Some(x) = s.snapshot.last_log_id {
            law_positions_in_log(s.log, 0, x);
        }
        if let Some(p) = s.purge_upto {
            law_positions_in_log(s.log, 0, p);
        }
    }
}

/// Queueing a command puts it behind those that are queued, forgets no change of the metrics,
/// and notes the change that the command makes.
pub proof fn law_metrics<NID, M>(o: OutputView<NID, M>, c: CommandView<NID, M>)
    ensures
        ({
            let after = o.push(c);
            &&& after.commands.len() == o.commands.len() + 1
            &&& after.commands.last() == c
            &&& forall|i: int|
                0 <= i < o.commands.len() ==> #[trigger] after.commands[i] == o.commands[i]
            &&& after.flags.replication <==> o.flags.replication || c is RebuildReplicationStreams
            &&& after.flags.cluster <==> o.flags.cluster || c is BecomeLeader || c is QuitLeader
                || c is UpdateMembership
            &&& after.flags.local_data <==> o.flags.local_data || c is AppendInputEntries
                || c is AppendBlankLog || c is LeaderCommit || c is FollowerCommit || c is SaveVote
                || c is PurgeLog || c is DeleteConflictLog
        }),
{
}

/// The point where the last matching entry is probed for halves the range to search, but for
/// less than sixteen entries.
pub proof fn law_probe_halves(from: int, to: int)
    requires
        0 <= from,
    ensures
        from >= to ==> probe(from, to) == from,
        from < to ==> {
            &&& from <= probe(from, to) < to
            &&& (probe(from, to) - from) % 8 == 0
            &&& 2 * (probe(from, to) - from) <= to - from < 2 * (probe(from, to) - from) + 16
        },
{
}

/// A membership that is appended comes into force at once, and the one before counts as
/// committed. Committing up to it or further makes it the committed one. If its entry is
/// deleted, the committed one is in force again.
pub proof fn law_membership_changes<NID: NodeId, M>(
    s: MembershipStateView<NID, M>,
    m: EffectiveMembershipView<NID, M>,
    upto: LogId<NID>,
    since: int,
)
    ensures
        s.appended(m).effective == m,
        s.appended(m).committed == s.effective,
        s.committed_to(Some(upto)).effective == s.effective,
        (s.effective.log_id matches Some(l) ==> l == upto || l.precedes(upto)) ==> s.committed_to(
            Some(upto),
        ).committed == s.effective,
        (s.effective.log_id matches Some(l) && upto.precedes(l)) ==> s.committed_to(
            Some(upto),
        ).committed == s.committed,
        s.cut(since).committed == s.committed,
        (s.effective.log_id matches Some(l) && l.index >= since) ==> s.cut(since).effective
            == s.committed,
        (s.effective.log_id matches Some(l) ==> l.index < since) ==> s.cut(since).effective
            == s.effective,
{
    if let Some(l) = s.effective.log_id {
        lemma_log_id_order_is_total(l, upto);
    }
}

/// What a quorum has accepted is, of all the positions that voters are known to have, the
/// greatest such that in every configuration more than half of the members are known to have
/// the log up to there.
pub proof fn law_accepted_by_quorum<NID: NodeId>(p: ProgressView<NID>, k: int, i: int)
    requires
        0 <= k < p.voters.len(),
        0 <= i < p.configs.len(),
    ensures
        ({
            let g = p.quorum_accepted();
            let have = |u: Option<LogId<NID>>|
                Set::new(
                    |id: NID|
                        exists|j: int|
                            0 <= j < p.voters.len() && (#[trigger] p.voters[j]).0 == id
                                && !opt_precedes(p.voters[j].1.matching, u),
                );
            let m = p.voters[k].1.matching;
            &&& g is Some ==> 2 * p.configs[i].intersect(have(g)).len() > p.configs[i].len()
            &&& g is Some ==> exists|j: int|
                0 <= j < p.voters.len() && (#[trigger] p.voters[j]).1.matching == g
            &&& (forall|c: int|
                0 <= c < p.configs.len() ==> 2 * (#[trigger] p.configs[c]).intersect(have(m)).len()
                    > p.configs[c].len()) ==> !opt_precedes(g, m)
        }),
{
    p.lemma_greatest_exists();
    let g = p.quorum_accepted();
    let m = p.voters[k].1.matching;
    let have = |u: Option<LogId<NID>>|
        Set::new(
            |id: NID|
                exists|j: int|
                    0 <= j < p.voters.len() && (#[trigger] p.voters[j]).0 == id && !opt_precedes(
                        p.voters[j].1.matching,
                        u,
                    ),
        );
    assert(have(g) =~= p.matched_by(g));
    assert(have(m) =~= p.matched_by(m));
    if forall|c: int|
        0 <= c < p.configs.len() ==> 2 * (#[trigger] p.configs[c]).intersect(have(m)).len()
            > p.configs[c].len() {
        assert(p.is_accepted(p.voters[k].1.matching));
    }
    if g is Some {
        assert(is_majority(p.configs[i], p.matched_by(g)));
    }
}

/// Under a new membership, the progress is kept for each of its voters and learners, once, in
/// ascending order. What was known of a node is still known, and nothing is known of a new one.
pub proof fn law_progress_under_membership<NID: NodeId, M>(
    p: ProgressView<NID>,
    m: MembershipView<NID, M>,
    default: ProgressEntry<NID>,
    id: NID,
)
    requires
        m.voters().finite(),
        m.learners().finite(),
    ensures
        ({
            let q = p.for_membership(m, default);
            let kept = match p.entry(id) {
                Some(e) => e,
                None => default,
            };
            &&& q.configs == m.configs
            &&& m.voters().contains(id) ==> q.voters.contains((id, kept))
            &&& m.learners().contains(id) ==> q.learners.contains((id, kept))
            &&& forall|k: int|
                0 <= k < q.voters.len() ==> m.voters().contains((#[trigger] q.voters[k]).0)
            &&& forall|k: int|
                0 <= k < q.learners.len() ==> m.learners().contains((#[trigger] q.learners[k]).0)
            &&& forall|i: int, k: int|
                0 <= i < k < q.voters.len() ==> (#[trigger] q.voters[i]).0.rank() < (
                #[trigger] q.voters[k]).0.rank()
            &&& forall|i: int, k: int|
                0 <= i < k < q.learners.len() ==> (#[trigger] q.learners[i]).0.rank() < (
                #[trigger] q.learners[k]).0.rank()
        }),
{
    let q = p.for_membership(m, default);
    lemma_order_exists(m.voters());
    lemma_order_exists(m.learners());
    let (vs, ls) = (in_order(m.voters()), in_order(m.learners()));
    if m.voters().contains(id) {
        assert(vs.to_set().contains(id));
        let k = choose|k: int| 0 <= k < vs.len() && vs[k] == id;
        assert(q.voters[k].0 == id);
    }
    if m.learners().contains(id) {
        assert(ls.to_set().contains(id));
        let k = choose|k: int| 0 <= k < ls.len() && ls[k] == id;
        assert(q.learners[k].0 == id);
    }
    assert forall|i: int, k: int| 0 <= i < k < q.voters.len() implies (
    #[trigger] q.voters[i]).0.rank() < (#[trigger] q.voters[k]).0.rank() by {
        assert(vs[i].rank() < vs[k].rank());
    }
    assert forall|i: int, k: int| 0 <= i < k < q.learners.len() implies (
    #[trigger] q.learners[i]).0.rank() < (#[trigger] q.learners[k]).0.rank() by {
        assert(ls[i].rank() < ls[k].rank());
    }
    assert forall|k: int| 0 <= k < q.voters.len() implies m.voters().contains(
        (#[trigger] q.voters[k]).0,
    ) by {
        assert(vs.to_set().contains(vs[k]));
    }
    assert forall|k: int| 0 <= k < q.learners.len() implies m.learners().contains(
        (#[trigger] q.learners[k]).0,
    ) by {
        assert(ls.to_set().contains(ls[k]));
    }
}

/// What is known of a node is what is recorded of it, among the voters or the learners; what is
/// recorded anew is known, and what is known of the others stays.
pub proof fn law_known_progress<NID: NodeId>(
    p: ProgressView<NID>,
    id: NID,
    other: NID,
    e: ProgressEntry<NID>,
)
    ensures
        p.entry(id) matches Some(x) ==> p.voters.contains((id, x)) || p.learners.contains((id, x)),
        p.entry(id) is None ==> forall|k: int|
            0 <= k < p.voters.len() ==> (#[trigger] p.voters[k]).0 != id,
        p.entry(id) is None ==> forall|k: int|
            0 <= k < p.learners.len() ==> (#[trigger] p.learners[k]).0 != id,
        p.entry(id) is Some ==> p.with(id, e).entry(id) == Some(e),
        other != id ==> p.with(id, e).entry(other) == p.entry(other),
{
    lemma_entry_recorded(p.voters, id);
    lemma_entry_recorded(p.learners, id);
    lemma_with_others(p.voters, id, other, e);
    lemma_with_others(p.learners, id, other, e);
    if p.entry(id) is Some {
        lemma_entry_with(p, id, e);
    }
}

proof fn lemma_entry_recorded<NID>(entries: Seq<(NID, ProgressEntry<NID>)>, id: NID)
    ensures
        entry_of(entries, id) matches Some(x) ==> entries.contains((id, x)),
        entry_of(entries, id) is None ==> forall|k: int|
            0 <= k < entries.len() ==> (#[trigger] entries[k]).0 != id,
    decreases entries.len(),
{
    if entries.len() > 0 {
        let front = entries.drop_last();
        let n = entries.len() - 1;
        lemma_entry_recorded(front, id);
        if let Some(x) = entry_of(front, id) {
            let k = choose|k: int| 0 <= k < front.len() && front[k] == (id, x);
            assert(entries[k] == (id, x));
        } else {
            assert forall|k: int| 0 <= k < entries.len() && k != n implies (
            #[trigger] entries[k]).0 != id by {
                assert(front[k] == entries[k]);
            }
            assert(entries[n] == entries.last());
            if entries.last().0 == id {
                assert(entries[n] == (id, entries.last().1));
            }
        }
    }
}

proof fn lemma_with_others<NID>(
    entries: Seq<(NID, ProgressEntry<NID>)>,
    id: NID,
    other: NID,
    e: ProgressEntry<NID>,
)
    ensures
        other != id ==> entry_of(with_entry(entries, id, e), other) == entry_of(
            entries,
            other,
        ),
    decreases entries.len(),
{
    if entries.len() > 0 {
        lemma_with_others(entries.drop_last(), id, other, e);
        assert(with_entry(entries, id, e).drop_last()
            =~= with_entry(entries.drop_last(), id, e));
    }
}

/// A request shows a part of a log if the ids that it sends follow each other without a gap and
/// without going back to an earlier leader, right behind the entry before them, or at the start
/// of the log if there is none.
pub proof fn law_requests_show_logs<NID: NodeId>(
    prev: Option<LogId<NID>>,
    ids: Seq<LogId<NID>>,
    i: int,
)
    requires
        shows_log(prev, ids),
        0 <= i < ids.len(),
    ensures
        ids[i].index < u64::MAX,
        i > 0 ==> ids[i].index == ids[i - 1].index + 1 && !ids[i].leader_id.precedes(
            ids[i - 1].leader_id,
        ),
        prev matches Some(p) ==> ids[0].index == p.index + 1 && !ids[0].leader_id.precedes(
            p.leader_id,
        ),
        prev is None ==> ids[0].index == 0,
        prev is None ==> shown_log(prev, ids) == ids,
        prev matches Some(p) ==> shown_log(prev, ids).len() == ids.len() + 1 && shown_log(
            prev,
            ids,
        )[0] == p && shown_log(prev, ids)[i + 1] == ids[i],
{
    let shown = shown_log(prev, ids);
    let off: int = if prev is Some {
        1
    } else {
        0
    };
    assert(shown[i + off] == ids[i]);
    assert(shown[off] == ids[0]);
    assert(shown[ids.len() - 1 + off] == ids[ids.len() - 1]);
    assert(shown[ids.len() - 1 + off].index == shown[i + off].index + (ids.len() - 1 - i));
    if i > 0 {
        assert(shown[i - 1 + off] == ids[i - 1]);
    }
    if let Some(p) = prev {
        assert(shown[0] == p);
        assert(shown[1].index == shown[0].index + 1);
        assert(!shown[1].leader_id.precedes(shown[0].leader_id));
    }
}

/// And every such request shows a part of a log.
pub proof fn law_logs_can_be_shown<NID: NodeId>(prev: Option<LogId<NID>>, ids: Seq<LogId<NID>>)
    requires
        forall|i: int|
            0 < i < ids.len() ==> (#[trigger] ids[i]).index == ids[i - 1].index + 1
                && !ids[i].leader_id.precedes(ids[i - 1].leader_id),
        ids.len() > 0 ==> ids[ids.len() - 1].index < u64::MAX,
        ids.len() > 0 ==> (prev matches Some(p) ==> ids[0].index == p.index + 1
            && !ids[0].leader_id.precedes(p.leader_id)),
        ids.len() > 0 && prev is None ==> ids[0].index == 0,
    ensures
        shows_log(prev, ids),
{
    let shown = shown_log(prev, ids);
    let off: int = if prev is Some {
        1
    } else {
        0
    };
    assert forall|i: int| 0 <= i < shown.len() - 1 implies (#[trigger] shown[i + 1]).follows(
        shown[i],
    ) by {
        assert(shown[i + 1] == ids[i + 1 - off]);
        if i + 1 - off > 0 {
            assert(shown[i] == ids[i - off]);
        }
    }
    lemma_log_by_neighbours(shown);
}

} // verus!
