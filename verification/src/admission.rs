//! What a node can be asked to do: the conditions on which an operation can be called, and on
//! which the state is valid afterwards, in terms of what the caller knows.

use crate::log_id::{fit, holds, is_log, lemma_log_ids_fit, next_index, LogId};
use crate::message::VoteResponse;
use crate::node::NodeId;
use crate::raft_state::{positions_agree, RaftStateView, SnapshotView};
use crate::request::{shown_log, shows_log};
use crate::validity::lemma_member_held;
use crate::view::EngineView;
use crate::vote::Vote;
use vstd::prelude::*;

verus! {

impl<NID: NodeId, M> RaftStateView<NID, M> {
    /// A node that has stored nothing is in a valid state.
    pub proof fn law_fresh_state_is_valid(self)
        requires
            self.log.len() == 0,
            self.purged_next == 0,
            self.purge_upto is None,
            self.committed is None,
            self.snapshot.last_log_id is None,
        ensures
            self.valid(),
    {
        reveal(positions_agree);
    }
}

impl<NID: NodeId, M> EngineView<NID, M> {
    /// A node can stand for election as long as there is a next term and room in its log.
    pub proof fn law_node_can_stand(self)
        requires
            self.local.state.vote.term < u64::MAX,
            self.local.state.log.len() > 0 ==> self.local.state.log.last().index < u64::MAX - 1,
        ensures
            self.can_stand(),
    {
    }

    /// Clients can propose entries to a node that leads, as long as there is room in its log.
    /// Anyone can propose none.
    pub proof fn law_leader_can_be_proposed_to(self, n: int)
        requires
            0 <= n,
            n > 0 ==> self.leader is Some,
            self.local.state.log.len() > 0 ==> self.local.state.log.last().index + 1 + n
                <= u64::MAX,
            self.local.state.log.len() == 0 ==> n <= u64::MAX,
        ensures
            self.can_propose(n),
    {
    }

    /// An answer to a request for a vote can be handled by a node that does not lead, whatever
    /// it says; by a voter if it is a refusal; and by a candidate if the vote that is granted is
    /// not less than its own and there is room in its log.
    pub proof fn law_answer_can_be_taken(self, target: NID, resp: VoteResponse<NID>)
        ensures
            self.leader is None ==> self.takes_answer(target, resp),
            ({
                let m = self.local.state.membership.effective.membership;
                !resp.vote_granted && m.voters().contains(self.config.id)
            }) ==> self.takes_answer(target, resp),
            resp.vote_granted && !resp.vote.precedes(self.local.state.vote)
                && self.local.state.vote.node_id == self.config.id && next_index(
                self.local.state.last_log_id(),
            ) < u64::MAX ==> self.takes_answer(target, resp),
    {
    }

    /// A snapshot can be taken note of if there is room behind its last entry. It fits if it
    /// ends with an entry in the log that is committed and not before what is to be purged.
    pub proof fn law_snapshot_can_be_taken(self, meta: SnapshotView<NID, M>, x: LogId<NID>)
        requires
            self.valid(),
            meta.last_log_id == Some(x),
        ensures
            x.index < u64::MAX ==> self.takes_snapshot(meta),
            ({
                let s = self.local.state;
                &&& s.log.contains(x)
                &&& s.committed matches Some(c) && x.index <= c.index
                &&& s.purge_upto matches Some(p) ==> p.index <= x.index
            }) ==> self.trusts_snapshot(meta),
    {
        let s = self.local.state;
        s.lemma_positions();
        if s.log.contains(x) {
            let k = choose|k: int| 0 <= k < s.log.len() && s.log[k] == x;
            lemma_member_held(s.log, k);
        }
    }

    /// A request of another node that shows a part of a log can be handled in a valid state.
    pub proof fn law_request_can_be_taken(
        self,
        vote: Vote<NID>,
        prev: Option<LogId<NID>>,
        ids: Seq<LogId<NID>>,
    )
        requires
            self.valid(),
            vote.node_id != self.config.id,
            shows_log(prev, ids),
        ensures
            self.takes_request(vote, prev, ids),
    {
        self.local.state.lemma_positions();
    }

    /// A request fits the state if it shows a part of the log of a leader, and that log holds
    /// what is committed here and what the leader claims to have committed, has no entry of a
    /// later leader than the vote, and agrees with the log here up to every entry that is in
    /// both. So the requests of the leaders of Raft fit.
    pub proof fn law_request_of_leader_fits(
        self,
        vote: Vote<NID>,
        prev: Option<LogId<NID>>,
        ids: Seq<LogId<NID>>,
        leader_committed: Option<LogId<NID>>,
        theirs: Seq<LogId<NID>>,
    )
        requires
            self.valid(),
            vote.node_id != self.config.id,
            shows_log(prev, ids),
            is_log(theirs),
            ids.len() > 0 ==> !vote.leader().precedes(ids.last().leader_id),
            forall|k: int|
                0 <= k < shown_log(prev, ids).len() ==> theirs.contains(
                    #[trigger] shown_log(prev, ids)[k],
                ),
            self.local.state.committed matches Some(c) ==> theirs.contains(c),
            leader_committed matches Some(c) ==> theirs.contains(c),
            forall|x: LogId<NID>, y: LogId<NID>|
                theirs.contains(x) && self.local.state.log.contains(x) && #[trigger]
                theirs.contains(y) && y.index <= x.index && self.local.state.log[0].index
                    <= y.index && #[trigger] holds(self.local.state.log, x)
                    ==> self.local.state.log.contains(y),
        ensures
            self.trusts_request(vote, prev, ids, leader_committed),
    {
        let s = self.local.state;
        let shown = shown_log(prev, ids);
        s.lemma_positions();
        reveal(positions_agree);
        if let (Some(c), Some(lc)) = (s.committed, leader_committed) {
            lemma_fit_in(theirs, lc, c);
        }
        assert forall|k: int| 0 <= k < shown.len() implies s.fits_entry(
            #[trigger] shown[k],
            leader_committed,
        ) by {
            let x = shown[k];
            if let Some(c) = s.committed {
                lemma_fit_in(theirs, x, c);
            }
            if let Some(lc) = leader_committed {
                lemma_fit_in(theirs, x, lc);
                if holds(s.log, x) && next_index(s.committed) <= lc.index <= x.index {
                    let n = s.log.len() as int;
                    assert(s.log[x.index - s.log[0].index] == x);
                    assert(s.log.contains(x));
                    assert(theirs.contains(lc));
                    assert(s.log[0].index <= lc.index);
                    assert(s.log.contains(lc));
                    let i = choose|i: int| 0 <= i < n && s.log[i] == lc;
                    lemma_member_held(s.log, i);
                }
            }
        }
    }
}

proof fn lemma_fit_in<NID: NodeId>(log: Seq<LogId<NID>>, a: LogId<NID>, b: LogId<NID>)
    requires
        is_log(log),
        log.contains(a),
        log.contains(b),
    ensures
        fit(a, b),
{
    let i = choose|i: int| 0 <= i < log.len() && log[i] == a;
    let j = choose|j: int| 0 <= j < log.len() && log[j] == b;
    lemma_member_held(log, i);
    lemma_member_held(log, j);
    lemma_log_ids_fit(log, a, b);
}

} // verus!
