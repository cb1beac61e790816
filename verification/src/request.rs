//! Requests to append entries: what they show of the log of a leader, and whether that fits
//! what is here.

use crate::entry::{entry_views, ids_of, RaftEntry};
use crate::log_id::{
    cut_at, fit, holds, id_at, is_log, is_upto, last_of, lemma_log_by_neighbours, next_index,
    LogId,
};
use crate::node::{Node, NodeId};
use crate::raft_state::{RaftState, RaftStateView};
use crate::vote::Vote;
use vstd::prelude::*;

verus! {

/// The log of a leader as far as a request shows it: the entry before those that are sent,
/// and these.
pub open spec fn shown_log<NID>(prev: Option<LogId<NID>>, ids: Seq<LogId<NID>>) -> Seq<LogId<NID>> {
    match prev {
        Some(p) => seq![p] + ids,
        None => ids,
    }
}

/// A request to append entries shows a part of a log, from its start if there is no entry
/// before, and there is room behind it.
pub open spec fn shows_log<NID: NodeId>(prev: Option<LogId<NID>>, ids: Seq<LogId<NID>>) -> bool {
    &&& is_log(shown_log(prev, ids))
    &&& prev is None && ids.len() > 0 ==> ids[0].index == 0
    &&& next_index(last_of(ids)) <= u64::MAX
}

impl<NID: NodeId, M> RaftStateView<NID, M> {
    /// The first of these entries that is missing here comes right behind what is left of the
    /// log when it is cut there.
    pub open spec fn is_continued_by(self, ids: Seq<LogId<NID>>) -> bool {
        let since = self.first_missing(ids, 0);
        let at = ids[since].index as int;
        let left = if id_at(self.log, at) is Some {
            cut_at(self.log, at)
        } else {
            self.log
        };
        &&& is_log(ids)
        &&& next_index(last_of(ids)) <= u64::MAX
        &&& since < ids.len() && left.len() > 0 ==> at == left.last().index + 1
    }

    /// What a request shows up to the committed position is here, or at least fits what is
    /// committed.
    pub open spec fn agrees_with(self, prev: Option<LogId<NID>>, ids: Seq<LogId<NID>>) -> bool {
        let shown = shown_log(prev, ids);
        forall|k: int|
            0 <= k < shown.len() && (#[trigger] shown[k]).index < next_index(self.committed)
                ==> holds(self.log, shown[k]) || fit(shown[k], self.committed->0)
    }

    /// A request to append entries shows a part of the log of a leader, from its start if
    /// there is no entry before, and that leader has in its log
    /// - no entry of a later leader than itself;
    /// - what is committed here, and what it claims to have committed;
    /// - up to an entry that is also in the log here, nothing else than what is here.
    pub open spec fn fits_request(
        self,
        vote: Vote<NID>,
        prev: Option<LogId<NID>>,
        ids: Seq<LogId<NID>>,
        leader_committed: Option<LogId<NID>>,
    ) -> bool {
        let shown = shown_log(prev, ids);
        &&& shows_log(prev, ids)
        &&& last_of(ids) matches Some(l) ==> !vote.leader().precedes(l.leader_id)
        &&& (self.committed matches Some(c) ==> (leader_committed matches Some(lc) ==> fit(lc, c)))
        &&& forall|k: int|
            0 <= k < shown.len() ==> self.fits_entry(#[trigger] shown[k], leader_committed)
    }

    /// An entry that a leader shows fits what is committed here, and what the leader claims to
    /// have committed. If it is also in the log here, so is what the leader has committed
    /// before it.
    pub open spec fn fits_entry(self, id: LogId<NID>, leader_committed: Option<LogId<NID>>) -> bool {
        &&& self.committed matches Some(c) ==> fit(id, c)
        &&& leader_committed matches Some(lc) ==> {
            &&& fit(id, lc)
            &&& holds(self.log, id) && next_index(self.committed) <= lc.index <= id.index ==> holds(
                self.log,
                lc,
            )
        }
    }
}

/// Whether the entries are a part of a log, with room behind it.
pub fn are_in_order<NID: NodeId, N: Node, Ent: RaftEntry<NID, N>>(entries: &[Ent]) -> (r: bool)
    ensures
        r == ({
            let ids = ids_of(entry_views::<NID, N, Ent>(entries@));
            is_log(ids) && next_index(last_of(ids)) <= u64::MAX
        }),
{
    let ghost ids = ids_of(entry_views::<NID, N, Ent>(entries@));
    let l = entries.len();
    let mut i: usize = 0;
    while i < l
        invariant
            i <= l,
            l == entries@.len(),
            ids == ids_of(entry_views::<NID, N, Ent>(entries@)),
            forall|k: int| 0 < k < i ==> (#[trigger] ids[k]).follows(ids[k - 1]),
            i > 0 ==> next_index(last_of(ids.take(i as int))) <= u64::MAX,
        decreases l - i,
    {
        assert(ids[i as int] == entries@[i as int].log_id());
        let id = *entries[i].get_log_id();
        if id.index == u64::MAX {
            proof {
                if is_log(ids) {
                    assert(ids[l - 1].index == ids[i as int].index + (l - 1 - i));
                }
            }
            return false;
        }
        if i > 0 {
            assert(ids[i - 1] == entries@[i - 1].log_id());
            if !id.is_next_to(entries[i - 1].get_log_id()) {
                proof {
                    if is_log(ids) {
                        assert(ids[i as int].index == ids[i - 1].index + 1);
                        assert(!ids[i as int].leader_id.precedes(ids[i - 1].leader_id));
                    }
                }
                return false;
            }
        }
        i += 1;
        assert(ids.take(i as int).last() == id);
    }
    proof {
        lemma_log_by_neighbours(ids);
        assert(ids.take(l as int) =~= ids);
    }
    true
}

/// Whether a request shows a part of a log, with room behind it.
pub fn is_log_shown<NID: NodeId, N: Node, Ent: RaftEntry<NID, N>>(
    prev_log_id: &Option<LogId<NID>>,
    entries: &[Ent],
) -> (r: bool)
    ensures
        r == shows_log(*prev_log_id, ids_of(entry_views::<NID, N, Ent>(entries@))),
{
    let ghost ids = ids_of(entry_views::<NID, N, Ent>(entries@));
    let ghost shown = shown_log(*prev_log_id, ids);
    proof {
        lemma_shown_by_parts(*prev_log_id, ids);
    }
    if !are_in_order::<NID, N, Ent>(entries) {
        return false;
    }
    if entries.len() == 0 {
        return true;
    }
    assert(ids[0] == entries@[0].log_id());
    let first = *entries[0].get_log_id();
    match prev_log_id {
        Some(prev) => first.is_next_to(prev),
        None => first.index == 0,
    }
}

/// What a request shows is a part of a log if the entries are one that comes right behind the
/// entry before them.
proof fn lemma_shown_by_parts<NID: NodeId>(prev: Option<LogId<NID>>, ids: Seq<LogId<NID>>)
    ensures
        is_log(shown_log(prev, ids)) <==> is_log(ids) && (prev matches Some(p) ==> (ids.len() > 0
            ==> ids[0].follows(p))),
{
    let shown = shown_log(prev, ids);
    if let Some(p) = prev {
        if is_log(shown) {
            assert forall|k: int| 0 < k < ids.len() implies (#[trigger] ids[k]).follows(
                ids[k - 1],
            ) by {
                assert(shown[k + 1] == ids[k]);
                assert(shown[k] == ids[k - 1]);
            }
            lemma_log_by_neighbours(ids);
            if ids.len() > 0 {
                assert(shown[0] == p);
                assert(shown[1] == ids[0]);
            }
        }
        if is_log(ids) && (ids.len() > 0 ==> ids[0].follows(p)) {
            assert forall|k: int| 0 < k < shown.len() implies (#[trigger] shown[k]).follows(
                shown[k - 1],
            ) by {
                assert(shown[k] == ids[k - 1]);
                if k > 1 {
                    assert(shown[k - 1] == ids[k - 2]);
                } else {
                    assert(shown[0] == p);
                }
            }
            lemma_log_by_neighbours(shown);
        }
    }
}

impl<NID: NodeId, N: Node> RaftState<NID, N> {
    /// Whether the log holds the id.
    fn holds_log_id(&self, id: &LogId<NID>) -> (r: bool)
        ensures
            r == holds(self@.log, *id),
    {
        match self.get_log_id(id.index) {
            Some(local) => local.is_same(id),
            None => false,
        }
    }

    /// Whether the positions of the state agree with each other and with the log.
    pub fn is_valid(&self) -> (r: bool)
        ensures
            r == self@.valid(),
    {
        proof {
            reveal(crate::raft_state::positions_agree);
        }
        let committed_held = match &self.committed {
            Some(id) => self.holds_log_id(id),
            None => true,
        };
        let snapshot_held = match &self.snapshot_meta.last_log_id {
            Some(id) => self.holds_log_id(id),
            None => true,
        };
        let purge_held = match &self.purge_upto {
            Some(id) => self.holds_log_id(id),
            None => true,
        };
        let starts_right = match self.log_ids.first() {
            Some(id) => if self.purged_next == 0 {
                id.index == 0
            } else {
                id.index == self.purged_next - 1
            },
            None => self.purged_next == 0,
        };
        let ends_right = match self.last_log_id() {
            Some(id) => id.index < u64::MAX && !self.vote.leader_id().is_before(&id.leader_id),
            None => true,
        };
        let purge_planned = self.purged_next == 0 || match &self.purge_upto {
            Some(id) => self.purged_next - 1 <= id.index,
            None => false,
        };
        let snapshot = &self.snapshot_meta.last_log_id;
        self.log_ids.is_in_order() && committed_held && snapshot_held && purge_held && starts_right
            && ends_right && purge_planned && is_upto(&self.purge_upto, &self.committed) && is_upto(
            snapshot,
            &self.committed,
        ) && (snapshot.is_none() || is_upto(&self.purge_upto, snapshot))
    }

    /// Whether the entries continue the log from the first one that is missing.
    pub fn is_log_continued<Ent: RaftEntry<NID, N>>(&self, entries: &[Ent]) -> (r: bool)
        ensures
            r == self@.is_continued_by(ids_of(entry_views::<NID, N, Ent>(entries@))),
    {
        let ghost ids = ids_of(entry_views::<NID, N, Ent>(entries@));
        if !are_in_order::<NID, N, Ent>(entries) {
            return false;
        }
        let since = self.first_conflicting_index(entries);
        if since == entries.len() {
            return true;
        }
        assert(ids[since as int] == entries@[since as int].log_id());
        let at = entries[since].get_log_id().index;
        match (self.get_log_id(at), self.log_ids.first(), self.last_log_id()) {
            (Some(_), Some(first), _) => {
                proof {
                    let log = self@.log;
                    assert(log[log.len() - 1].index == log[0].index + (log.len() - 1));
                    if at > first.index {
                        assert(cut_at(log, at as int).last() == log[at - log[0].index - 1]);
                    }
                }
                true
            },
            (None, _, Some(last)) => last.index < u64::MAX && at == last.index + 1,
            _ => true,
        }
    }

    /// Whether an entry that a leader shows fits what is here.
    fn is_entry_fit(&self, id: &LogId<NID>, leader_committed: &Option<LogId<NID>>) -> (r: bool)
        ensures
            r == self@.fits_entry(*id, *leader_committed),
    {
        let fits_here = match &self.committed {
            Some(c) => id.fits(c),
            None => true,
        };
        fits_here && match leader_committed {
            Some(lc) => {
                let is_new = match &self.committed {
                    Some(c) => c.index < lc.index,
                    None => true,
                };
                id.fits(lc) && (!self.holds_log_id(id) || !is_new || lc.index > id.index
                    || self.holds_log_id(lc))
            },
            None => true,
        }
    }

    /// Whether a request of a leader fits what is here.
    pub fn is_request_fit<Ent: RaftEntry<NID, N>>(
        &self,
        vote: &Vote<NID>,
        prev_log_id: &Option<LogId<NID>>,
        entries: &[Ent],
        leader_committed: &Option<LogId<NID>>,
    ) -> (r: bool)
        ensures
            r == self@.fits_request(
                *vote,
                *prev_log_id,
                ids_of(entry_views::<NID, N, Ent>(entries@)),
                *leader_committed,
            ),
    {
        let ghost ids = ids_of(entry_views::<NID, N, Ent>(entries@));
        let ghost shown = shown_log(*prev_log_id, ids);
        let ghost skip = shown.len() - ids.len();
        if !is_log_shown::<NID, N, Ent>(prev_log_id, entries) {
            return false;
        }
        let l = entries.len();
        if l > 0 {
            assert(ids[l - 1] == entries@[l - 1].log_id());
            if vote.leader_id().is_before(&entries[l - 1].get_log_id().leader_id) {
                return false;
            }
        }
        match (&self.committed, leader_committed) {
            (Some(c), Some(lc)) => {
                if !lc.fits(c) {
                    return false;
                }
            },
            _ => {},
        }
        match prev_log_id {
            Some(prev) => {
                assert(shown[0] == *prev);
                if !self.is_entry_fit(prev, leader_committed) {
                    return false;
                }
            },
            None => {},
        }
        let mut i: usize = 0;
        while i < l
            invariant
                i <= l,
                l == entries@.len(),
                ids == ids_of(entry_views::<NID, N, Ent>(entries@)),
                shown == shown_log(*prev_log_id, ids),
                skip == shown.len() - ids.len(),
                forall|k: int|
                    0 <= k < skip + i ==> self@.fits_entry(#[trigger] shown[k], *leader_committed),
            decreases l - i,
        {
            assert(ids[i as int] == entries@[i as int].log_id());
            assert(shown[skip + i] == ids[i as int]);
            if !self.is_entry_fit(entries[i].get_log_id(), leader_committed) {
                return false;
            }
            i += 1;
        }
        true
    }
}

} // verus!
