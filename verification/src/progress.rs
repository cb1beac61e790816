//! How far the log of each node is known to match that of the leader.

use crate::log_id::{
    id_at, index_after, lemma_opt_order, next_index, opt_is_before, opt_precedes, LogId,
};
use crate::membership::{clone_configs, configs_of, has_quorum, is_quorum, member_ids};
use crate::membership::MembershipView;
use crate::node::{same_id, Node, NodeId};
use crate::node_set::{in_order, NodeSet};
use crate::raft_state::{RaftState, RaftStateView};
use vstd::prelude::*;

verus! {

/// What is on its way to a node.
#[derive(Clone, Copy, Debug, PartialEq, Eq)]
pub enum Inflight<NID> {
    /// Nothing.
    Idle,
    /// The entries after `prev_log_id`, up to and with `last_log_id`.
    Logs { prev_log_id: Option<LogId<NID>>, last_log_id: Option<LogId<NID>> },
    /// The snapshot that ends with `last_log_id`.
    Snapshot { last_log_id: Option<LogId<NID>> },
}

/// What the leader knows about the log of one node.
#[derive(Clone, Copy, Debug, PartialEq, Eq)]
pub struct ProgressEntry<NID> {
    /// The last log id that is known to match.
    pub matching: Option<LogId<NID>>,
    /// What is on its way to the node.
    pub inflight: Inflight<NID>,
    /// The index before which the last matching entry is searched.
    pub searching_end: u64,
}

/// Where to probe for the last matching entry between `from` and `to`: about half way, in
/// steps of eight.
pub open spec fn probe(from: int, to: int) -> int {
    if from < to {
        from + (to - from) / 16 * 8
    } else {
        from
    }
}

impl<NID: NodeId> ProgressEntry<NID> {
    /// Nothing is known about the log of the node, but that it matches nowhere at or after
    /// `end`.
    pub open spec fn unknown(end: int) -> Self {
        ProgressEntry { matching: None, inflight: Inflight::Idle, searching_end: end as u64 }
    }

    /// The same, with nothing on its way.
    pub open spec fn stopped(self) -> Self {
        ProgressEntry { inflight: Inflight::Idle, ..self }
    }

    /// The log of the node is now known to match up to `upto`.
    pub open spec fn matched(self, upto: LogId<NID>) -> Self {
        ProgressEntry {
            matching: Some(upto),
            inflight: Inflight::Idle,
            searching_end: if self.searching_end > upto.index {
                self.searching_end
            } else {
                (upto.index + 1) as u64
            },
        }
    }

    /// What to send to the node next. If the entries that it needs are about to be purged it
    /// is the snapshot; otherwise the entries from the probing point on, at most
    /// `max_entries` of them; nothing if there are none.
    pub open spec fn next_request<M>(self, state: RaftStateView<NID, M>, max_entries: int) -> Inflight<
        NID,
    > {
        let kept = next_index(state.purge_upto);
        let end = next_index(state.last_log_id());
        let point = probe(next_index(self.matching), self.searching_end as int);
        let start = if point < kept {
            kept
        } else {
            point
        };
        let stop = if start + max_entries < end {
            start + max_entries
        } else {
            end
        };
        if self.searching_end < kept {
            Inflight::Snapshot { last_log_id: state.snapshot.last_log_id }
        } else if start >= stop {
            Inflight::Idle
        } else {
            Inflight::Logs {
                prev_log_id: id_at(state.log, start - 1),
                last_log_id: id_at(state.log, stop - 1),
            }
        }
    }

    /// The entries up to `upto` are being sent, at least in part.
    pub open spec fn uses_log(self, upto: LogId<NID>) -> bool {
        self.inflight matches Inflight::Logs { prev_log_id, .. } && opt_precedes(
            prev_log_id,
            Some(upto),
        )
    }

    /// Nothing is known about the log of the node, but that it matches nowhere at or after
    /// `end`.
    pub fn empty(end: u64) -> (r: Self)
        ensures
            r == ProgressEntry::<NID>::unknown(end as int),
    {
        ProgressEntry { matching: None, inflight: Inflight::Idle, searching_end: end }
    }

    /// Whether the entries up to `upto` are being sent, at least in part.
    pub fn is_log_range_inflight(&self, upto: &LogId<NID>) -> (r: bool)
        ensures
            r == self.uses_log(*upto),
    {
        match &self.inflight {
            Inflight::Logs { prev_log_id, .. } => opt_is_before(prev_log_id, &Some(*upto)),
            _ => false,
        }
    }

    /// Computes what to send to the node next.
    pub fn next_send<N: Node>(&self, state: &RaftState<NID, N>, max_entries: u64) -> (r: Inflight<
        NID,
    >)
        requires
            next_index(self.matching) <= u64::MAX,
            next_index(state@.last_log_id()) <= u64::MAX,
            next_index(state@.purge_upto) <= u64::MAX,
        ensures
            r == self.next_request(state@, max_entries as int),
    {
        let kept = index_after(&state.purge_upto);
        let end = index_after(&state.last_log_id());
        if self.searching_end < kept {
            return Inflight::Snapshot { last_log_id: state.snapshot_meta.last_log_id };
        }
        let from = index_after(&self.matching);
        let point: u64 = if from < self.searching_end {
            let half: u64 = (self.searching_end - from) / 16 * 8;
            from + half
        } else {
            from
        };
        let start: u64 = if point < kept {
            kept
        } else {
            point
        };
        let stop: u64 = if start < end && max_entries < end - start {
            start + max_entries
        } else {
            end
        };
        if start >= stop {
            return Inflight::Idle;
        }
        let prev_log_id = if start == 0 {
            None
        } else {
            state.get_log_id(start - 1)
        };
        Inflight::Logs { prev_log_id, last_log_id: state.get_log_id(stop - 1) }
    }
}

/// The first entry that is recorded for a node.
pub open spec fn entry_of<NID>(entries: Seq<(NID, ProgressEntry<NID>)>, id: NID) -> Option<
    ProgressEntry<NID>,
>
    decreases entries.len(),
{
    if entries.len() == 0 {
        None
    } else {
        match entry_of(entries.drop_last(), id) {
            Some(e) => Some(e),
            None => if entries.last().0 == id {
                Some(entries.last().1)
            } else {
                None
            },
        }
    }
}

/// The records, with that of one node replaced.
pub open spec fn with_entry<NID>(
    entries: Seq<(NID, ProgressEntry<NID>)>,
    id: NID,
    e: ProgressEntry<NID>,
) -> Seq<(NID, ProgressEntry<NID>)> {
    Seq::new(
        entries.len(),
        |i: int|
            if entries[i].0 == id {
                (id, e)
            } else {
                entries[i]
            },
    )
}

/// The records, with nothing on its way to any node but `id`.
pub open spec fn all_stopped<NID: NodeId>(
    entries: Seq<(NID, ProgressEntry<NID>)>,
    id: NID,
) -> Seq<(NID, ProgressEntry<NID>)> {
    Seq::new(
        entries.len(),
        |i: int|
            if entries[i].0 == id {
                entries[i]
            } else {
                (entries[i].0, entries[i].1.stopped())
            },
    )
}

/// The records of all nodes but `id`.
pub open spec fn others<NID>(entries: Seq<(NID, ProgressEntry<NID>)>, id: NID) -> Seq<
    (NID, ProgressEntry<NID>),
>
    decreases entries.len(),
{
    if entries.len() == 0 {
        Seq::empty()
    } else if entries.last().0 == id {
        others(entries.drop_last(), id)
    } else {
        others(entries.drop_last(), id).push(entries.last())
    }
}

fn find_entry<NID: NodeId>(entries: &Vec<(NID, ProgressEntry<NID>)>, id: &NID) -> (r: Option<
    ProgressEntry<NID>,
>)
    ensures
        r == entry_of(entries@, *id),
{
    let mut r: Option<ProgressEntry<NID>> = None;
    let mut i: usize = 0;
    while i < entries.len()
        invariant
            i <= entries@.len(),
            r == entry_of(entries@.take(i as int), *id),
        decreases entries@.len() - i,
    {
        assert(entries@.take(i + 1).drop_last() =~= entries@.take(i as int));
        if r.is_none() && same_id(&entries[i].0, id) {
            r = Some(entries[i].1);
        }
        i += 1;
    }
    assert(entries@.take(i as int) =~= entries@);
    r
}

fn set_entry<NID: NodeId>(
    entries: &mut Vec<(NID, ProgressEntry<NID>)>,
    id: &NID,
    e: ProgressEntry<NID>,
)
    ensures
        final(entries)@ == with_entry(old(entries)@, *id, e),
{
    let mut i: usize = 0;
    while i < entries.len()
        invariant
            i <= entries@.len(),
            entries@.len() == old(entries)@.len(),
            forall|k: int|
                0 <= k < i ==> #[trigger] entries@[k] == with_entry(old(entries)@, *id, e)[k],
            forall|k: int| i <= k < entries@.len() ==> #[trigger] entries@[k] == old(entries)@[k],
        decreases entries@.len() - i,
    {
        if same_id(&entries[i].0, id) {
            entries.set(i, (*id, e));
        }
        i += 1;
    }
    assert(entries@ =~= with_entry(old(entries)@, *id, e));
}

fn stop_all<NID: NodeId>(entries: &mut Vec<(NID, ProgressEntry<NID>)>, id: &NID)
    ensures
        final(entries)@ == all_stopped(old(entries)@, *id),
{
    let mut i: usize = 0;
    while i < entries.len()
        invariant
            i <= entries@.len(),
            entries@.len() == old(entries)@.len(),
            forall|k: int|
                0 <= k < i ==> #[trigger] entries@[k] == all_stopped(old(entries)@, *id)[k],
            forall|k: int| i <= k < entries@.len() ==> #[trigger] entries@[k] == old(entries)@[k],
        decreases entries@.len() - i,
    {
        if !same_id(&entries[i].0, id) {
            let (target, e) = entries[i];
            let stopped = ProgressEntry { inflight: Inflight::Idle, ..e };
            entries.set(i, (target, stopped));
        }
        i += 1;
    }
    assert(entries@ =~= all_stopped(old(entries)@, *id));
}

fn push_others<NID: NodeId>(
    targets: &mut Vec<(NID, ProgressEntry<NID>)>,
    entries: &Vec<(NID, ProgressEntry<NID>)>,
    id: &NID,
)
    ensures
        final(targets)@ == old(targets)@ + others(entries@, *id),
{
    let mut i: usize = 0;
    assert(targets@ =~= old(targets)@ + others(entries@.take(0), *id));
    while i < entries.len()
        invariant
            i <= entries@.len(),
            targets@ == old(targets)@ + others(entries@.take(i as int), *id),
        decreases entries@.len() - i,
    {
        assert(entries@.take(i + 1).drop_last() =~= entries@.take(i as int));
        if !same_id(&entries[i].0, id) {
            targets.push(entries[i]);
        }
        assert(targets@ =~= old(targets)@ + others(entries@.take(i + 1), *id));
        i += 1;
    }
    assert(entries@.take(i as int) =~= entries@);
}

/// The view of a [`Progress`].
#[verifier::ext_equal]
#[verifier::reject_recursive_types(NID)]
pub struct ProgressView<NID> {
    pub configs: Seq<Set<NID>>,
    pub voters: Seq<(NID, ProgressEntry<NID>)>,
    pub learners: Seq<(NID, ProgressEntry<NID>)>,
}

impl<NID: NodeId> ProgressView<NID> {
    /// What is recorded for a node.
    pub open spec fn entry(self, id: NID) -> Option<ProgressEntry<NID>> {
        match entry_of(self.voters, id) {
            Some(e) => Some(e),
            None => entry_of(self.learners, id),
        }
    }

    /// The records for the given nodes: what was recorded before, or `default`.
    pub open spec fn entries_for(self, ids: Seq<NID>, default: ProgressEntry<NID>) -> Seq<
        (NID, ProgressEntry<NID>),
    > {
        Seq::new(
            ids.len(),
            |i: int|
                (
                    ids[i],
                    match self.entry(ids[i]) {
                        Some(e) => e,
                        None => default,
                    },
                ),
        )
    }

    /// No node is known.
    pub open spec fn none() -> Self {
        ProgressView { configs: Seq::empty(), voters: Seq::empty(), learners: Seq::empty() }
    }

    /// The records for the nodes of a membership, voters before learners, each in ascending
    /// order. What was recorded about a node is kept.
    pub open spec fn for_membership<M>(
        self,
        m: MembershipView<NID, M>,
        default: ProgressEntry<NID>,
    ) -> Self {
        ProgressView {
            configs: m.configs,
            voters: self.entries_for(in_order(m.voters()), default),
            learners: self.entries_for(in_order(m.learners()), default),
        }
    }

    /// The same, with the record of one node replaced.
    pub open spec fn with(self, id: NID, e: ProgressEntry<NID>) -> Self {
        ProgressView {
            configs: self.configs,
            voters: with_entry(self.voters, id, e),
            learners: with_entry(self.learners, id, e),
        }
    }

    /// The same, with nothing on its way to any node but `id`.
    pub open spec fn stopped(self, id: NID) -> Self {
        ProgressView {
            configs: self.configs,
            voters: all_stopped(self.voters, id),
            learners: all_stopped(self.learners, id),
        }
    }

    /// The voters whose log is known to match up to `upto` at least.
    pub open spec fn matched_by(self, upto: Option<LogId<NID>>) -> Set<NID> {
        Set::new(
            |id: NID|
                exists|k: int|
                    0 <= k < self.voters.len() && (#[trigger] self.voters[k]).0 == id
                        && !opt_precedes(self.voters[k].1.matching, upto),
        )
    }

    /// A quorum has the log up to `upto`.
    pub open spec fn is_accepted(self, upto: Option<LogId<NID>>) -> bool {
        is_quorum(self.configs, self.matched_by(upto))
    }

    /// `upto` is the greatest position reached by a voter that a quorum has accepted, or
    /// absent if there is none.
    pub open spec fn is_greatest_accepted(self, upto: Option<LogId<NID>>) -> bool {
        &&& upto is None || exists|k: int|
            0 <= k < self.voters.len() && (#[trigger] self.voters[k]).1.matching == upto
                && self.is_accepted(upto)
        &&& forall|k: int|
            0 <= k < self.voters.len() && self.is_accepted(
                (#[trigger] self.voters[k]).1.matching,
            ) ==> !opt_precedes(upto, self.voters[k].1.matching)
    }

    /// The greatest position that a quorum has accepted.
    pub open spec fn quorum_accepted(self) -> Option<LogId<NID>> {
        choose|upto: Option<LogId<NID>>| self.is_greatest_accepted(upto)
    }
}

/// There is at most one greatest accepted position.
pub proof fn lemma_greatest_accepted<NID: NodeId>(
    p: ProgressView<NID>,
    upto: Option<LogId<NID>>,
)
    requires
        p.is_greatest_accepted(upto),
    ensures
        p.quorum_accepted() == upto,
{
    let other = p.quorum_accepted();
    assert(p.is_greatest_accepted(other));
    match (upto, other) {
        (Some(a), Some(b)) => {
            crate::log_id::lemma_log_id_order_is_total(a, b);
        },
        _ => {},
    }
}

/// What the leader knows about the logs of all nodes, and which nodes make up a quorum.
#[derive(Debug, PartialEq, Eq)]
pub struct Progress<NID: NodeId> {
    pub configs: Vec<NodeSet<NID>>,
    pub voters: Vec<(NID, ProgressEntry<NID>)>,
    pub learners: Vec<(NID, ProgressEntry<NID>)>,
}

impl<NID: NodeId> View for Progress<NID> {
    type V = ProgressView<NID>;

    open spec fn view(&self) -> ProgressView<NID> {
        ProgressView {
            configs: configs_of(self.configs@),
            voters: self.voters@,
            learners: self.learners@,
        }
    }
}

impl<NID: NodeId> Progress<NID> {
    /// Knows no node.
    pub fn none() -> (r: Self)
        ensures
            r@ == ProgressView::<NID>::none(),
    {
        let r = Progress { configs: Vec::new(), voters: Vec::new(), learners: Vec::new() };
        assert(r@ =~= ProgressView::<NID>::none());
        r
    }

    /// What is recorded for a node.
    pub fn get(&self, id: &NID) -> (r: Option<ProgressEntry<NID>>)
        ensures
            r == self@.entry(*id),
    {
        match find_entry(&self.voters, id) {
            Some(e) => Some(e),
            None => find_entry(&self.learners, id),
        }
    }

    /// Replaces the record of a node.
    pub fn set(&mut self, id: &NID, e: ProgressEntry<NID>)
        ensures
            final(self)@ == old(self)@.with(*id, e),
    {
        set_entry(&mut self.voters, id, e);
        set_entry(&mut self.learners, id, e);
    }

    /// Notes that nothing is on its way to any node but `id`.
    pub fn stop(&mut self, id: &NID)
        ensures
            final(self)@ == old(self)@.stopped(*id),
    {
        stop_all(&mut self.voters, id);
        stop_all(&mut self.learners, id);
    }

    /// The records of all nodes but `id`, voters first.
    pub fn targets(&self, id: &NID) -> (r: Vec<(NID, ProgressEntry<NID>)>)
        ensures
            r@ == others(self@.voters, *id) + others(self@.learners, *id),
    {
        let mut r: Vec<(NID, ProgressEntry<NID>)> = Vec::new();
        push_others(&mut r, &self.voters, id);
        push_others(&mut r, &self.learners, id);
        assert(r@ =~= others(self@.voters, *id) + others(self@.learners, *id));
        r
    }

    fn entries_for_ids(&self, ids: &Vec<NID>, default: ProgressEntry<NID>) -> (r: Vec<
        (NID, ProgressEntry<NID>),
    >)
        ensures
            r@ == self@.entries_for(ids@, default),
    {
        let mut r: Vec<(NID, ProgressEntry<NID>)> = Vec::new();
        let mut i: usize = 0;
        while i < ids.len()
            invariant
                i <= ids@.len(),
                r@.len() == i,
                forall|k: int|
                    0 <= k < i ==> #[trigger] r@[k] == self@.entries_for(ids@, default)[k],
            decreases ids@.len() - i,
        {
            let e = match self.get(&ids[i]) {
                Some(e) => e,
                None => default,
            };
            r.push((ids[i], e));
            i += 1;
        }
        assert(r@ =~= self@.entries_for(ids@, default));
        r
    }

    /// Makes the records for the nodes of a membership. What was recorded about a node is
    /// kept; for a new node it is `default`.
    pub fn upgrade<N: Node>(
        &self,
        m: &crate::membership::Membership<NID, N>,
        default: ProgressEntry<NID>,
    ) -> (r: Self)
        ensures
            r@ == self@.for_membership(m@, default),
    {
        let configs = clone_configs(&m.configs);
        let voter_ids = member_ids(&m.configs).to_vec();
        let learner_ids = m.learner_ids();
        let voters = self.entries_for_ids(&voter_ids, default);
        let learners = self.entries_for_ids(&learner_ids, default);
        Progress { configs, voters, learners }
    }

    /// The voters whose log is known to match up to `upto` at least.
    fn voters_matched(&self, upto: &Option<LogId<NID>>) -> (r: NodeSet<NID>)
        ensures
            r@ == self@.matched_by(*upto),
    {
        let mut r: NodeSet<NID> = NodeSet::new();
        let mut i: usize = 0;
        while i < self.voters.len()
            invariant
                i <= self.voters@.len(),
                forall|id: NID| #[trigger]
                    r@.contains(id) <==> exists|k: int|
                        0 <= k < i && (#[trigger] self.voters@[k]).0 == id && !opt_precedes(
                            self.voters@[k].1.matching,
                            *upto,
                        ),
            decreases self.voters@.len() - i,
        {
            let ghost before = r@;
            if !opt_is_before(&self.voters[i].1.matching, upto) {
                r.insert(self.voters[i].0);
            }
            proof {
                assert forall|id: NID| #[trigger]
                    r@.contains(id) <==> exists|k: int|
                        0 <= k < i + 1 && (#[trigger] self.voters@[k]).0 == id && !opt_precedes(
                            self.voters@[k].1.matching,
                            *upto,
                        ) by {
                    if r@.contains(id) && !before.contains(id) {
                        assert(self.voters@[i as int].0 == id);
                    }
                    if exists|k: int|
                        0 <= k < i + 1 && (#[trigger] self.voters@[k]).0 == id && !opt_precedes(
                            self.voters@[k].1.matching,
                            *upto,
                        ) {
                        let k = choose|k: int|
                            0 <= k < i + 1 && (#[trigger] self.voters@[k]).0 == id
                                && !opt_precedes(self.voters@[k].1.matching, *upto);
                        if k < i {
                            assert(before.contains(id));
                        }
                    }
                }
            }
            i += 1;
        }
        assert(r@ =~= self@.matched_by(*upto));
        r
    }

    /// The greatest position that a quorum has accepted.
    pub fn quorum_accepted(&self) -> (r: Option<LogId<NID>>)
        ensures
            r == self@.quorum_accepted(),
            self@.is_greatest_accepted(r),
    {
        let mut r: Option<LogId<NID>> = None;
        let mut i: usize = 0;
        while i < self.voters.len()
            invariant
                i <= self.voters@.len(),
                r is None || exists|k: int|
                    0 <= k < i && (#[trigger] self@.voters[k]).1.matching == r
                        && self@.is_accepted(r),
                forall|k: int|
                    0 <= k < i && self@.is_accepted((#[trigger] self@.voters[k]).1.matching)
                        ==> !opt_precedes(r, self@.voters[k].1.matching),
            decreases self.voters@.len() - i,
        {
            let candidate = self.voters[i].1.matching;
            let ghost before = r;
            if opt_is_before(&r, &candidate) && has_quorum(
                &self.configs,
                &self.voters_matched(&candidate),
            ) {
                r = candidate;
                proof {
                    assert(self@.voters[i as int].1.matching == r && self@.is_accepted(r));
                    assert forall|k: int|
                        0 <= k < i + 1 && self@.is_accepted((#[trigger] self@.voters[k]).1.matching)
                        implies !opt_precedes(r, self@.voters[k].1.matching) by {
                        let m = self@.voters[k].1.matching;
                        lemma_opt_order(r, m);
                        lemma_opt_order(before, r);
                        lemma_opt_order(before, m);
                    }
                }
            }
            i += 1;
        }
        proof {
            lemma_greatest_accepted(self@, r);
        }
        r
    }
}

impl<NID: NodeId> Clone for Progress<NID> {
    fn clone(&self) -> (r: Self)
        ensures
            r@ == self@,
    {
        let configs = clone_configs(&self.configs);
        let voters = copy_entries(&self.voters);
        let learners = copy_entries(&self.learners);
        Progress { configs, voters, learners }
    }
}

/// Copies a list of entries.
pub fn copy_entries<NID: NodeId>(entries: &Vec<(NID, ProgressEntry<NID>)>) -> (r: Vec<
    (NID, ProgressEntry<NID>),
>)
    ensures
        r@ == entries@,
{
    let mut r: Vec<(NID, ProgressEntry<NID>)> = Vec::new();
    let mut i: usize = 0;
    while i < entries.len()
        invariant
            i <= entries@.len(),
            r@ == entries@.take(i as int),
        decreases entries@.len() - i,
    {
        r.push(entries[i]);
        assert(r@ =~= entries@.take(i + 1));
        i += 1;
    }
    assert(r@ =~= entries@);
    r
}

} // verus!
