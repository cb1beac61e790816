//! Leader ids and log ids, their order, and what makes a sequence of log ids a log.

use crate::node::{same_id, NodeId};
use vstd::prelude::*;

verus! {

/// Identifies a leadership: the term and the node that proposed itself in it.
#[derive(Clone, Copy, Debug, PartialEq, Eq)]
pub struct LeaderId<NID> {
    pub term: u64,
    pub node_id: NID,
}

/// Identifies a log entry: the leader that proposed it and its position.
#[derive(Clone, Copy, Debug, PartialEq, Eq)]
pub struct LogId<NID> {
    pub leader_id: LeaderId<NID>,
    pub index: u64,
}

impl<NID: NodeId> LeaderId<NID> {
    /// Leader ids are ordered by term, then by node id.
    pub open spec fn precedes(self, other: Self) -> bool {
        self.term < other.term || (self.term == other.term && self.node_id.rank()
            < other.node_id.rank())
    }

    /// Whether this leader id comes before `other`.
    pub fn is_before(&self, other: &Self) -> (r: bool)
        ensures
            r == self.precedes(*other),
    {
        self.term < other.term || (self.term == other.term && self.node_id.is_before(
            &other.node_id,
        ))
    }

    /// Whether two leader ids are the same.
    pub fn is_same(&self, other: &Self) -> (r: bool)
        ensures
            r == (*self == *other),
    {
        self.term == other.term && same_id(&self.node_id, &other.node_id)
    }
}

impl<NID: NodeId> LogId<NID> {
    /// Log ids are ordered by leader id, then by index.
    pub open spec fn precedes(self, other: Self) -> bool {
        self.leader_id.precedes(other.leader_id) || (self.leader_id == other.leader_id && self.index
            < other.index)
    }

    /// Makes the id of the entry at `index` that `leader_id` proposed.
    pub fn new(leader_id: LeaderId<NID>, index: u64) -> (r: Self)
        ensures
            r == (LogId { leader_id, index }),
    {
        LogId { leader_id, index }
    }

    /// Whether this log id comes before `other`.
    pub fn is_before(&self, other: &Self) -> (r: bool)
        ensures
            r == self.precedes(*other),
    {
        self.leader_id.is_before(&other.leader_id) || (self.leader_id.is_same(&other.leader_id)
            && self.index < other.index)
    }

    /// Whether two log ids are the same.
    pub fn is_same(&self, other: &Self) -> (r: bool)
        ensures
            r == (*self == *other),
    {
        self.index == other.index && self.leader_id.is_same(&other.leader_id)
    }

    /// The id can come right behind `before` in a log.
    pub open spec fn follows(self, before: Self) -> bool {
        self.index == before.index + 1 && !self.leader_id.precedes(before.leader_id)
    }

    /// Whether the id can come right behind `before` in a log.
    pub fn is_next_to(&self, before: &Self) -> (r: bool)
        ensures
            r == self.follows(*before),
    {
        before.index < u64::MAX && self.index == before.index + 1 && !self.leader_id.is_before(
            &before.leader_id,
        )
    }

    /// Whether this id and `other` can be in the same log.
    pub fn fits(&self, other: &Self) -> (r: bool)
        ensures
            r == fit(*self, *other),
    {
        if self.index < other.index {
            self.is_before(other)
        } else if self.index == other.index {
            self.is_same(other)
        } else {
            other.is_before(self)
        }
    }
}

/// Of any two leader ids, either they are the same or exactly one comes before the other.
pub proof fn lemma_leader_order_is_total<NID: NodeId>(a: LeaderId<NID>, b: LeaderId<NID>)
    ensures
        a == b || a.precedes(b) || b.precedes(a),
        !(a.precedes(b) && b.precedes(a)),
        a == b ==> !a.precedes(b),
{
    if a.node_id.rank() == b.node_id.rank() {
        NID::rank_is_injective(a.node_id, b.node_id);
    }
}

/// Of any two log ids, either they are the same or exactly one comes before the other.
pub proof fn lemma_log_id_order_is_total<NID: NodeId>(a: LogId<NID>, b: LogId<NID>)
    ensures
        a == b || a.precedes(b) || b.precedes(a),
        !(a.precedes(b) && b.precedes(a)),
        a == b ==> !a.precedes(b),
{
    lemma_leader_order_is_total(a.leader_id, b.leader_id);
}

/// The order of positions in a log: an absent log id comes before every log id.
pub open spec fn opt_precedes<NID: NodeId>(a: Option<LogId<NID>>, b: Option<LogId<NID>>) -> bool {
    match (a, b) {
        (_, None) => false,
        (None, Some(_)) => true,
        (Some(x), Some(y)) => x.precedes(y),
    }
}

/// Whether `a` comes before `b`, where an absent log id comes before every log id.
pub fn opt_is_before<NID: NodeId>(a: &Option<LogId<NID>>, b: &Option<LogId<NID>>) -> (r: bool)
    ensures
        r == opt_precedes(*a, *b),
{
    match (a, b) {
        (_, None) => false,
        (None, Some(_)) => true,
        (Some(x), Some(y)) => x.is_before(y),
    }
}

/// The order of positions is a strict total order.
pub proof fn lemma_opt_order<NID: NodeId>(a: Option<LogId<NID>>, b: Option<LogId<NID>>)
    ensures
        a == b || opt_precedes(a, b) || opt_precedes(b, a),
        !(opt_precedes(a, b) && opt_precedes(b, a)),
        a == b ==> !opt_precedes(a, b),
{
    match (a, b) {
        (Some(x), Some(y)) => {
            lemma_log_id_order_is_total(x, y);
        },
        _ => {},
    }
}

/// The index that follows a log id: zero if there is none.
pub open spec fn next_index<NID>(id: Option<LogId<NID>>) -> int {
    match id {
        Some(l) => l.index + 1,
        None => 0,
    }
}

/// The index that follows `id`, or zero if `id` is absent.
pub fn index_after<NID>(id: &Option<LogId<NID>>) -> (r: u64)
    requires
        next_index(*id) <= u64::MAX,
    ensures
        r == next_index(*id),
{
    match id {
        Some(l) => l.index + 1,
        None => 0,
    }
}

/// Two log ids that can stand in one log: they are ordered by index as they are by id.
pub open spec fn fit<NID: NodeId>(a: LogId<NID>, b: LogId<NID>) -> bool {
    &&& a.index < b.index ==> a.precedes(b)
    &&& a.index == b.index ==> a == b
    &&& a.index > b.index ==> b.precedes(a)
}

/// A log: the indexes are consecutive and the leader ids never go back.
pub open spec fn is_log<NID: NodeId>(ids: Seq<LogId<NID>>) -> bool {
    &&& forall|i: int, j: int|
        0 <= i <= j < ids.len() ==> #[trigger] ids[j].index == #[trigger] ids[i].index + (j - i)
    &&& forall|i: int, j: int|
        0 <= i <= j < ids.len() ==> !(#[trigger] ids[j]).leader_id.precedes(
            (#[trigger] ids[i]).leader_id,
        )
}

/// The last log id of a log.
pub open spec fn last_of<NID>(ids: Seq<LogId<NID>>) -> Option<LogId<NID>> {
    if ids.len() == 0 {
        None
    } else {
        Some(ids.last())
    }
}

/// The log id at an index of a log with consecutive indexes.
pub open spec fn id_at<NID>(ids: Seq<LogId<NID>>, index: int) -> Option<LogId<NID>> {
    if ids.len() > 0 && ids[0].index <= index <= ids.last().index {
        Some(ids[index - ids[0].index])
    } else {
        None
    }
}

/// The log holds `id`.
pub open spec fn holds<NID>(ids: Seq<LogId<NID>>, id: LogId<NID>) -> bool {
    id_at(ids, id.index as int) == Some(id)
}

/// The part of a log before the index `at`.
pub open spec fn cut_at<NID>(ids: Seq<LogId<NID>>, at: int) -> Seq<LogId<NID>> {
    if ids.len() == 0 || ids.last().index < at {
        ids
    } else if at <= ids[0].index {
        Seq::empty()
    } else {
        ids.take(at - ids[0].index)
    }
}

/// What is left of a log when everything before `upto` is dropped. `upto` itself stays, as
/// the id of the last entry that is gone.
pub open spec fn purged_to<NID>(ids: Seq<LogId<NID>>, upto: LogId<NID>) -> Seq<LogId<NID>> {
    if upto.index >= next_index(last_of(ids)) {
        seq![upto]
    } else if upto.index < ids[0].index {
        ids
    } else {
        ids.skip(upto.index - ids[0].index)
    }
}

/// Two ids of one log fit each other.
pub proof fn lemma_log_ids_fit<NID: NodeId>(ids: Seq<LogId<NID>>, a: LogId<NID>, b: LogId<NID>)
    requires
        is_log(ids),
        holds(ids, a),
        holds(ids, b),
    ensures
        fit(a, b),
{
    let i = a.index - ids[0].index;
    let j = b.index - ids[0].index;
    assert(ids[ids.len() - 1].index == ids[0].index + (ids.len() - 1));
    lemma_leader_order_is_total(a.leader_id, b.leader_id);
    if i <= j {
        assert(!ids[j].leader_id.precedes(ids[i].leader_id));
    } else {
        assert(!ids[i].leader_id.precedes(ids[j].leader_id));
    }
}

/// A part of a log is a log.
pub proof fn lemma_part_of_log<NID: NodeId>(ids: Seq<LogId<NID>>, from: int, to: int)
    requires
        is_log(ids),
        0 <= from <= to <= ids.len(),
    ensures
        is_log(ids.subrange(from, to)),
{
    let part = ids.subrange(from, to);
    assert forall|i: int, j: int| 0 <= i <= j < part.len()
        implies #[trigger] part[j].index == #[trigger] part[i].index + (j - i) by {
        assert(ids[from + j].index == ids[from + i].index + (j - i));
    }
    assert forall|i: int, j: int| 0 <= i <= j < part.len()
        implies !(#[trigger] part[j]).leader_id.precedes((#[trigger] part[i]).leader_id) by {
        assert(!ids[from + j].leader_id.precedes(ids[from + i].leader_id));
    }
}

/// Two logs make one when the second starts where the first ends, and not with an earlier
/// leader.
pub proof fn lemma_join_logs<NID: NodeId>(a: Seq<LogId<NID>>, b: Seq<LogId<NID>>)
    requires
        is_log(a),
        is_log(b),
        a.len() > 0 && b.len() > 0 ==> {
            &&& b[0].index == a.last().index + 1
            &&& !b[0].leader_id.precedes(a.last().leader_id)
        },
    ensures
        is_log(a + b),
{
    let c = a + b;
    let n = a.len() as int;
    assert forall|i: int, j: int| 0 <= i <= j < c.len()
        implies #[trigger] c[j].index == #[trigger] c[i].index + (j - i) by {
        if i < n && j >= n {
            assert(a[n - 1].index == a[i].index + (n - 1 - i));
            assert(b[j - n].index == b[0].index + (j - n));
        }
    }
    assert forall|i: int, j: int| 0 <= i <= j < c.len()
        implies !(#[trigger] c[j]).leader_id.precedes((#[trigger] c[i]).leader_id) by {
        if i < n && j >= n {
            let (x, y, z, w) = (
                a[i].leader_id,
                a[n - 1].leader_id,
                b[0].leader_id,
                b[j - n].leader_id,
            );
            assert(!y.precedes(x));
            assert(!w.precedes(z));
            lemma_leader_order_is_total(x, y);
            lemma_leader_order_is_total(y, z);
            lemma_leader_order_is_total(z, w);
            lemma_leader_order_is_total(x, w);
        }
    }
}

/// An order between three positions.
pub proof fn lemma_order_chain<NID: NodeId>(
    a: Option<LogId<NID>>,
    b: Option<LogId<NID>>,
    c: Option<LogId<NID>>,
)
    ensures
        !opt_precedes(b, a) && !opt_precedes(c, b) ==> !opt_precedes(c, a),
        opt_precedes(a, b) && !opt_precedes(c, b) ==> opt_precedes(a, c),
        !opt_precedes(b, a) && opt_precedes(b, c) ==> opt_precedes(a, c),
{
    lemma_opt_order(a, b);
    lemma_opt_order(b, c);
    lemma_opt_order(a, c);
}

/// Whether `a` is not at a later index than `b`.
pub fn is_upto<NID>(a: &Option<LogId<NID>>, b: &Option<LogId<NID>>) -> (r: bool)
    ensures
        r == (next_index(*a) <= next_index(*b)),
{
    match (a, b) {
        (None, _) => true,
        (Some(_), None) => false,
        (Some(x), Some(y)) => x.index <= y.index,
    }
}

/// Ids of which each can come right behind the one before it are a log.
pub proof fn lemma_log_by_neighbours<NID: NodeId>(ids: Seq<LogId<NID>>)
    requires
        forall|k: int| 0 < k < ids.len() ==> (#[trigger] ids[k]).follows(ids[k - 1]),
    ensures
        is_log(ids),
    decreases ids.len(),
{
    if ids.len() > 0 {
        let front = ids.drop_last();
        let last = seq![ids.last()];
        assert forall|k: int| 0 < k < front.len() implies (#[trigger] front[k]).follows(
            front[k - 1],
        ) by {
            assert(ids[k].follows(ids[k - 1]));
        }
        lemma_log_by_neighbours(front);
        lemma_leader_order_is_total(ids.last().leader_id, ids.last().leader_id);
        if front.len() > 0 {
            assert(ids[ids.len() - 1].follows(ids[ids.len() - 2]));
        }
        lemma_join_logs(front, last);
        assert(front + last =~= ids);
    }
}

} // verus!
