//! A compact list of the log ids of a node.

use crate::log_id::{
    cut_at, id_at, is_log, last_of, lemma_leader_order_is_total, purged_to, LogId,
};
use crate::node::NodeId;
use vstd::prelude::*;

verus! {

/// The indexes of the key log ids are strictly ascending.
pub open spec fn keys_ascend<NID>(keys: Seq<LogId<NID>>) -> bool {
    forall|i: int, j: int|
        0 <= i < j < keys.len() ==> (#[trigger] keys[i]).index < (#[trigger] keys[j]).index
}

/// The position of the last key whose index is not above `index`, or -1.
pub open spec fn key_for<NID>(keys: Seq<LogId<NID>>, index: int) -> int
    decreases keys.len(),
{
    if keys.len() == 0 {
        -1
    } else if keys.last().index <= index {
        keys.len() - 1
    } else {
        key_for(keys.drop_last(), index)
    }
}

/// All log ids that a list of keys stands for: from the first key to the last one, every
/// index belongs to the leader of the key before it.
pub open spec fn expand<NID>(keys: Seq<LogId<NID>>) -> Seq<LogId<NID>> {
    if keys.len() == 0 {
        Seq::empty()
    } else {
        Seq::new(
            (keys.last().index - keys[0].index + 1) as nat,
            |i: int|
                LogId {
                    leader_id: keys[key_for(keys, keys[0].index + i)].leader_id,
                    index: (keys[0].index + i) as u64,
                },
        )
    }
}

proof fn lemma_key_for<NID>(keys: Seq<LogId<NID>>, index: int, k: int)
    requires
        keys_ascend(keys),
        0 <= k < keys.len(),
        keys[k].index <= index,
        k + 1 < keys.len() ==> index < keys[k + 1].index,
    ensures
        key_for(keys, index) == k,
    decreases keys.len(),
{
    if k < keys.len() - 1 {
        assert(keys.last().index > index) by {
            if k + 1 < keys.len() - 1 {
                assert(keys[k + 1].index < keys[keys.len() - 1].index);
            }
        }
        lemma_key_for(keys.drop_last(), index, k);
    }
}

proof fn lemma_key_for_bounds<NID>(keys: Seq<LogId<NID>>, index: int)
    requires
        keys_ascend(keys),
        keys.len() > 0,
        keys[0].index <= index,
    ensures
        0 <= key_for(keys, index) < keys.len(),
        keys[key_for(keys, index)].index <= index,
        key_for(keys, index) + 1 < keys.len() ==> index < keys[key_for(keys, index) + 1].index,
    decreases keys.len(),
{
    if keys.last().index > index {
        lemma_key_for_bounds(keys.drop_last(), index);
    }
}

/// Keys whose leaders are in order stand for a log.
proof fn lemma_log_of_keys<NID: NodeId>(keys: Seq<LogId<NID>>)
    requires
        keys_ascend(keys),
        forall|j: int, k: int|
            0 <= j <= k < keys.len() ==> !(#[trigger] keys[k]).leader_id.precedes(
                (#[trigger] keys[j]).leader_id,
            ),
    ensures
        is_log(expand(keys)),
{
    let ids = expand(keys);
    if keys.len() > 0 {
        if keys.len() > 1 {
            assert(keys[0].index < keys[keys.len() - 1].index);
        }
        assert forall|i: int, j: int| 0 <= i <= j < ids.len() implies !(
        #[trigger] ids[j]).leader_id.precedes((#[trigger] ids[i]).leader_id) by {
            let (p, q) = (keys[0].index + i, keys[0].index + j);
            lemma_key_for_bounds(keys, p);
            lemma_key_for_bounds(keys, q);
            let (a, b) = (key_for(keys, p), key_for(keys, q));
            if b < a {
                if b + 1 < a {
                    assert(keys[b + 1].index < keys[a].index);
                }
            }
            assert(!keys[b].leader_id.precedes(keys[a].leader_id));
        }
    }
}

/// In a log, the leaders of the keys that stand for it are in order.
proof fn lemma_keys_in_log<NID: NodeId>(keys: Seq<LogId<NID>>, j: int, k: int)
    requires
        keys_ascend(keys),
        0 <= j < k < keys.len(),
        keys[k].leader_id.precedes(keys[j].leader_id),
    ensures
        !is_log(expand(keys)),
{
    let ids = expand(keys);
    let (a, b) = (keys[j].index - keys[0].index, keys[k].index - keys[0].index);
    if j > 0 {
        assert(keys[0].index < keys[j].index);
    }
    assert(keys[j].index < keys[k].index);
    if k < keys.len() - 1 {
        assert(keys[k].index < keys[keys.len() - 1].index);
    }
    lemma_key_for(keys, keys[j].index as int, j);
    lemma_key_for(keys, keys[k].index as int, k);
    assert(ids[a].leader_id == keys[j].leader_id);
    assert(ids[b].leader_id == keys[k].leader_id);
}

/// The log ids of a node, kept as the first log id, the first log id of each leader, and the
/// last log id. When entries were purged, the first log id is that of the last purged one.
#[derive(Debug, PartialEq, Eq)]
pub struct LogIdList<NID: NodeId> {
    keys: Vec<LogId<NID>>,
}

impl<NID: NodeId> View for LogIdList<NID> {
    type V = Seq<LogId<NID>>;

    closed spec fn view(&self) -> Seq<LogId<NID>> {
        expand(self.keys@)
    }
}

impl<NID: NodeId> Clone for LogIdList<NID> {
    fn clone(&self) -> (r: Self)
        ensures
            r@ == self@,
    {
        proof {
            use_type_invariant(self);
        }
        let mut keys: Vec<LogId<NID>> = Vec::new();
        let mut i: usize = 0;
        while i < self.keys.len()
            invariant
                i <= self.keys@.len(),
                keys@ == self.keys@.take(i as int),
            decreases self.keys@.len() - i,
        {
            keys.push(self.keys[i]);
            assert(keys@ =~= self.keys@.take(i + 1));
            i += 1;
        }
        assert(keys@ =~= self.keys@);
        LogIdList { keys }
    }
}

impl<NID: NodeId> LogIdList<NID> {
    #[verifier::type_invariant]
    spec fn inv(self) -> bool {
        keys_ascend(self.keys@)
    }

    /// Makes the empty list.
    pub fn empty() -> (r: Self)
        ensures
            r@ == Seq::<LogId<NID>>::empty(),
    {
        LogIdList { keys: Vec::new() }
    }

    /// Makes the list that the given keys stand for.
    pub fn new(keys: Vec<LogId<NID>>) -> (r: Self)
        requires
            keys_ascend(keys@),
        ensures
            r@ == expand(keys@),
    {
        LogIdList { keys }
    }

    /// The number of keys whose index is not above `index`.
    fn keys_upto(&self, index: u64) -> (r: usize)
        ensures
            r <= self.keys@.len(),
            forall|k: int| 0 <= k < r ==> (#[trigger] self.keys@[k]).index <= index,
            forall|k: int| r <= k < self.keys@.len() ==> (#[trigger] self.keys@[k]).index > index,
    {
        proof {
            use_type_invariant(self);
        }
        let mut lo: usize = 0;
        let mut hi: usize = self.keys.len();
        while lo < hi
            invariant
                lo <= hi <= self.keys@.len(),
                keys_ascend(self.keys@),
                forall|k: int| 0 <= k < lo ==> (#[trigger] self.keys@[k]).index <= index,
                forall|k: int|
                    hi <= k < self.keys@.len() ==> (#[trigger] self.keys@[k]).index > index,
            decreases hi - lo,
        {
            let mid: usize = lo + (hi - lo) / 2;
            if self.keys[mid].index <= index {
                assert forall|k: int| 0 <= k < mid + 1
                    implies (#[trigger] self.keys@[k]).index <= index by {
                    if k < mid {
                        assert(self.keys@[k].index < self.keys@[mid as int].index);
                    }
                }
                lo = mid + 1;
            } else {
                assert forall|k: int| mid <= k < self.keys@.len()
                    implies (#[trigger] self.keys@[k]).index > index by {
                    if k > mid {
                        assert(self.keys@[mid as int].index < self.keys@[k].index);
                    }
                }
                hi = mid;
            }
        }
        lo
    }

    /// The log id at `index`, if the list has one there.
    pub fn get(&self, index: u64) -> (r: Option<LogId<NID>>)
        ensures
            r == id_at(self@, index as int),
    {
        proof {
            use_type_invariant(self);
        }
        let n = self.keys_upto(index);
        let l = self.keys.len();
        if n == 0 || (n == l && self.keys[l - 1].index < index) {
            return None;
        }
        proof {
            lemma_key_for(self.keys@, index as int, n - 1);
            if n > 1 {
                assert(self.keys@[0].index < self.keys@[n - 1].index);
            }
            if n < l {
                assert(index < self.keys@[n as int].index);
                if n < l - 1 {
                    assert(self.keys@[n as int].index < self.keys@[l - 1].index);
                }
            }
        }
        Some(LogId { leader_id: self.keys[n - 1].leader_id, index })
    }

    /// The first log id of the list. From there on the index grows by one from each log id to
    /// the next.
    pub fn first(&self) -> (r: Option<LogId<NID>>)
        ensures
            r == (if self@.len() == 0 {
                None
            } else {
                Some(self@[0])
            }),
            forall|i: int|
                0 <= i < self@.len() ==> (#[trigger] self@[i]).index == self@[0].index + i,
    {
        proof {
            use_type_invariant(self);
        }
        if self.keys.len() == 0 {
            None
        } else {
            proof {
                let l = self.keys@.len();
                if l > 1 {
                    assert(self.keys@[0].index < self.keys@[l - 1].index);
                }
                lemma_key_for(self.keys@, self.keys@[0].index as int, 0);
            }
            Some(self.keys[0])
        }
    }

    /// The last log id of the list.
    pub fn last(&self) -> (r: Option<LogId<NID>>)
        ensures
            r == last_of(self@),
    {
        proof {
            use_type_invariant(self);
        }
        let l = self.keys.len();
        if l == 0 {
            None
        } else {
            proof {
                if l > 1 {
                    assert(self.keys@[0].index < self.keys@[l - 1].index);
                }
                lemma_key_for(self.keys@, self.keys@[l - 1].index as int, l - 1);
            }
            Some(self.keys[l - 1])
        }
    }

    /// Whether no log id is of an earlier leader than one before it.
    pub fn is_in_order(&self) -> (r: bool)
        ensures
            r == is_log(self@),
    {
        proof {
            use_type_invariant(self);
        }
        let mut i: usize = 1;
        while i < self.keys.len()
            invariant
                1 <= i,
                keys_ascend(self.keys@),
                forall|j: int, k: int|
                    0 <= j <= k < i && k < self.keys@.len() ==> !(#[trigger] self.keys@[k]).leader_id.precedes(
                        (#[trigger] self.keys@[j]).leader_id,
                    ),
            decreases self.keys@.len() - i,
        {
            if self.keys[i].leader_id.is_before(&self.keys[i - 1].leader_id) {
                proof {
                    lemma_keys_in_log(self.keys@, i - 1, i as int);
                }
                return false;
            }
            proof {
                let (a, b) = (self.keys@[i - 1].leader_id, self.keys@[i as int].leader_id);
                lemma_leader_order_is_total(b, b);
                assert forall|j: int| 0 <= j <= i implies !b.precedes(
                    (#[trigger] self.keys@[j]).leader_id,
                ) by {
                    if j < i {
                        assert(!self.keys@[i - 1].leader_id.precedes(self.keys@[j].leader_id));
                        lemma_leader_order_is_total(a, self.keys@[j].leader_id);
                        lemma_leader_order_is_total(a, b);
                    }
                }
            }
            i += 1;
        }
        proof {
            if self.keys@.len() == 1 {
                let a = self.keys@[0].leader_id;
                lemma_leader_order_is_total(a, a);
            }
            lemma_log_of_keys(self.keys@);
        }
        true
    }

    /// Appends the log id that follows the last one.
    pub fn append(&mut self, id: LogId<NID>)
        requires
            old(self)@.len() > 0 ==> id.index == old(self)@.last().index + 1,
        ensures
            final(self)@ == old(self)@.push(id),
    {
        proof {
            use_type_invariant(&*self);
        }
        let ghost before = self.keys@;
        let last = self.last();
        let mut keys: Vec<LogId<NID>> = Vec::new();
        std::mem::swap(&mut keys, &mut self.keys);
        let l = keys.len();
        proof {
            if l > 0 {
                assert(last == Some(before[l - 1]));
                if l > 1 {
                    assert(before[0].index < before[l - 1].index);
                }
            }
        }
        if l >= 2 && keys[l - 2].leader_id.is_same(&keys[l - 1].leader_id) {
            keys.set(l - 1, id);
        } else {
            keys.push(id);
        }
        proof {
            let after = keys@;
            assert(keys_ascend(after)) by {
                assert forall|i: int, j: int| 0 <= i < j < after.len()
                    implies (#[trigger] after[i]).index < (#[trigger] after[j]).index by {
                    if j == after.len() - 1 && i < l - 1 {
                        assert(before[i].index < before[l - 1].index);
                    }
                }
            }
            lemma_appended(before, after, id);
        }
        self.keys = keys;
    }

    /// Drops the log ids from the index `at` on.
    pub fn truncate(&mut self, at: u64)
        ensures
            final(self)@ == cut_at(old(self)@, at as int),
    {
        proof {
            use_type_invariant(&*self);
        }
        let ghost before = self.keys@;
        let ghost log = self@;
        let l = self.keys.len();
        if l == 0 {
            return;
        }
        let first = self.first();
        let last = self.last();
        if self.keys[l - 1].index < at {
            return;
        }
        if at <= self.keys[0].index {
            self.keys = Vec::new();
            return;
        }
        let n = self.keys_upto(at - 1);
        let mut keys: Vec<LogId<NID>> = Vec::new();
        std::mem::swap(&mut keys, &mut self.keys);
        keys.truncate(n);
        assert(0 < n < l);
        let tail = LogId { leader_id: keys[n - 1].leader_id, index: (at - 1) as u64 };
        if keys[n - 1].index < at - 1 {
            keys.push(tail);
        }
        proof {
            let after = keys@;
            assert(after.take(n as int) =~= before.take(n as int));
            assert(keys_ascend(after)) by {
                assert forall|i: int, j: int| 0 <= i < j < after.len()
                    implies (#[trigger] after[i]).index < (#[trigger] after[j]).index by {
                    assert(before[i].index <= at - 1);
                    if j < n {
                        assert(before[i].index < before[j].index);
                    } else if i < n - 1 {
                        assert(before[i].index < before[n - 1].index);
                    }
                }
            }
            assert(after[0] == before[0]);
            assert(after.last().index == at - 1);
            let target = log.take(at - before[0].index);
            assert(expand(after) =~= target) by {
                assert forall|i: int| 0 <= i < target.len() implies expand(after)[i]
                    == target[i] by {
                    let index = before[0].index + i;
                    lemma_key_for_bounds(before, index);
                    let k = key_for(before, index);
                    assert(k < n) by {
                        if k >= n {
                            assert(before[k].index > at - 1);
                        }
                    }
                    assert(before[n as int].index > at - 1);
                    if k + 1 < n {
                        assert(after[k + 1] == before[k + 1]);
                        lemma_key_for(after, index, k);
                    } else if after.len() == n as int {
                        lemma_key_for(after, index, k);
                    } else if index < at - 1 {
                        lemma_key_for(after, index, k);
                    } else {
                        lemma_key_for(after, index, n as int);
                    }
                }
            }
        }
        self.keys = keys;
    }

    /// Drops the log ids before `upto`.
    pub fn purge(&mut self, upto: &LogId<NID>)
        ensures
            final(self)@ == purged_to(old(self)@, *upto),
    {
        proof {
            use_type_invariant(&*self);
        }
        let ghost before = self.keys@;
        let ghost log = self@;
        let first = self.first();
        let last = self.last();
        let l = self.keys.len();
        if l == 0 || self.keys[l - 1].index < upto.index {
            let mut keys: Vec<LogId<NID>> = Vec::new();
            keys.push(*upto);
            assert(expand(keys@) =~= seq![*upto]) by {
                lemma_key_for(keys@, upto.index as int, 0);
            }
            self.keys = keys;
            return;
        }
        if upto.index < self.keys[0].index {
            return;
        }
        let n = self.keys_upto(upto.index);
        let mut keys: Vec<LogId<NID>> = Vec::new();
        std::mem::swap(&mut keys, &mut self.keys);
        let mut kept = keys.split_off(n - 1);
        let head = LogId { leader_id: kept[0].leader_id, index: upto.index };
        kept.set(0, head);
        proof {
            let after = kept@;
            assert(after.len() == l - (n - 1));
            assert(keys_ascend(after)) by {
                assert forall|i: int, j: int| 0 <= i < j < after.len()
                    implies (#[trigger] after[i]).index < (#[trigger] after[j]).index by {
                    assert(after[j] == before[j + (n - 1)]);
                    if i == 0 {
                        assert(before[j + (n - 1)].index > upto.index);
                    } else {
                        assert(before[i + (n - 1)].index < before[j + (n - 1)].index);
                    }
                }
            }
            let target = log.skip(upto.index - before[0].index);
            assert(after.last().index == before[l - 1].index);
            assert(expand(after) =~= target) by {
                assert forall|i: int| 0 <= i < target.len() implies expand(after)[i]
                    == target[i] by {
                    let index = upto.index + i;
                    lemma_key_for_bounds(before, index);
                    let k = key_for(before, index);
                    assert(k >= n - 1) by {
                        if k < n - 1 {
                            assert(before[k + 1].index <= upto.index);
                        }
                    }
                    lemma_key_for(after, index, k - (n - 1));
                }
            }
        }
        self.keys = kept;
    }
}

proof fn lemma_appended<NID: NodeId>(
    before: Seq<LogId<NID>>,
    after: Seq<LogId<NID>>,
    id: LogId<NID>,
)
    requires
        keys_ascend(before),
        keys_ascend(after),
        before.len() > 0 ==> id.index == before.last().index + 1,
        after == before.push(id) || (before.len() >= 2 && before[before.len() - 2].leader_id
            == before.last().leader_id && after == before.update(before.len() - 1, id)),
    ensures
        expand(after) == expand(before).push(id),
{
    let l = before.len() as int;
    let target = expand(before).push(id);
    if l == 0 {
        lemma_key_for(after, id.index as int, 0);
        assert(expand(after) =~= target);
    } else {
        assert(after[0] == before[0]);
        assert(after.last() == id);
        if l > 1 {
            assert(before[0].index < before[l - 1].index);
        }
        assert(expand(after).len() == target.len());
        assert forall|i: int| 0 <= i < target.len() implies expand(after)[i] == target[i] by {
            let index = before[0].index + i;
            if i < target.len() - 1 {
                lemma_key_for_bounds(before, index);
                let k = key_for(before, index);
                if after == before.push(id) {
                    if k < l - 1 {
                        assert(after[k + 1] == before[k + 1]);
                    }
                    lemma_key_for(after, index, k);
                } else {
                    if k == l - 1 {
                        assert(before[l - 2].index < before[l - 1].index);
                        lemma_key_for(after, index, l - 2);
                    } else if k == l - 2 {
                        lemma_key_for(after, index, k);
                    } else {
                        assert(after[k + 1] == before[k + 1]);
                        lemma_key_for(after, index, k);
                    }
                }
            } else {
                lemma_key_for(after, index, after.len() - 1);
            }
        }
        assert(expand(after) =~= target);
    }
}

/// Keys stand for one id at every index from that of the first to that of the last. Between two
/// keys the leader is that of the first of them, and the keys themselves are among the ids.
pub proof fn law_keys_stand_for_ids<NID>(keys: Seq<LogId<NID>>, k: int, i: int)
    requires
        keys_ascend(keys),
        0 <= k < keys.len(),
        keys[k].index <= i,
        k + 1 < keys.len() ==> i < keys[k + 1].index,
        i <= keys.last().index,
    ensures
        expand(keys).len() == keys.last().index - keys[0].index + 1,
        expand(keys)[i - keys[0].index] == (LogId {
            leader_id: keys[k].leader_id,
            index: i as u64,
        }),
        expand(keys)[keys[k].index - keys[0].index] == keys[k],
{
    if k > 0 {
        assert(keys[0].index < keys[k].index);
    }
    if k < keys.len() - 1 {
        assert(keys[k].index < keys[keys.len() - 1].index);
    }
    lemma_key_for(keys, i, k);
    lemma_key_for(keys, keys[k].index as int, k);
}

} // verus!
