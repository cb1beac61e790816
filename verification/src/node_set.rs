//! Ordered sets of node ids, and majorities.

use crate::node::{same_id, NodeId};
use vstd::prelude::*;
use vstd::set_lib::*;

verus! {

/// The ids stand in strictly ascending order.
pub open spec fn is_ascending<NID: NodeId>(ids: Seq<NID>) -> bool {
    forall|i: int, j: int|
        0 <= i < j < ids.len() ==> (#[trigger] ids[i]).rank() < (#[trigger] ids[j]).rank()
}

/// The members of a finite set, in ascending order.
pub open spec fn in_order<NID: NodeId>(set: Set<NID>) -> Seq<NID> {
    choose|ids: Seq<NID>| is_ascending(ids) && #[trigger] ids.to_set() == set
}

/// Only one ascending sequence has a given set of members.
pub proof fn lemma_in_order<NID: NodeId>(ids: Seq<NID>)
    requires
        is_ascending(ids),
    ensures
        in_order(ids.to_set()) == ids,
{
    let other = in_order(ids.to_set());
    assert(is_ascending(other) && other.to_set() == ids.to_set());
    lemma_ascending_unique(ids, other);
}

proof fn lemma_ascending_unique<NID: NodeId>(a: Seq<NID>, b: Seq<NID>)
    requires
        is_ascending(a),
        is_ascending(b),
        a.to_set() == b.to_set(),
    ensures
        a == b,
    decreases a.len(),
{
    if a.len() == 0 {
        if b.len() > 0 {
            assert(b.to_set().contains(b[0]));
            assert(a.to_set().contains(b[0]));
        }
        assert(a =~= b);
    } else if b.len() == 0 {
        assert(a.to_set().contains(a[0]));
        assert(b.to_set().contains(a[0]));
    } else {
        let x = a.last();
        let y = b.last();
        assert(b.to_set().contains(x)) by {
            assert(a.to_set().contains(x));
        }
        assert(a.to_set().contains(y)) by {
            assert(b.to_set().contains(y));
        }
        let i = choose|i: int| 0 <= i < b.len() && b[i] == x;
        let j = choose|j: int| 0 <= j < a.len() && a[j] == y;
        assert(x == y) by {
            if i < b.len() - 1 && j < a.len() - 1 {
                assert(b[i].rank() < b[b.len() - 1].rank());
                assert(a[j].rank() < a[a.len() - 1].rank());
            }
        }
        let pa = a.drop_last();
        let pb = b.drop_last();
        assert(pa.to_set() =~= pb.to_set()) by {
            assert forall|e: NID| pa.to_set().contains(e) implies pb.to_set().contains(e) by {
                lemma_drop_last_member(a, b, e);
            }
            assert forall|e: NID| pb.to_set().contains(e) implies pa.to_set().contains(e) by {
                lemma_drop_last_member(b, a, e);
            }
        }
        lemma_ascending_unique(pa, pb);
        assert(a =~= pa.push(x));
        assert(b =~= pb.push(y));
    }
}

proof fn lemma_drop_last_member<NID: NodeId>(a: Seq<NID>, b: Seq<NID>, e: NID)
    requires
        is_ascending(a),
        is_ascending(b),
        a.to_set() == b.to_set(),
        a.len() > 0,
        b.len() > 0,
        a.last() == b.last(),
        a.drop_last().to_set().contains(e),
    ensures
        b.drop_last().to_set().contains(e),
{
    let k = choose|k: int| 0 <= k < a.drop_last().len() && a.drop_last()[k] == e;
    assert(a[k] == e);
    assert(a.to_set().contains(a[k]));
    assert(b.to_set().contains(e));
    let m = choose|m: int| 0 <= m < b.len() && b[m] == e;
    assert(a[k].rank() < a[a.len() - 1].rank());
    assert(m < b.len() - 1);
    assert(b.drop_last()[m] == e);
}

/// A list in ascending order has room for any further id.
proof fn lemma_insert_in_order<NID: NodeId>(ids: Seq<NID>, id: NID) -> (r: Seq<NID>)
    requires
        is_ascending(ids),
        !ids.contains(id),
    ensures
        is_ascending(r),
        r.to_set() == ids.to_set().insert(id),
    decreases ids.len(),
{
    if ids.len() == 0 {
        let r = seq![id];
        assert(r[0] == id);
        assert(r.to_set() =~= ids.to_set().insert(id));
        r
    } else if ids.last().rank() < id.rank() {
        let r = ids.push(id);
        assert forall|e: NID| #[trigger] ids.to_set().insert(id).contains(e) implies r.contains(
            e,
        ) by {
            if e == id {
                assert(r[ids.len() as int] == e);
            } else {
                let k = choose|k: int| 0 <= k < ids.len() && ids[k] == e;
                assert(r[k] == e);
            }
        }
        assert(r.to_set() =~= ids.to_set().insert(id));
        r
    } else {
        let last = ids.last();
        let front = ids.drop_last();
        if id.rank() == last.rank() {
            NID::rank_is_injective(id, last);
            assert(ids[ids.len() - 1] == id);
        }
        let f = lemma_insert_in_order(front, id);
        let r = f.push(last);
        assert forall|k: int| 0 <= k < f.len() implies (#[trigger] f[k]).rank() < last.rank() by {
            assert(f.to_set().contains(f[k]));
            if f[k] != id {
                let j = choose|j: int| 0 <= j < front.len() && front[j] == f[k];
                assert(ids[j] == f[k]);
            }
        }
        assert forall|e: NID| #[trigger] r.to_set().contains(e) <==> ids.to_set().insert(
            id,
        ).contains(e) by {
            if r.contains(e) {
                let k = choose|k: int| 0 <= k < r.len() && r[k] == e;
                if k < f.len() {
                    assert(f.to_set().contains(f[k]));
                    if e != id {
                        let j = choose|j: int| 0 <= j < front.len() && front[j] == e;
                        assert(ids[j] == e);
                    }
                } else {
                    assert(ids[ids.len() - 1] == e);
                }
            }
            if ids.to_set().insert(id).contains(e) {
                if e == last {
                    assert(r[f.len() as int] == e);
                } else {
                    if e != id {
                        let j = choose|j: int| 0 <= j < ids.len() && ids[j] == e;
                        assert(front[j] == e);
                    }
                    assert(f.to_set().contains(e));
                    let k = choose|k: int| 0 <= k < f.len() && f[k] == e;
                    assert(r[k] == e);
                }
            }
        }
        assert(r.to_set() =~= ids.to_set().insert(id));
        r
    }
}

/// The members of a finite set can be listed in ascending order.
pub proof fn lemma_order_exists<NID: NodeId>(set: Set<NID>)
    requires
        set.finite(),
    ensures
        is_ascending(in_order(set)),
        in_order(set).to_set() == set,
    decreases set.len(),
{
    let ids = if set.len() == 0 {
        assert(Seq::<NID>::empty().to_set() =~= set);
        Seq::<NID>::empty()
    } else {
        let id = set.choose();
        let rest = set.remove(id);
        lemma_order_exists(rest);
        assert(!in_order(rest).contains(id)) by {
            assert(!in_order(rest).to_set().contains(id));
        }
        let r = lemma_insert_in_order(in_order(rest), id);
        assert(rest.insert(id) =~= set);
        r
    };
    assert(is_ascending(ids) && ids.to_set() == set);
}

/// More than half of the members of `config` are in `ids`.
pub open spec fn is_majority<NID>(config: Set<NID>, ids: Set<NID>) -> bool {
    2 * config.intersect(ids).len() > config.len()
}

/// A set of node ids.
#[derive(Debug, PartialEq, Eq)]
pub struct NodeSet<NID: NodeId> {
    ids: Vec<NID>,
}

impl<NID: NodeId> View for NodeSet<NID> {
    type V = Set<NID>;

    closed spec fn view(&self) -> Set<NID> {
        self.ids@.to_set()
    }
}

impl<NID: NodeId> NodeSet<NID> {
    #[verifier::type_invariant]
    spec fn inv(self) -> bool {
        is_ascending(self.ids@)
    }

    /// Makes the empty set.
    pub fn new() -> (r: Self)
        ensures
            r@ == Set::<NID>::empty(),
    {
        let r = NodeSet { ids: Vec::new() };
        assert(r@ =~= Set::<NID>::empty());
        r
    }

    /// Makes the set of the given ids.
    pub fn from_ids(ids: &[NID]) -> (r: Self)
        ensures
            r@ == ids@.to_set(),
    {
        let mut r = NodeSet::new();
        let mut i: usize = 0;
        assert(r@ =~= ids@.take(0).to_set());
        while i < ids.len()
            invariant
                i <= ids@.len(),
                r@ == ids@.take(i as int).to_set(),
            decreases ids@.len() - i,
        {
            r.insert(ids[i]);
            proof {
                lemma_take_next(ids@, i as int);
            }
            i += 1;
        }
        assert(ids@.take(i as int) =~= ids@);
        r
    }

    /// The number of ids in the set.
    pub fn len(&self) -> (r: usize)
        ensures
            r == self@.len(),
            self@.finite(),
    {
        proof {
            use_type_invariant(self);
            lemma_ascending_is_distinct(self.ids@);
            self.ids@.unique_seq_to_set();
            vstd::seq_lib::seq_to_set_is_finite(self.ids@);
        }
        self.ids.len()
    }

    /// Whether `id` is in the set.
    pub fn contains(&self, id: &NID) -> (r: bool)
        ensures
            r == self@.contains(*id),
    {
        let mut i: usize = 0;
        while i < self.ids.len()
            invariant
                i <= self.ids@.len(),
                forall|k: int| 0 <= k < i ==> self.ids@[k] != *id,
            decreases self.ids@.len() - i,
        {
            if same_id(&self.ids[i], id) {
                assert(self.ids@.to_set().contains(self.ids@[i as int]));
                return true;
            }
            i += 1;
        }
        false
    }

    /// Adds `id` to the set.
    pub fn insert(&mut self, id: NID)
        ensures
            final(self)@ == old(self)@.insert(id),
    {
        proof {
            use_type_invariant(&*self);
        }
        let mut ids: Vec<NID> = Vec::new();
        std::mem::swap(&mut ids, &mut self.ids);
        let ghost before = ids@;
        let mut i: usize = 0;
        while i < ids.len() && ids[i].is_before(&id)
            invariant
                i <= ids@.len(),
                forall|k: int| 0 <= k < i ==> (#[trigger] ids@[k]).rank() < id.rank(),
            decreases ids@.len() - i,
        {
            i += 1;
        }
        if i < ids.len() && same_id(&ids[i], &id) {
            assert(before.to_set().contains(before[i as int]));
            assert(before.to_set() =~= before.to_set().insert(id));
        } else {
            ids.insert(i, id);
            proof {
                if i < before.len() && before[i as int].rank() == id.rank() {
                    NID::rank_is_injective(before[i as int], id);
                }
                let after = ids@;
                assert(is_ascending(after)) by {
                    assert forall|p: int, q: int| 0 <= p < q < after.len()
                        implies (#[trigger] after[p]).rank() < (#[trigger] after[q]).rank() by {
                        if p < i && q < i {
                            assert(before[p].rank() < before[q].rank());
                        } else if p < i && q == i {
                        } else if p < i {
                            assert(before[p].rank() < before[q - 1].rank());
                        } else if p == i {
                            if q - 1 > i {
                                assert(before[i as int].rank() < before[q - 1].rank());
                            }
                        } else {
                            assert(before[p - 1].rank() < before[q - 1].rank());
                        }
                    }
                }
                assert(after.to_set() =~= before.to_set().insert(id)) by {
                    assert forall|e: NID| after.to_set().contains(e)
                        implies before.to_set().insert(id).contains(e) by {
                        let k = choose|k: int| 0 <= k < after.len() && after[k] == e;
                        if k < i {
                            assert(before[k] == e);
                        } else if k > i {
                            assert(before[k - 1] == e);
                        }
                    }
                    assert forall|e: NID| before.to_set().insert(id).contains(e)
                        implies after.to_set().contains(e) by {
                        if e == id {
                            assert(after[i as int] == e);
                        } else {
                            let k = choose|k: int| 0 <= k < before.len() && before[k] == e;
                            if k < i {
                                assert(after[k] == e);
                            } else {
                                assert(after[k + 1] == e);
                            }
                        }
                    }
                }
            }
        }
        self.ids = ids;
    }

    /// Adds all ids of `other` to the set.
    pub fn extend(&mut self, other: &NodeSet<NID>)
        ensures
            final(self)@ == old(self)@.union(other@),
    {
        let ghost before = self@;
        let mut i: usize = 0;
        assert(self@ =~= before.union(other.ids@.take(0).to_set()));
        while i < other.ids.len()
            invariant
                i <= other.ids@.len(),
                self@ == before.union(other.ids@.take(i as int).to_set()),
            decreases other.ids@.len() - i,
        {
            self.insert(other.ids[i]);
            proof {
                lemma_take_next(other.ids@, i as int);
                assert(self@ =~= before.union(other.ids@.take(i + 1).to_set()));
            }
            i += 1;
        }
        assert(other.ids@.take(i as int) =~= other.ids@);
    }

    /// The ids of the set in ascending order.
    pub fn to_vec(&self) -> (r: Vec<NID>)
        ensures
            r@ == in_order(self@),
            is_ascending(r@),
            r@.to_set() == self@,
    {
        proof {
            use_type_invariant(self);
            lemma_in_order(self.ids@);
        }
        let copy = self.clone();
        proof {
            use_type_invariant(&copy);
            lemma_in_order(copy.ids@);
        }
        copy.ids
    }

    /// Whether more than half of the ids of this set are in `ids`.
    pub fn is_majority_in(&self, ids: &NodeSet<NID>) -> (r: bool)
        ensures
            r == is_majority(self@, ids@),
    {
        proof {
            use_type_invariant(self);
            lemma_ascending_is_distinct(self.ids@);
            self.ids@.unique_seq_to_set();
        }
        let total = self.ids.len();
        let mut n: usize = 0;
        let mut i: usize = 0;
        assert(self.ids@.take(0).to_set().intersect(ids@) =~= Set::<NID>::empty());
        while i < self.ids.len()
            invariant
                i <= self.ids@.len(),
                self.ids@.no_duplicates(),
                n <= i,
                self.ids@.take(i as int).to_set().finite(),
                n == self.ids@.take(i as int).to_set().intersect(ids@).len(),
            decreases self.ids@.len() - i,
        {
            let found = ids.contains(&self.ids[i]);
            proof {
                lemma_count_next(self.ids@, i as int, ids@);
            }
            if found {
                n += 1;
            }
            i += 1;
        }
        assert(self.ids@.take(i as int) =~= self.ids@);
        n > total - n
    }
}

impl<NID: NodeId> Clone for NodeSet<NID> {
    fn clone(&self) -> (r: Self)
        ensures
            r@ == self@,
    {
        proof {
            use_type_invariant(self);
        }
        let mut ids: Vec<NID> = Vec::new();
        let mut i: usize = 0;
        while i < self.ids.len()
            invariant
                i <= self.ids@.len(),
                ids@ == self.ids@.take(i as int),
            decreases self.ids@.len() - i,
        {
            ids.push(self.ids[i]);
            assert(ids@ =~= self.ids@.take(i + 1));
            i += 1;
        }
        assert(ids@ =~= self.ids@);
        NodeSet { ids }
    }
}

proof fn lemma_ascending_is_distinct<NID: NodeId>(ids: Seq<NID>)
    requires
        is_ascending(ids),
    ensures
        ids.no_duplicates(),
{
    assert forall|i: int, j: int| 0 <= i < ids.len() && 0 <= j < ids.len() && i != j
        implies ids[i] != ids[j] by {
        if i < j {
            assert(ids[i].rank() < ids[j].rank());
        } else {
            assert(ids[j].rank() < ids[i].rank());
        }
    }
}

proof fn lemma_take_next<NID: NodeId>(s: Seq<NID>, i: int)
    requires
        0 <= i < s.len(),
    ensures
        s.take(i + 1).to_set() == s.take(i).to_set().insert(s[i]),
{
    let shorter = s.take(i);
    let longer = s.take(i + 1);
    let before = shorter.to_set();
    let after = longer.to_set();
    assert(after =~= before.insert(s[i])) by {
        assert forall|e: NID| after.contains(e) implies before.insert(s[i]).contains(e) by {
            let k = choose|k: int| 0 <= k < longer.len() && longer[k] == e;
            if k < i {
                assert(shorter[k] == e);
            }
        }
        assert forall|e: NID| before.insert(s[i]).contains(e) implies after.contains(e) by {
            if e == s[i] {
                assert(longer[i] == e);
            } else {
                let k = choose|k: int| 0 <= k < i && shorter[k] == e;
                assert(longer[k] == e);
            }
        }
    }
}

proof fn lemma_count_next<NID: NodeId>(s: Seq<NID>, i: int, ids: Set<NID>)
    requires
        0 <= i < s.len(),
        s.no_duplicates(),
    ensures
        s.take(i + 1).to_set().finite(),
        s.take(i + 1).to_set().intersect(ids).len() == s.take(i).to_set().intersect(ids).len() + (
        if ids.contains(s[i]) {
            1int
        } else {
            0
        }),
{
    let shorter = s.take(i);
    let longer = s.take(i + 1);
    let before = shorter.to_set();
    let after = longer.to_set();
    vstd::seq_lib::seq_to_set_is_finite(shorter);
    vstd::seq_lib::seq_to_set_is_finite(longer);
    assert(!before.contains(s[i])) by {
        if before.contains(s[i]) {
            let k = choose|k: int| 0 <= k < i && shorter[k] == s[i];
            assert(s[k] == s[i]);
        }
    }
    lemma_take_next(s, i);
    if ids.contains(s[i]) {
        assert(after.intersect(ids) =~= before.intersect(ids).insert(s[i]));
    } else {
        assert(after.intersect(ids) =~= before.intersect(ids));
    }
}

/// Two majorities of one set of nodes have a node in common.
pub proof fn law_majorities_meet<NID>(config: Set<NID>, a: Set<NID>, b: Set<NID>)
    requires
        config.finite(),
        is_majority(config, a),
        is_majority(config, b),
    ensures
        exists|id: NID| #[trigger] config.contains(id) && a.contains(id) && b.contains(id),
{
    let x = config.intersect(a);
    let y = config.intersect(b);
    let both = x.intersect(y);
    if both =~= Set::<NID>::empty() {
        assert(x.disjoint(y)) by {
            assert forall|id: NID| x.contains(id) implies !y.contains(id) by {
                assert(!both.contains(id));
            }
        }
        lemma_set_disjoint_lens(x, y);
        lemma_len_subset(x + y, config);
    }
    let id = choose|id: NID| both.contains(id);
    assert(config.contains(id) && a.contains(id) && b.contains(id));
}

} // verus!
