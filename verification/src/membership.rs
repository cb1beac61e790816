//! Cluster membership: voters, learners, quorums, and which membership is in force.

use crate::log_id::{opt_is_before, opt_precedes, LogId};
use crate::node::{same_id, Node, NodeId};
use crate::node_set::{in_order, is_majority, NodeSet};
use vstd::prelude::*;

verus! {

/// The ids that occur in at least one of the configs.
pub open spec fn members_of<NID>(configs: Seq<Set<NID>>) -> Set<NID> {
    Set::new(|id: NID| exists|i: int| 0 <= i < configs.len() && #[trigger] configs[i].contains(id))
}

/// The ids make up a majority of every config.
pub open spec fn is_quorum<NID>(configs: Seq<Set<NID>>, ids: Set<NID>) -> bool {
    forall|i: int| 0 <= i < configs.len() ==> is_majority(#[trigger] configs[i], ids)
}

/// The member sets of a list of configs.
pub open spec fn configs_of<NID: NodeId>(configs: Seq<NodeSet<NID>>) -> Seq<Set<NID>> {
    Seq::new(configs.len(), |i: int| configs[i]@)
}

/// What is known about each node. Of two records for one node the later one counts.
pub open spec fn node_map<NID, N: Node>(nodes: Seq<(NID, N)>) -> Map<NID, N::V>
    decreases nodes.len(),
{
    if nodes.len() == 0 {
        Map::empty()
    } else {
        node_map(nodes.drop_last()).insert(nodes.last().0, nodes.last().1@)
    }
}

/// The view of a membership.
#[verifier::ext_equal]
#[verifier::reject_recursive_types(NID)]
pub struct MembershipView<NID, M> {
    pub configs: Seq<Set<NID>>,
    pub nodes: Map<NID, M>,
}

impl<NID, M> MembershipView<NID, M> {
    /// The nodes that vote.
    pub open spec fn voters(self) -> Set<NID> {
        members_of(self.configs)
    }

    /// The nodes that receive the log without voting.
    pub open spec fn learners(self) -> Set<NID> {
        self.nodes.dom().difference(self.voters())
    }
}

/// A membership: one config of voters, or several while the cluster changes from one to the
/// next, and a record of every node.
#[derive(Debug, PartialEq, Eq)]
pub struct Membership<NID: NodeId, N: Node> {
    pub configs: Vec<NodeSet<NID>>,
    pub nodes: Vec<(NID, N)>,
}

/// The part that a node plays in a membership.
#[derive(Clone, Copy, Debug, PartialEq, Eq)]
pub enum NodeRole {
    Voter,
    Learner,
}

impl<NID: NodeId, N: Node> View for Membership<NID, N> {
    type V = MembershipView<NID, N::V>;

    open spec fn view(&self) -> MembershipView<NID, N::V> {
        MembershipView { configs: configs_of(self.configs@), nodes: node_map(self.nodes@) }
    }
}

/// Copies a list of configs.
pub fn clone_configs<NID: NodeId>(configs: &Vec<NodeSet<NID>>) -> (r: Vec<NodeSet<NID>>)
    ensures
        configs_of(r@) == configs_of(configs@),
{
    let mut r: Vec<NodeSet<NID>> = Vec::new();
    let mut i: usize = 0;
    while i < configs.len()
        invariant
            i <= configs@.len(),
            r@.len() == i,
            forall|k: int| 0 <= k < i ==> (#[trigger] r@[k])@ == configs@[k]@,
        decreases configs@.len() - i,
    {
        r.push(configs[i].clone());
        i += 1;
    }
    assert(configs_of(r@) =~= configs_of(configs@));
    r
}

/// Whether `ids` make up a majority of every config.
pub fn has_quorum<NID: NodeId>(configs: &Vec<NodeSet<NID>>, ids: &NodeSet<NID>) -> (r: bool)
    ensures
        r == is_quorum(configs_of(configs@), ids@),
{
    let mut i: usize = 0;
    while i < configs.len()
        invariant
            i <= configs@.len(),
            forall|k: int|
                0 <= k < i ==> is_majority(#[trigger] configs_of(configs@)[k], ids@),
        decreases configs@.len() - i,
    {
        if !configs[i].is_majority_in(ids) {
            assert(!is_majority(configs_of(configs@)[i as int], ids@));
            return false;
        }
        i += 1;
    }
    true
}

/// The ids that occur in at least one of the configs.
pub fn member_ids<NID: NodeId>(configs: &Vec<NodeSet<NID>>) -> (r: NodeSet<NID>)
    ensures
        r@ == members_of(configs_of(configs@)),
{
    let mut r: NodeSet<NID> = NodeSet::new();
    let mut i: usize = 0;
    let ghost all = configs_of(configs@);
    assert(r@ =~= members_of(all.take(0)));
    while i < configs.len()
        invariant
            i <= configs@.len(),
            all == configs_of(configs@),
            r@ == members_of(all.take(i as int)),
        decreases configs@.len() - i,
    {
        r.extend(&configs[i]);
        proof {
            let shorter = all.take(i as int);
            let longer = all.take(i + 1);
            assert forall|id: NID| members_of(longer).contains(id)
                implies members_of(shorter).union(all[i as int]).contains(id) by {
                let k = choose|k: int| 0 <= k < longer.len() && #[trigger] longer[k].contains(id);
                if k < i {
                    assert(shorter[k].contains(id));
                }
            }
            assert forall|id: NID| members_of(shorter).union(all[i as int]).contains(id)
                implies members_of(longer).contains(id) by {
                if all[i as int].contains(id) {
                    assert(longer[i as int].contains(id));
                } else {
                    let k = choose|k: int|
                        0 <= k < shorter.len() && #[trigger] shorter[k].contains(id);
                    assert(longer[k].contains(id));
                }
            }
            assert(members_of(longer) =~= members_of(shorter).union(all[i as int]));
        }
        i += 1;
    }
    assert(all.take(i as int) =~= all);
    r
}

proof fn lemma_node_map_domain<NID, N: Node>(nodes: Seq<(NID, N)>, id: NID)
    ensures
        node_map(nodes).dom().contains(id) <==> exists|k: int|
            0 <= k < nodes.len() && (#[trigger] nodes[k]).0 == id,
    decreases nodes.len(),
{
    if nodes.len() > 0 {
        let rest = nodes.drop_last();
        lemma_node_map_domain(rest, id);
        if node_map(nodes).dom().contains(id) {
            if nodes.last().0 == id {
                assert(nodes[nodes.len() - 1].0 == id);
            } else {
                let k = choose|k: int| 0 <= k < rest.len() && (#[trigger] rest[k]).0 == id;
                assert(nodes[k].0 == id);
            }
        }
        if exists|k: int| 0 <= k < nodes.len() && (#[trigger] nodes[k]).0 == id {
            let k = choose|k: int| 0 <= k < nodes.len() && (#[trigger] nodes[k]).0 == id;
            if k < rest.len() {
                assert(rest[k].0 == id);
            }
        }
    }
}

impl<NID: NodeId, N: Node> Membership<NID, N> {
    /// Makes a membership with the given configs of voters and no node records.
    pub fn new(configs: Vec<NodeSet<NID>>) -> (r: Self)
        ensures
            r@.configs == configs_of(configs@),
            r@.nodes == Map::<NID, N::V>::empty(),
    {
        Membership { configs, nodes: Vec::new() }
    }

    /// Records a node. A node that is in no config is a learner.
    pub fn add_node(&mut self, id: NID, node: N)
        ensures
            final(self)@.configs == old(self)@.configs,
            final(self)@.nodes == old(self)@.nodes.insert(id, node@),
    {
        let ghost before = self.nodes@;
        self.nodes.push((id, node));
        assert(self.nodes@.drop_last() =~= before);
    }

    /// Whether `id` votes.
    pub fn is_voter(&self, id: &NID) -> (r: bool)
        ensures
            r == self@.voters().contains(*id),
    {
        let mut i: usize = 0;
        while i < self.configs.len()
            invariant
                i <= self.configs@.len(),
                forall|k: int|
                    0 <= k < i ==> !(#[trigger] configs_of(self.configs@)[k]).contains(*id),
            decreases self.configs@.len() - i,
        {
            if self.configs[i].contains(id) {
                assert(configs_of(self.configs@)[i as int].contains(*id));
                return true;
            }
            i += 1;
        }
        false
    }

    /// The part that a node plays, if it is a member.
    pub fn get_node_role(&self, id: &NID) -> (r: Option<NodeRole>)
        ensures
            r == (if self@.voters().contains(*id) {
                Some(NodeRole::Voter)
            } else if self@.nodes.dom().contains(*id) {
                Some(NodeRole::Learner)
            } else {
                None
            }),
    {
        if self.is_voter(id) {
            return Some(NodeRole::Voter);
        }
        proof {
            lemma_node_map_domain(self.nodes@, *id);
        }
        let mut i: usize = 0;
        while i < self.nodes.len()
            invariant
                i <= self.nodes@.len(),
                !self@.voters().contains(*id),
                self@.nodes.dom().contains(*id) <==> exists|k: int|
                    0 <= k < self.nodes@.len() && (#[trigger] self.nodes@[k]).0 == *id,
                forall|k: int| 0 <= k < i ==> (#[trigger] self.nodes@[k]).0 != *id,
            decreases self.nodes@.len() - i,
        {
            if same_id(&self.nodes[i].0, id) {
                assert(self.nodes@[i as int].0 == *id);
                return Some(NodeRole::Learner);
            }
            i += 1;
        }
        None
    }

    /// The ids of the learners, in ascending order.
    pub fn learner_ids(&self) -> (r: Vec<NID>)
        ensures
            r@ == in_order(self@.learners()),
            r@.to_set() == self@.learners(),
    {
        let mut set: NodeSet<NID> = NodeSet::new();
        let mut i: usize = 0;
        let ghost nodes = self.nodes@;
        let ghost voters = self@.voters();
        assert(set@ =~= node_map(nodes.take(0)).dom().difference(voters));
        while i < self.nodes.len()
            invariant
                i <= self.nodes@.len(),
                nodes == self.nodes@,
                voters == self@.voters(),
                set@ == node_map(nodes.take(i as int)).dom().difference(voters),
            decreases self.nodes@.len() - i,
        {
            let id = self.nodes[i].0;
            assert(nodes.take(i + 1).drop_last() =~= nodes.take(i as int));
            if !self.is_voter(&id) {
                set.insert(id);
            }
            assert(set@ =~= node_map(nodes.take(i + 1)).dom().difference(voters));
            i += 1;
        }
        assert(nodes.take(i as int) =~= nodes);
        set.to_vec()
    }
}

impl<NID: NodeId, N: Node> Clone for Membership<NID, N> {
    fn clone(&self) -> (r: Self)
        ensures
            r@ == self@,
    {
        let configs = clone_configs(&self.configs);
        let mut nodes: Vec<(NID, N)> = Vec::new();
        let mut i: usize = 0;
        while i < self.nodes.len()
            invariant
                i <= self.nodes@.len(),
                nodes@.len() == i,
                node_map(nodes@) == node_map(self.nodes@.take(i as int)),
            decreases self.nodes@.len() - i,
        {
            let ghost before = nodes@;
            nodes.push((self.nodes[i].0, self.nodes[i].1.duplicate()));
            assert(nodes@.drop_last() =~= before);
            assert(self.nodes@.take(i + 1).drop_last() =~= self.nodes@.take(i as int));
            i += 1;
        }
        assert(self.nodes@.take(i as int) =~= self.nodes@);
        Membership { configs, nodes }
    }
}

/// The view of an effective membership.
#[verifier::ext_equal]
#[verifier::reject_recursive_types(NID)]
pub struct EffectiveMembershipView<NID, M> {
    pub log_id: Option<LogId<NID>>,
    pub membership: MembershipView<NID, M>,
}

/// A membership, with the id of the log entry that holds it.
#[derive(Debug, PartialEq, Eq)]
pub struct EffectiveMembership<NID: NodeId, N: Node> {
    pub log_id: Option<LogId<NID>>,
    pub membership: Membership<NID, N>,
}

impl<NID: NodeId, N: Node> View for EffectiveMembership<NID, N> {
    type V = EffectiveMembershipView<NID, N::V>;

    open spec fn view(&self) -> EffectiveMembershipView<NID, N::V> {
        EffectiveMembershipView { log_id: self.log_id, membership: self.membership@ }
    }
}

impl<NID: NodeId, N: Node> EffectiveMembership<NID, N> {
    /// Pairs a membership with the id of its log entry.
    pub fn new(log_id: Option<LogId<NID>>, membership: Membership<NID, N>) -> (r: Self)
        ensures
            r@ == (EffectiveMembershipView { log_id, membership: membership@ }),
    {
        EffectiveMembership { log_id, membership }
    }

    /// Whether `id` votes.
    pub fn is_voter(&self, id: &NID) -> (r: bool)
        ensures
            r == self@.membership.voters().contains(*id),
    {
        self.membership.is_voter(id)
    }
}

impl<NID: NodeId, N: Node> Clone for EffectiveMembership<NID, N> {
    fn clone(&self) -> (r: Self)
        ensures
            r@ == self@,
    {
        EffectiveMembership { log_id: self.log_id, membership: self.membership.clone() }
    }
}

impl<NID: NodeId, N: Node> Default for EffectiveMembership<NID, N> {
    fn default() -> (r: Self)
        ensures
            r@ == EffectiveMembershipView::<NID, N::V>::none(),
    {
        let r = EffectiveMembership { log_id: None, membership: Membership::new(Vec::new()) };
        assert(r@ =~= EffectiveMembershipView::<NID, N::V>::none());
        r
    }
}

impl<NID, M> EffectiveMembershipView<NID, M> {
    /// No membership is known.
    pub open spec fn none() -> Self {
        EffectiveMembershipView {
            log_id: None,
            membership: MembershipView { configs: Seq::empty(), nodes: Map::empty() },
        }
    }
}

/// The view of a membership state.
#[verifier::ext_equal]
#[verifier::reject_recursive_types(NID)]
pub struct MembershipStateView<NID, M> {
    pub committed: EffectiveMembershipView<NID, M>,
    pub effective: EffectiveMembershipView<NID, M>,
}

impl<NID: NodeId, M> MembershipStateView<NID, M> {
    /// A new membership comes into force. There is at most one membership that is not
    /// committed, so the one it replaces counts as committed.
    pub open spec fn appended(self, m: EffectiveMembershipView<NID, M>) -> Self {
        MembershipStateView { committed: self.effective, effective: m }
    }

    /// The log is committed up to `upto`: the membership in force is committed with it if it
    /// is not beyond.
    pub open spec fn committed_to(self, upto: Option<LogId<NID>>) -> Self {
        if opt_precedes(upto, self.effective.log_id) {
            self
        } else {
            MembershipStateView { committed: self.effective, ..self }
        }
    }

    /// The membership in force is in the log at the index `since` or after it.
    pub open spec fn is_cut(self, since: int) -> bool {
        self.effective.log_id matches Some(l) && since <= l.index
    }

    /// The log loses the entries from `since` on: a membership among them is reverted to the
    /// committed one.
    pub open spec fn cut(self, since: int) -> Self {
        if self.is_cut(since) {
            MembershipStateView { effective: self.committed, ..self }
        } else {
            self
        }
    }
}

/// The last committed membership and the one in force, which is the last one in the log.
#[derive(Debug, PartialEq, Eq)]
pub struct MembershipState<NID: NodeId, N: Node> {
    pub committed: EffectiveMembership<NID, N>,
    pub effective: EffectiveMembership<NID, N>,
}

impl<NID: NodeId, N: Node> View for MembershipState<NID, N> {
    type V = MembershipStateView<NID, N::V>;

    open spec fn view(&self) -> MembershipStateView<NID, N::V> {
        MembershipStateView { committed: self.committed@, effective: self.effective@ }
    }
}

impl<NID: NodeId, N: Node> MembershipState<NID, N> {
    /// Puts a new membership into force.
    pub fn append(&mut self, m: EffectiveMembership<NID, N>)
        ensures
            final(self)@ == old(self)@.appended(m@),
    {
        self.committed = self.effective.clone();
        self.effective = m;
    }

    /// Notes that the log is committed up to `upto`.
    pub fn commit(&mut self, upto: &Option<LogId<NID>>)
        ensures
            final(self)@ == old(self)@.committed_to(*upto),
    {
        if !opt_is_before(upto, &self.effective.log_id) {
            self.committed = self.effective.clone();
        }
    }

    /// Notes that the log entries from the index `since` on are gone. If the membership in
    /// force was among them, the one that replaces it is returned.
    pub fn truncate(&mut self, since: u64) -> (r: Option<EffectiveMembership<NID, N>>)
        ensures
            final(self)@ == old(self)@.cut(since as int),
            r is Some <==> old(self)@.is_cut(since as int),
            r matches Some(m) ==> m@ == final(self)@.effective,
    {
        let cut = match &self.effective.log_id {
            Some(l) => since <= l.index,
            None => false,
        };
        if cut {
            self.effective = self.committed.clone();
            Some(self.effective.clone())
        } else {
            None
        }
    }
}

impl<NID: NodeId, N: Node> Clone for MembershipState<NID, N> {
    fn clone(&self) -> (r: Self)
        ensures
            r@ == self@,
    {
        MembershipState { committed: self.committed.clone(), effective: self.effective.clone() }
    }
}

impl<NID: NodeId, N: Node> Default for MembershipState<NID, N> {
    fn default() -> (r: Self)
        ensures
            r@ == (MembershipStateView {
                committed: EffectiveMembershipView::<NID, N::V>::none(),
                effective: EffectiveMembershipView::none(),
            }),
    {
        MembershipState {
            committed: EffectiveMembership::default(),
            effective: EffectiveMembership::default(),
        }
    }
}

/// Two quorums of one membership have a voter in common.
pub proof fn law_quorums_meet<NID>(configs: Seq<Set<NID>>, a: Set<NID>, b: Set<NID>)
    requires
        configs.len() > 0,
        configs[0].finite(),
        is_quorum(configs, a),
        is_quorum(configs, b),
    ensures
        exists|id: NID| #[trigger] members_of(configs).contains(id) && a.contains(id) && b.contains(id),
{
    crate::node_set::law_majorities_meet(configs[0], a, b);
    let id = choose|id: NID| #[trigger] configs[0].contains(id) && a.contains(id) && b.contains(id);
    assert(members_of(configs).contains(id));
}

} // verus!
