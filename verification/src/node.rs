//! What the library asks of a node id and of the data that describes a node.

use vstd::prelude::*;

verus! {

/// The id of a node: a small value with a total order and a default.
pub trait NodeId: Copy {
    /// The place of an id in the order of ids.
    spec fn rank(self) -> int;

    /// The default id.
    spec fn default_spec() -> Self;

    /// Different ids have different ranks.
    proof fn rank_is_injective(a: Self, b: Self)
        requires
            a.rank() == b.rank(),
        ensures
            a == b,
    ;

    /// Whether this id comes before `other`.
    fn is_before(&self, other: &Self) -> (r: bool)
        ensures
            r == (self.rank() < other.rank()),
    ;

    /// Returns the default id.
    fn default_id() -> (r: Self)
        ensures
            r == Self::default_spec(),
    ;
}

/// The data kept about a node, for example its address. The engine carries it along and
/// never looks into it.
pub trait Node: View + Sized {
    /// Makes a copy with the same content.
    fn duplicate(&self) -> (r: Self)
        ensures
            r@ == self@,
    ;
}

/// Whether two ids are the same.
pub fn same_id<NID: NodeId>(a: &NID, b: &NID) -> (r: bool)
    ensures
        r == (*a == *b),
{
    let r = !a.is_before(b) && !b.is_before(a);
    proof {
        if r {
            NID::rank_is_injective(*a, *b);
        }
    }
    r
}

impl NodeId for u64 {
    open spec fn rank(self) -> int {
        self as int
    }

    open spec fn default_spec() -> Self {
        0
    }

    proof fn rank_is_injective(a: Self, b: Self) {
    }

    fn is_before(&self, other: &Self) -> (r: bool) {
        *self < *other
    }

    fn default_id() -> (r: Self) {
        0
    }
}

impl NodeId for u32 {
    open spec fn rank(self) -> int {
        self as int
    }

    open spec fn default_spec() -> Self {
        0
    }

    proof fn rank_is_injective(a: Self, b: Self) {
    }

    fn is_before(&self, other: &Self) -> (r: bool) {
        *self < *other
    }

    fn default_id() -> (r: Self) {
        0
    }
}

/// A node known by its network address.
#[derive(Clone, Debug, PartialEq, Eq)]
pub struct BasicNode {
    /// The address at which the node can be reached.
    pub addr: String,
}

impl View for BasicNode {
    type V = Seq<char>;

    open spec fn view(&self) -> Seq<char> {
        self.addr@
    }
}

impl Node for BasicNode {
    fn duplicate(&self) -> (r: Self) {
        BasicNode { addr: self.addr.clone() }
    }
}

} // verus!
