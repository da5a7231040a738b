//! The mathematical octree: what a tree is, when it is well formed, and what
//! inserting a body makes of it.

use vstd::prelude::*;
use crate::body::{body_of, live, position_of, Body, Entity};
use crate::com::ComView;
use crate::cube::{
    child_origin, cube_bounded, cube_contains, gap, growable, grown_origin, is_pow2,
    lemma_growth_closes_gap, octant,
};
use crate::vec3::Point;

verus! {

/// A cube of space and what it holds.
pub struct OctreeView {
    pub pos: Point,
    pub size: int,
    pub node: OctNodeView,
}

/// The content of a cube: nothing, one body, or eight sub-cubes with their aggregate.
pub enum OctNodeView {
    Empty,
    Leaf(Entity),
    Branch { com: ComView, children: Seq<OctreeView> },
}

impl OctreeView {
    /// The cube with nothing in it.
    pub open spec fn empty(pos: Point, size: int) -> OctreeView {
        OctreeView { pos, size, node: OctNodeView::Empty }
    }

    /// The cube holding the single body `e`.
    pub open spec fn leaf(pos: Point, size: int, e: Entity) -> OctreeView {
        OctreeView { pos, size, node: OctNodeView::Leaf(e) }
    }

    /// Half-open membership of `p` in this cube.
    pub open spec fn contains(self, p: Point) -> bool {
        cube_contains(self.pos, self.size, p)
    }

    /// Total mass and mass-weighted position sum of everything under this cube:
    /// nothing for an empty cube, the body itself for a leaf, the stored aggregate
    /// for a branch.
    pub open spec fn aggregate(self, bodies: Seq<Body>) -> ComView {
        match self.node {
            OctNodeView::Empty => ComView::zero(),
            OctNodeView::Leaf(e) => body_of(bodies, e).point_mass(),
            OctNodeView::Branch { com, children } => com,
        }
    }

    /// The body `e` sits in a leaf somewhere under this cube.
    pub open spec fn holds(self, e: Entity) -> bool
        decreases self,
    {
        match self.node {
            OctNodeView::Empty => false,
            OctNodeView::Leaf(o) => o == e,
            OctNodeView::Branch { com, children } => exists|i: int|
                0 <= i < children.len() && (#[trigger] children[i]).holds(e),
        }
    }

    /// Some body under this cube is at position `p`.
    pub open spec fn occupied(self, bodies: Seq<Body>, p: Point) -> bool {
        exists|e: Entity| #[trigger] self.holds(e) && position_of(bodies, e) == p
    }

    /// The aggregates of the eight children, added up.
    pub open spec fn total(children: Seq<OctreeView>, bodies: Seq<Body>) -> ComView {
        children[0].aggregate(bodies).plus(children[1].aggregate(bodies)).plus(
            children[2].aggregate(bodies),
        ).plus(children[3].aggregate(bodies)).plus(children[4].aggregate(bodies)).plus(
            children[5].aggregate(bodies),
        ).plus(children[6].aggregate(bodies)).plus(children[7].aggregate(bodies))
    }

    /// Well-formedness of a cube and everything under it: the edge is a power of
    /// two within the region limit; a leaf's body is live and inside the leaf's
    /// cube; a branch has the eight octants of its cube as children, in octant
    /// order, and its aggregate is the sum of theirs.
    pub open spec fn wf_node(self, bodies: Seq<Body>) -> bool
        decreases self,
    {
        &&& is_pow2(self.size)
        &&& cube_bounded(self.pos, self.size)
        &&& match self.node {
            OctNodeView::Empty => true,
            OctNodeView::Leaf(e) => live(bodies, e) && self.contains(position_of(bodies, e)),
            OctNodeView::Branch { com, children } => {
                &&& self.size >= 2
                &&& children.len() == 8
                &&& forall|i: int|
                    0 <= i < children.len() ==> {
                        &&& (#[trigger] children[i]).pos == child_origin(self.pos, self.size, i)
                        &&& children[i].size == self.size / 2
                        &&& children[i].wf_node(bodies)
                    }
                &&& com == Self::total(children, bodies)
                &&& com.bounded()
            },
        }
    }

    /// Well-formedness of a root: a well-formed cube that can still grow.
    pub open spec fn wf(self, bodies: Seq<Body>) -> bool {
        &&& self.wf_node(bodies)
        &&& growable(self.pos, self.size)
    }

    /// The branch that separates two bodies of this cube: each goes to the octant
    /// of its position, and where both fall in one octant that octant is split in turn.
    pub open spec fn split(
        pos: Point,
        size: int,
        bodies: Seq<Body>,
        first: Entity,
        new: Entity,
    ) -> OctreeView
        decreases size,
    {
        let io = octant(pos, size, position_of(bodies, first));
        let inw = octant(pos, size, position_of(bodies, new));
        let both = if size >= 2 && io == inw {
            Self::split(child_origin(pos, size, io), size / 2, bodies, first, new)
        } else {
            Self::empty(pos, size / 2)
        };
        OctreeView {
            pos,
            size,
            node: OctNodeView::Branch {
                com: body_of(bodies, first).point_mass().plus(body_of(bodies, new).point_mass()),
                children: Seq::new(
                    8,
                    |i: int|
                        if i == io && i == inw {
                            both
                        } else if i == io {
                            Self::leaf(child_origin(pos, size, i), size / 2, first)
                        } else if i == inw {
                            Self::leaf(child_origin(pos, size, i), size / 2, new)
                        } else {
                            Self::empty(child_origin(pos, size, i), size / 2)
                        },
                ),
            },
        }
    }

    /// The tree after inserting the body `e` by descent, for a body inside the cube:
    /// an empty cube becomes a leaf, a leaf is split, a branch takes the body into
    /// its aggregate and hands it to the octant of its position.
    pub open spec fn inserted_sub(self, bodies: Seq<Body>, e: Entity) -> OctreeView
        decreases self,
    {
        match self.node {
            OctNodeView::Empty => Self::leaf(self.pos, self.size, e),
            OctNodeView::Leaf(first) => Self::split(self.pos, self.size, bodies, first, e),
            OctNodeView::Branch { com, children } => {
                let i = octant(self.pos, self.size, position_of(bodies, e));
                if 0 <= i < children.len() {
                    OctreeView {
                        pos: self.pos,
                        size: self.size,
                        node: OctNodeView::Branch {
                            com: com.plus(body_of(bodies, e).point_mass()),
                            children: children.update(i, children[i].inserted_sub(bodies, e)),
                        },
                    }
                } else {
                    self
                }
            },
        }
    }

    /// The root of twice the edge that has this tree as one octant, the other seven
    /// empty, and extends toward `p`. Its aggregate is this tree's.
    pub open spec fn grown(self, bodies: Seq<Body>, p: Point) -> OctreeView {
        let origin = grown_origin(self.pos, self.size, p);
        let k = octant(origin, 2 * self.size, self.pos);
        OctreeView {
            pos: origin,
            size: 2 * self.size,
            node: OctNodeView::Branch {
                com: self.aggregate(bodies),
                children: Seq::new(
                    8,
                    |i: int|
                        if i == k {
                            self
                        } else {
                            Self::empty(child_origin(origin, 2 * self.size, i), self.size)
                        },
                ),
            },
        }
    }

    /// The tree after inserting the body `e`: the root doubles toward the body's
    /// position until it contains it, and the body is then inserted by descent.
    pub open spec fn inserted(self, bodies: Seq<Body>, e: Entity) -> OctreeView
        decreases gap(self.pos, self.size, position_of(bodies, e)),
    {
        let p = position_of(bodies, e);
        if self.size < 1 || self.contains(p) {
            self.inserted_sub(bodies, e)
        } else {
            proof {
                lemma_growth_closes_gap(self.pos, self.size, p);
            }
            self.grown(bodies, p).inserted(bodies, e)
        }
    }

    /// The body `e` can be inserted: its handle is live, no body of the tree is at
    /// its position, and the total mass stays representable.
    pub open spec fn accepts(self, bodies: Seq<Body>, e: Entity) -> bool {
        &&& live(bodies, e)
        &&& !self.occupied(bodies, position_of(bodies, e))
        &&& self.aggregate(bodies).mass + body_of(bodies, e).mass <= u64::MAX
    }

    /// The tree after an attempt to insert `e`: the tree with `e` inserted where
    /// the body is accepted, the tree as it was where it is not.
    pub open spec fn added(self, bodies: Seq<Body>, e: Entity) -> OctreeView {
        if self.accepts(bodies, e) {
            self.inserted(bodies, e)
        } else {
            self
        }
    }

    /// The tree after inserting the bodies of `order`, first to last.
    pub open spec fn inserted_all(self, bodies: Seq<Body>, order: Seq<Entity>) -> OctreeView
        decreases order.len(),
    {
        if order.len() == 0 {
            self
        } else {
            self.inserted_all(bodies, order.drop_last()).inserted(bodies, order.last())
        }
    }

    /// The tree after attempting to insert the bodies of `order`, first to last.
    pub open spec fn built(self, bodies: Seq<Body>, order: Seq<Entity>) -> OctreeView
        decreases order.len(),
    {
        if order.len() == 0 {
            self
        } else {
            self.built(bodies, order.drop_last()).added(bodies, order.last())
        }
    }

    /// Every branch of the tree holds at least two bodies: no branch stands where
    /// a leaf or an empty cube would do.
    pub open spec fn minimal(self) -> bool
        decreases self,
    {
        match self.node {
            OctNodeView::Empty => true,
            OctNodeView::Leaf(e) => true,
            OctNodeView::Branch { com, children } => {
                &&& exists|a: Entity, b: Entity| a != b && #[trigger] self.holds(a) && #[trigger] self.holds(b)
                &&& forall|i: int| 0 <= i < children.len() ==> (#[trigger] children[i]).minimal()
            },
        }
    }

    /// The bodies under this cube, octant by octant.
    pub open spec fn leaves(self) -> Seq<Entity>
        decreases self,
    {
        match self.node {
            OctNodeView::Empty => Seq::empty(),
            OctNodeView::Leaf(e) => seq![e],
            OctNodeView::Branch { com, children } => if children.len() == 8 {
                children[0].leaves() + children[1].leaves() + children[2].leaves()
                    + children[3].leaves() + children[4].leaves() + children[5].leaves()
                    + children[6].leaves() + children[7].leaves()
            } else {
                Seq::empty()
            },
        }
    }

    /// How often `t` occurs in this tree, as the tree itself or below it.
    pub open spec fn count_of(self, t: OctreeView) -> nat
        decreases self,
    {
        (if self == t { 1nat } else { 0nat }) + match self.node {
            OctNodeView::Branch { com, children } => if children.len() == 8 {
                children[0].count_of(t) + children[1].count_of(t) + children[2].count_of(t)
                    + children[3].count_of(t) + children[4].count_of(t) + children[5].count_of(t)
                    + children[6].count_of(t) + children[7].count_of(t)
            } else {
                0nat
            },
            _ => 0nat,
        }
    }

    /// `t` occurs in this tree, as the tree itself or somewhere below it.
    pub open spec fn has_subtree(self, t: OctreeView) -> bool
        decreases self,
    {
        self == t || match self.node {
            OctNodeView::Branch { com, children } => exists|i: int|
                0 <= i < children.len() && (#[trigger] children[i]).has_subtree(t),
            _ => false,
        }
    }
}

/// The aggregate of the bodies of `order`: their total mass and mass-weighted
/// position sum.
pub open spec fn com_of(bodies: Seq<Body>, order: Seq<Entity>) -> ComView
    decreases order.len(),
{
    if order.len() == 0 {
        ComView::zero()
    } else {
        com_of(bodies, order.drop_last()).plus(body_of(bodies, order.last()).point_mass())
    }
}

/// Every handle of `order` is live.
pub open spec fn all_live(bodies: Seq<Body>, order: Seq<Entity>) -> bool {
    forall|i: int| 0 <= i < order.len() ==> live(bodies, #[trigger] order[i])
}

/// No two bodies of `order` are at the same position.
pub open spec fn distinct_positions(bodies: Seq<Body>, order: Seq<Entity>) -> bool {
    forall|i: int, j: int|
        0 <= i < j < order.len() ==> position_of(bodies, #[trigger] order[i]) != position_of(
            bodies,
            #[trigger] order[j],
        )
}

} // verus!
