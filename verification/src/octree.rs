//! The spatial index: an octree over lattice cubes that is filled one body at a
//! time and grows its root to reach bodies outside it.
//!
//! A tree refers to bodies by handle and is well formed against the store it was
//! filled from, as that store is: once bodies have moved, a new tree is built
//! from an empty root.

use vstd::prelude::*;
use crate::body::{body_of, live, position_of, Body, BodyStore, Entity};
use crate::com::COM;
use crate::cube::{
    child_origin, cube_bounded, gap, is_pow2, lemma_growable_bounded, lemma_growth_closes_gap,
    lemma_growth_keeps_cube, lemma_octant_bounded, lemma_octant_range, lemma_octants_partition,
    lemma_pow2_double, lemma_root_ok_growable, midpoint, octant, root_ok, ROOT_SIZE_LIMIT,
};
use crate::descent::{lemma_occupied_descends, lemma_outside_free, lemma_split};
use crate::growth::{lemma_aggregate_bounded, lemma_grown, lemma_inserted};
use crate::model::{OctNodeView, OctreeView};
use crate::vec3::{select, Vec3};

verus! {

/// A cube of space, given by its minimum corner and edge, and what it holds.
#[derive(Debug, PartialEq, Eq)]
pub struct Octree {
    pub pos: Vec3,
    pub size: i64,
    pub node: OctNode,
}

/// The content of a cube. The children of a branch are its eight octants, in
/// octant order.
#[derive(Debug, PartialEq, Eq)]
pub enum OctNode {
    Empty,
    Leaf(Entity),
    Branch { com: COM, children: Vec<Octree> },
}

/// Why a body was not inserted.
#[derive(Clone, Copy, Debug, PartialEq, Eq, Structural)]
pub enum OctreeError {
    /// A body of the tree is at exactly the position of the new one: no
    /// subdivision can separate the two.
    DegenerateGeometry,
    /// The total mass would exceed what the aggregate can represent.
    MassOverflow,
}

impl Octree {
    /// The mathematical tree this value stands for.
    pub open spec fn model(self) -> OctreeView
        decreases self,
    {
        OctreeView {
            pos: self.pos@,
            size: self.size as int,
            node: match self.node {
                OctNode::Empty => OctNodeView::Empty,
                OctNode::Leaf(e) => OctNodeView::Leaf(e),
                OctNode::Branch { com, children } => OctNodeView::Branch {
                    com: com@,
                    children: Seq::new(
                        children.len() as nat,
                        |i: int|
                            if 0 <= i < children.len() {
                                children[i].model()
                            } else {
                                arbitrary()
                            },
                    ),
                },
            },
        }
    }
}

impl Default for OctNode {
    /// The content of an empty cube.
    fn default() -> (n: OctNode)
        ensures
            n == OctNode::Empty,
    {
        OctNode::Empty
    }
}

impl Default for Octree {
    /// The empty cube of no extent at the origin. It is no root: it has no edge.
    fn default() -> (t: Octree)
        ensures
            t == (Octree { pos: Vec3 { x: 0, y: 0, z: 0 }, size: 0, node: OctNode::Empty }),
    {
        Octree { pos: Vec3 { x: 0, y: 0, z: 0 }, size: 0, node: OctNode::Empty }
    }
}

impl View for Octree {
    type V = OctreeView;

    open spec fn view(&self) -> OctreeView {
        self.model()
    }
}

/// The model of a branch, read off its fields.
proof fn lemma_model_branch(t: Octree)
    requires
        t.node is Branch,
    ensures
        t@.node is Branch,
        t@.node->com == t.node->com@,
        t@.node->children.len() == t.node->children.len(),
        forall|i: int|
            0 <= i < t.node->children.len() ==> t@.node->children[i] == (
            #[trigger] t.node->children[i])@,
{
}

impl Octree {
    /// Well-formedness of a root against the bodies of `store`.
    pub open spec fn wf(&self, store: &BodyStore) -> bool {
        self@.wf(store@)
    }

    fn idx_offset(a: Vec3, b: Vec3, i: u8) -> (r: Vec3)
        ensures
            r@ == select(i as int, a@, b@),
    {
        Vec3::select(i, a, b)
    }

    /// A cube holding the single body `new`, with nothing checked: whether the
    /// body lies inside is the caller's affair.
    pub fn leaf_unchecked(pos: Vec3, size: i64, new: Entity) -> (t: Octree)
        ensures
            t@ == OctreeView::leaf(pos@, size as int, new),
            t == (Octree { pos, size, node: OctNode::Leaf(new) }),
    {
        Octree { pos, size, node: OctNode::Leaf(new) }
    }

    /// An empty cube. It is a well-formed root, against any store, if the origin
    /// is in the coordinate range and the edge a power of two up to
    /// `ROOT_SIZE_LIMIT`.
    pub fn empty(pos: Vec3, size: i64) -> (t: Octree)
        ensures
            t@ == OctreeView::empty(pos@, size as int),
            t == (Octree { pos, size, node: OctNode::Empty }),
            root_ok(pos@, size as int) ==> forall|bodies: Seq<Body>| #[trigger] t@.wf(bodies),
    {
        proof {
            if root_ok(pos@, size as int) {
                lemma_root_ok_growable(pos@, size as int);
            }
        }
        Octree { pos, size, node: OctNode::Empty }
    }

    /// Tells whether the cube at `pos` with edge `size` can be the root of a tree:
    /// the origin in the coordinate range, the edge a power of two up to
    /// `ROOT_SIZE_LIMIT`.
    pub fn root_ok(pos: Vec3, size: i64) -> (b: bool)
        ensures
            b == root_ok(pos@, size as int),
    {
        if !pos.in_range() || size < 1 || size > ROOT_SIZE_LIMIT {
            return false;
        }
        let mut s: i64 = size;
        while s % 2 == 0
            invariant
                1 <= s <= size,
                is_pow2(s as int) == is_pow2(size as int),
            decreases s,
        {
            s = s / 2;
        }
        s == 1
    }

    /// Half-open membership: `pos <= p < pos + size` on every axis.
    pub fn contains(&self, p: Vec3) -> (b: bool)
        ensures
            b == self@.contains(p@),
    {
        let s = self.size as i128;
        self.pos.x <= p.x && (p.x as i128) < self.pos.x as i128 + s && self.pos.y <= p.y && (
        p.y as i128) < self.pos.y as i128 + s && self.pos.z <= p.z && (p.z as i128)
            < self.pos.z as i128 + s
    }

    /// The eight empty octants of the cube at `origin` whose edge is twice `size`.
    fn octants(origin: Vec3, size: i64) -> (children: Vec<Octree>)
        requires
            size >= 1,
            cube_bounded(origin@, 2 * size),
        ensures
            children.len() == 8,
            forall|i: int|
                0 <= i < 8 ==> (#[trigger] children[i])@ == OctreeView::empty(
                    child_origin(origin@, 2 * size, i),
                    size as int,
                ),
    {
        reveal(child_origin);
        let middle = Vec3 { x: origin.x + size, y: origin.y + size, z: origin.z + size };
        assert(middle@ == midpoint(origin@, 2 * size));
        vec![
            Octree::empty(origin, size),
            Octree::empty(Self::idx_offset(middle, origin, 1), size),
            Octree::empty(Self::idx_offset(middle, origin, 2), size),
            Octree::empty(Self::idx_offset(middle, origin, 3), size),
            Octree::empty(Self::idx_offset(middle, origin, 4), size),
            Octree::empty(Self::idx_offset(middle, origin, 5), size),
            Octree::empty(Self::idx_offset(middle, origin, 6), size),
            Octree::empty(middle, size),
        ]
    }

    /// The aggregate of everything under this cube: total mass and mass-weighted
    /// position sum.
    pub fn aggregate(&self, store: &BodyStore) -> (c: COM)
        requires
            self@.wf_node(store@),
            store.wf(),
        ensures
            c@ == self@.aggregate(store@),
            c@.bounded(),
    {
        proof {
            lemma_aggregate_bounded(self@, store@);
        }
        match &self.node {
            OctNode::Branch { com, .. } => *com,
            OctNode::Leaf(e) => match store.get(*e) {
                Some(body) => COM::point(body.position, body.mass),
                None => COM::zero(),
            },
            OctNode::Empty => COM::zero(),
        }
    }

    /// Turns the leaf of `prior` into the branch that separates `prior` from `new`.
    fn split(&mut self, store: &BodyStore, prior: Entity, new: Entity) -> (res: Result<
        (),
        OctreeError,
    >)
        requires
            old(self)@.wf_node(store@),
            old(self).node == OctNode::Leaf(prior),
            store.wf(),
            live(store@, new),
            old(self)@.contains(position_of(store@, new)),
            body_of(store@, prior).mass + body_of(store@, new).mass <= u64::MAX,
        ensures
            match res {
                Ok(()) => {
                    &&& position_of(store@, prior) != position_of(store@, new)
                    &&& final(self)@ == OctreeView::split(
                        old(self)@.pos,
                        old(self)@.size,
                        store@,
                        prior,
                        new,
                    )
                },
                Err(why) => {
                    &&& why == OctreeError::DegenerateGeometry
                    &&& position_of(store@, prior) == position_of(store@, new)
                    &&& final(self)@ == old(self)@
                },
            },
        decreases old(self).size, 0int,
    {
        let ghost before = self@;
        let ghost p = position_of(store@, new);
        let ghost q = position_of(store@, prior);
        let Some(body) = store.get(new) else {
            return Ok(());
        };
        let Some(resident) = store.get(prior) else {
            return Ok(());
        };
        if resident.position.x == body.position.x && resident.position.y == body.position.y
            && resident.position.z == body.position.z {
            return Err(OctreeError::DegenerateGeometry);
        }
        proof {
            lemma_split(before.pos, before.size, store@, prior, new);
            lemma_octant_range(before.pos, before.size, q);
            lemma_octant_range(before.pos, before.size, p);
            lemma_octants_partition(before.pos, before.size, q, octant(before.pos, before.size, q));
            lemma_octants_partition(before.pos, before.size, p, octant(before.pos, before.size, p));
            lemma_octant_bounded(before.pos, before.size, octant(before.pos, before.size, q));
            lemma_octant_bounded(before.pos, before.size, octant(before.pos, before.size, p));
            lemma_pow2_double(before.size);
            reveal(octant);
        }
        let com = COM::new(resident.position, resident.mass, body.position, body.mass);
        let size = self.size / 2;
        let offset = Vec3 { x: self.pos.x + size, y: self.pos.y + size, z: self.pos.z + size };
        let prior_idx = resident.position.ge_mask(offset) as usize;
        let new_idx = body.position.ge_mask(offset) as usize;
        let mut children = Self::octants(self.pos, size);
        let ghost fresh = children@;
        children[prior_idx].node = OctNode::Leaf(prior);
        let ghost placed = children@;
        proof {
            assert(placed[prior_idx as int]@ == OctreeView::leaf(
                child_origin(before.pos, before.size, prior_idx as int),
                size as int,
                prior,
            ));
            assert(forall|i: int| 0 <= i < 8 && i != prior_idx ==> placed[i] == fresh[i]);
            assert(!placed[new_idx as int]@.occupied(store@, p)) by {
                assert(forall|e: Entity| placed[new_idx as int]@.holds(e) ==> e == prior);
            }
        }
        let sub = children[new_idx].add_sub(store, new);
        assert(sub is Ok);
        self.node = OctNode::Branch { com, children };
        proof {
            let t = OctreeView::split(before.pos, before.size, store@, prior, new);
            lemma_model_branch(*self);
            assert forall|i: int| 0 <= i < 8 implies self@.node->children[i]
                == t.node->children[i] by {
                if i != new_idx {
                    assert(children@[i] == placed[i]);
                }
            }
            assert(self@.node->children =~= t.node->children);
        }
        Ok(())
    }

    /// Inserts by descent a body that lies inside this cube.
    fn add_sub(&mut self, store: &BodyStore, new: Entity) -> (res: Result<(), OctreeError>)
        requires
            old(self)@.wf_node(store@),
            store.wf(),
            live(store@, new),
            old(self)@.contains(position_of(store@, new)),
            old(self)@.aggregate(store@).mass + body_of(store@, new).mass <= u64::MAX,
        ensures
            match res {
                Ok(()) => {
                    &&& !old(self)@.occupied(store@, position_of(store@, new))
                    &&& final(self)@ == old(self)@.inserted_sub(store@, new)
                },
                Err(why) => {
                    &&& why == OctreeError::DegenerateGeometry
                    &&& old(self)@.occupied(store@, position_of(store@, new))
                    &&& final(self)@ == old(self)@
                },
            },
        decreases old(self).size, 1int,
    {
        let ghost before = self@;
        let ghost p = position_of(store@, new);
        let Some(body) = store.get(new) else {
            return Ok(());
        };
        let out = match &mut self.node {
            OctNode::Empty => {
                assert(!before.occupied(store@, p)) by {
                    assert(forall|e: Entity| !before.holds(e));
                }
                self.node = OctNode::Leaf(new);
                Ok(())
            },
            OctNode::Leaf(prior) => {
                let prior = *prior;
                assert(before.holds(prior));
                assert(forall|e: Entity| before.holds(e) ==> e == prior);
                self.split(store, prior, new)
            },
            OctNode::Branch { com, children } => {
                proof {
                    lemma_model_branch(*old(self));
                    lemma_pow2_double(before.size);
                    lemma_occupied_descends(before, store@, p);
                    lemma_octants_partition(
                        before.pos,
                        before.size,
                        p,
                        octant(before.pos, before.size, p),
                    );
                    reveal(octant);
                }
                let half = self.size / 2;
                let offset = Vec3 {
                    x: self.pos.x + half,
                    y: self.pos.y + half,
                    z: self.pos.z + half,
                };
                let idx = body.position.ge_mask(offset) as usize;
                let ghost kids = children@;
                assert(before.node->children[idx as int] == kids[idx as int]@);
                let res = children[idx].add_sub(store, new);
                if res.is_ok() {
                    com.add(body.position, body.mass);
                }
                proof {
                    if res is Ok {
                        lemma_branch_step(*old(self), *self, store@, new, idx as int);
                    }
                }
                res
            },
        };
        assert(out is Err ==> self@ == before) by {
            if out is Err && before.node is Branch {
                lemma_model_branch(*old(self));
                lemma_model_branch(*self);
                assert(self@.node->children =~= before.node->children);
            }
        }
        out
    }

    /// Inserts a body that lies outside this root: the root doubles toward the
    /// body, keeping the old root as one octant, until it contains the body.
    fn add_super(&mut self, store: &BodyStore, new: Entity)
        requires
            old(self)@.wf(store@),
            store.wf(),
            live(store@, new),
            !old(self)@.contains(position_of(store@, new)),
            old(self)@.aggregate(store@).mass + body_of(store@, new).mass <= u64::MAX,
        ensures
            final(self)@ == old(self)@.inserted(store@, new),
        decreases gap(old(self)@.pos, old(self)@.size, position_of(store@, new)),
    {
        let ghost before = self@;
        let ghost p = position_of(store@, new);
        let ghost grown = before.grown(store@, p);
        if let Some(body) = store.get(new) {
            proof {
                lemma_growable_bounded(before.pos, before.size);
                lemma_grown(before, store@, p);
                lemma_growable_bounded(grown.pos, grown.size);
                lemma_growth_keeps_cube(before.pos, before.size, p);
                lemma_growth_closes_gap(before.pos, before.size, p);
                lemma_octant_range(grown.pos, grown.size, p);
                reveal(octant);
            }
            let target = body.position;
            let origin = Vec3 {
                x: if target.x >= self.pos.x { self.pos.x } else { self.pos.x - self.size },
                y: if target.y >= self.pos.y { self.pos.y } else { self.pos.y - self.size },
                z: if target.z >= self.pos.z { self.pos.z } else { self.pos.z - self.size },
            };
            let middle = Vec3 {
                x: origin.x + self.size,
                y: origin.y + self.size,
                z: origin.z + self.size,
            };
            // New node replacing root
            let mut tree = Octree {
                pos: origin,
                size: 2 * self.size,
                node: OctNode::Branch {
                    com: self.aggregate(store),
                    children: Self::octants(origin, self.size),
                },
            };
            std::mem::swap(self, &mut tree);
            let contained = self.contains(target);
            if let OctNode::Branch { com, children } = &mut self.node {
                let tree_idx = tree.pos.ge_mask(middle) as usize;
                let ghost fresh = children@;
                children[tree_idx] = tree;
                let ghost rooted = children@;
                if contained {
                    let body_idx = target.ge_mask(middle) as usize;
                    children[body_idx].node = OctNode::Leaf(new);
                    com.add(target, body.mass);
                }
                proof {
                    lemma_model_branch(*self);
                    if contained {
                        let t = grown.inserted_sub(store@, new);
                        let j = octant(grown.pos, grown.size, p);
                        assert(t.node->children == grown.node->children.update(
                            j,
                            grown.node->children[j].inserted_sub(store@, new),
                        ));
                        assert forall|i: int| 0 <= i < 8 implies self@.node->children[i]
                            == t.node->children[i] by {
                            assert(self@.node->children[i] == children@[i]@);
                            if i != j {
                                assert(children@[i] == rooted[i]);
                                if i != tree_idx {
                                    assert(rooted[i] == fresh[i]);
                                } else {
                                    assert(rooted[i]@ == before);
                                }
                            } else {
                                assert(j != tree_idx);
                                assert(rooted[j] == fresh[j]);
                                assert(grown.node->children[j] == fresh[j]@);
                                assert(children@[j].pos == fresh[j].pos);
                                assert(children@[j].size == fresh[j].size);
                                assert(children@[j].node == OctNode::Leaf(new));
                                assert(self@.node->children[i] == t.node->children[i]);
                            }
                        }
                        assert(self@.node->children =~= t.node->children);
                        assert(self@ == t);
                    } else {
                        assert forall|i: int| 0 <= i < 8 implies self@.node->children[i]
                            == grown.node->children[i] by {
                            if i != tree_idx {
                                assert(rooted[i] == fresh[i]);
                            }
                        }
                        assert(self@.node->children =~= grown.node->children);
                        assert(self@ == grown);
                    }
                }
            }
            assert(before.inserted(store@, new) == grown.inserted(store@, new));
            if !contained {
                self.add_super(store, new);
            } else {
                assert(grown.inserted(store@, new) == grown.inserted_sub(store@, new));
            }
        }
    }

    /// Inserts the body `new` of `store` into the tree.
    ///
    /// A handle the store does not know is skipped: the tree stays as it is and
    /// the call succeeds. A live body is turned away, and the tree left as it is,
    /// when the total mass would no longer be representable, or else when a body
    /// of the tree is at exactly its position. Otherwise the root grows until it
    /// contains the body and the body is inserted by descent.
    pub fn add(&mut self, store: &BodyStore, new: Entity) -> (res: Result<(), OctreeError>)
        requires
            old(self).wf(store),
            store.wf(),
        ensures
            final(self).wf(store),
            final(self)@ == old(self)@.added(store@, new),
            res is Ok <==> !live(store@, new) || old(self)@.accepts(store@, new),
            res == Err::<(), OctreeError>(OctreeError::MassOverflow) <==> live(store@, new)
                && old(self)@.aggregate(store@).mass + body_of(store@, new).mass > u64::MAX,
            res == Err::<(), OctreeError>(OctreeError::DegenerateGeometry) <==> live(store@, new)
                && old(self)@.aggregate(store@).mass + body_of(store@, new).mass <= u64::MAX
                && old(self)@.occupied(store@, position_of(store@, new)),
            res is Ok && live(store@, new) ==> final(self)@.aggregate(store@) == old(
                self,
            )@.aggregate(store@).plus(body_of(store@, new).point_mass()),
            forall|x: Entity| #[trigger]
                final(self)@.holds(x) <==> old(self)@.holds(x) || (x == new && res is Ok && live(
                    store@,
                    new,
                )),
    {
        if let Some(body) = store.get(new) {
            let total = self.aggregate(store);
            if body.mass > u64::MAX - total.mass {
                return Err(OctreeError::MassOverflow);
            }
            proof {
                if !self@.occupied(store@, position_of(store@, new)) {
                    lemma_inserted(self@, store@, new);
                }
            }
            if self.contains(body.position) {
                self.add_sub(store, new)
            } else {
                proof {
                    lemma_outside_free(self@, store@, position_of(store@, new));
                    lemma_inserted(self@, store@, new);
                }
                self.add_super(store, new);
                Ok(())
            }
        } else {
            Ok(())
        }
    }
}

/// One step of descent through a branch, seen from outside: the aggregate took
/// the body in, and the child at the octant of its position is the child after
/// insertion.
proof fn lemma_branch_step(
    before: Octree,
    after: Octree,
    bodies: Seq<Body>,
    new: Entity,
    idx: int,
)
    requires
        before.node is Branch,
        after.node is Branch,
        after.pos == before.pos,
        after.size == before.size,
        idx == octant(before@.pos, before@.size, position_of(bodies, new)),
        0 <= idx < before.node->children.len(),
        after.node->com@ == before.node->com@.plus(body_of(bodies, new).point_mass()),
        after.node->children.len() == before.node->children.len(),
        forall|i: int|
            0 <= i < before.node->children.len() && i != idx ==> after.node->children[i]
                == before.node->children[i],
        after.node->children[idx]@ == before.node->children[idx]@.inserted_sub(bodies, new),
    ensures
        after@ == before@.inserted_sub(bodies, new),
{
    lemma_model_branch(before);
    lemma_model_branch(after);
    assert(after@.node->children =~= before@.inserted_sub(bodies, new).node->children);
}

} // verus!
