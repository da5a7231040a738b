//! What descent preserves: proofs that splitting and inserting by descent keep a
//! tree well formed, add exactly the new body, and update the aggregate by it.

use vstd::prelude::*;
use crate::body::{all_valid, body_of, live, position_of, Body, Entity};
use crate::com::{lemma_plus_bounded, lemma_point_mass_bounded, ComView};
use crate::cube::{
    child_origin, cube_bounded, cube_contains, is_pow2, lemma_octant_bounded, lemma_octant_inside, lemma_octant_range,
    lemma_octants_partition, lemma_pow2_double, lemma_unit_cube, octant,
};
use crate::model::{OctNodeView, OctreeView};
use crate::vec3::Point;

verus! {

/// A body held under a well-formed cube is live and positioned inside the cube.
pub proof fn lemma_holds_inside(t: OctreeView, bodies: Seq<Body>, e: Entity)
    requires
        t.wf_node(bodies),
        t.holds(e),
    ensures
        live(bodies, e),
        t.contains(position_of(bodies, e)),
    decreases t,
{
    match t.node {
        OctNodeView::Empty => {},
        OctNodeView::Leaf(o) => {},
        OctNodeView::Branch { com, children } => {
            let i = choose|i: int| 0 <= i < children.len() && (#[trigger] children[i]).holds(e);
            lemma_holds_inside(children[i], bodies, e);
            lemma_pow2_double(t.size);
            lemma_octant_inside(t.pos, t.size, i, position_of(bodies, e));
        },
    }
}

/// Under a well-formed branch, a body is held by the child at the octant of its
/// position and by no other.
pub proof fn lemma_holds_in_octant(t: OctreeView, bodies: Seq<Body>, e: Entity, i: int)
    requires
        t.wf_node(bodies),
        t.node is Branch,
        0 <= i < 8,
        t.node->children[i].holds(e),
    ensures
        i == octant(t.pos, t.size, position_of(bodies, e)),
        t.holds(e),
{
    let children = t.node->children;
    lemma_holds_inside(children[i], bodies, e);
    lemma_pow2_double(t.size);
    let p = position_of(bodies, e);
    lemma_octant_inside(t.pos, t.size, i, p);
    lemma_octants_partition(t.pos, t.size, p, i);
}

/// No body of a well-formed cube is at a position outside the cube.
pub proof fn lemma_outside_free(t: OctreeView, bodies: Seq<Body>, p: Point)
    requires
        t.wf_node(bodies),
        !t.contains(p),
    ensures
        !t.occupied(bodies, p),
{
    if t.occupied(bodies, p) {
        let e = choose|e: Entity| #[trigger] t.holds(e) && position_of(bodies, e) == p;
        lemma_holds_inside(t, bodies, e);
    }
}

/// Whether a position inside a well-formed branch is taken is decided in the
/// child at the octant of that position.
pub proof fn lemma_occupied_descends(t: OctreeView, bodies: Seq<Body>, p: Point)
    requires
        t.wf_node(bodies),
        t.node is Branch,
        t.contains(p),
    ensures
        0 <= octant(t.pos, t.size, p) < 8,
        t.occupied(bodies, p) <==> t.node->children[octant(t.pos, t.size, p)].occupied(bodies, p),
{
    let children = t.node->children;
    let j = octant(t.pos, t.size, p);
    lemma_pow2_double(t.size);
    lemma_octants_partition(t.pos, t.size, p, 0);
    if t.occupied(bodies, p) {
        let e = choose|e: Entity| #[trigger] t.holds(e) && position_of(bodies, e) == p;
        let i = choose|i: int| 0 <= i < children.len() && (#[trigger] children[i]).holds(e);
        lemma_holds_in_octant(t, bodies, e, i);
        assert(children[j].holds(e));
    }
    if children[j].occupied(bodies, p) {
        let e = choose|e: Entity| #[trigger] children[j].holds(e) && position_of(bodies, e) == p;
        lemma_holds_in_octant(t, bodies, e, j);
        assert(t.holds(e));
    }
}

/// Replacing one child changes the total of the children by what that child's
/// aggregate changed by.
pub proof fn lemma_total_update(
    children: Seq<OctreeView>,
    bodies: Seq<Body>,
    i: int,
    c: OctreeView,
    delta: ComView,
)
    requires
        children.len() == 8,
        0 <= i < 8,
        c.aggregate(bodies) == children[i].aggregate(bodies).plus(delta),
    ensures
        OctreeView::total(children.update(i, c), bodies) == OctreeView::total(
            children,
            bodies,
        ).plus(delta),
{
}

/// Splitting a cube between two bodies at different positions inside it gives a
/// well-formed branch that holds exactly the two, with their joint aggregate.
pub proof fn lemma_split(pos: Point, size: int, bodies: Seq<Body>, first: Entity, new: Entity)
    requires
        is_pow2(size),
        cube_bounded(pos, size),
        all_valid(bodies),
        live(bodies, first),
        live(bodies, new),
        cube_contains(pos, size, position_of(bodies, first)),
        cube_contains(pos, size, position_of(bodies, new)),
        position_of(bodies, first) != position_of(bodies, new),
    ensures
        size >= 2,
        OctreeView::split(pos, size, bodies, first, new).wf_node(bodies),
        OctreeView::split(pos, size, bodies, first, new).pos == pos,
        OctreeView::split(pos, size, bodies, first, new).size == size,
        OctreeView::split(pos, size, bodies, first, new).aggregate(bodies) == body_of(
            bodies,
            first,
        ).point_mass().plus(body_of(bodies, new).point_mass()),
        forall|x: Entity| #[trigger]
            OctreeView::split(pos, size, bodies, first, new).holds(x) <==> (x == first || x == new),
    decreases size,
{
    let po = position_of(bodies, first);
    let pn = position_of(bodies, new);
    lemma_pow2_double(size);
    if size == 1 {
        lemma_unit_cube(pos, po, pn);
    }
    let io = octant(pos, size, po);
    let inw = octant(pos, size, pn);
    lemma_octant_range(pos, size, po);
    lemma_octant_range(pos, size, pn);
    lemma_octants_partition(pos, size, po, io);
    lemma_octants_partition(pos, size, pn, inw);
    let t = OctreeView::split(pos, size, bodies, first, new);
    let children = t.node->children;
    let com = t.node->com;
    lemma_point_mass_bounded(po, body_of(bodies, first).mass as int);
    lemma_point_mass_bounded(pn, body_of(bodies, new).mass as int);
    lemma_plus_bounded(body_of(bodies, first).point_mass(), body_of(bodies, new).point_mass());
    if io == inw {
        lemma_octant_bounded(pos, size, io);
        lemma_split(child_origin(pos, size, io), size / 2, bodies, first, new);
    }
    assert forall|i: int| 0 <= i < children.len() implies {
        &&& (#[trigger] children[i]).pos == child_origin(pos, size, i)
        &&& children[i].size == size / 2
        &&& children[i].wf_node(bodies)
    } by {
        lemma_octant_bounded(pos, size, i);
        lemma_octants_partition(pos, size, po, i);
        lemma_octants_partition(pos, size, pn, i);
    }
    assert(com == OctreeView::total(children, bodies));
    assert forall|x: Entity| t.holds(x) <==> (x == first || x == new) by {
        if t.holds(x) {
            let i = choose|i: int| 0 <= i < children.len() && (#[trigger] children[i]).holds(x);
        }
        if x == first {
            assert(children[io].holds(x));
        }
        if x == new {
            assert(children[inw].holds(x));
        }
    }
}

/// Inserting by descent a live body, whose position is inside the cube and not
/// yet taken, keeps the cube well formed and in place, adds the body to the
/// aggregate, and makes the tree hold that body besides those it held.
pub proof fn lemma_inserted_sub(t: OctreeView, bodies: Seq<Body>, e: Entity)
    requires
        t.wf_node(bodies),
        all_valid(bodies),
        live(bodies, e),
        t.contains(position_of(bodies, e)),
        !t.occupied(bodies, position_of(bodies, e)),
    ensures
        t.inserted_sub(bodies, e).wf_node(bodies),
        t.inserted_sub(bodies, e).pos == t.pos,
        t.inserted_sub(bodies, e).size == t.size,
        t.inserted_sub(bodies, e).aggregate(bodies) == t.aggregate(bodies).plus(
            body_of(bodies, e).point_mass(),
        ),
        forall|x: Entity| #[trigger]
            t.inserted_sub(bodies, e).holds(x) <==> (t.holds(x) || x == e),
    decreases t,
{
    let p = position_of(bodies, e);
    let r = t.inserted_sub(bodies, e);
    match t.node {
        OctNodeView::Empty => {},
        OctNodeView::Leaf(first) => {
            assert(t.holds(first));
            lemma_split(t.pos, t.size, bodies, first, e);
        },
        OctNodeView::Branch { com, children } => {
            let i = octant(t.pos, t.size, p);
            lemma_occupied_descends(t, bodies, p);
            lemma_pow2_double(t.size);
            lemma_octants_partition(t.pos, t.size, p, i);
            lemma_inserted_sub(children[i], bodies, e);
            let c = children[i].inserted_sub(bodies, e);
            let after = children.update(i, c);
            lemma_total_update(children, bodies, i, c, body_of(bodies, e).point_mass());
            lemma_point_mass_bounded(p, body_of(bodies, e).mass as int);
            lemma_plus_bounded(com, body_of(bodies, e).point_mass());
            assert(r.node->children == after);
            assert forall|k: int| 0 <= k < after.len() implies {
                &&& (#[trigger] after[k]).pos == child_origin(t.pos, t.size, k)
                &&& after[k].size == t.size / 2
                &&& after[k].wf_node(bodies)
            } by {
                assert(children[k].wf_node(bodies));
            }
            assert forall|x: Entity| r.holds(x) <==> (t.holds(x) || x == e) by {
                if r.holds(x) {
                    let k = choose|k: int| 0 <= k < after.len() && (#[trigger] after[k]).holds(x);
                    if k != i {
                        assert(children[k].holds(x));
                    } else if x != e {
                        assert(children[i].holds(x));
                    }
                }
                if t.holds(x) {
                    let k = choose|k: int|
                        0 <= k < children.len() && (#[trigger] children[k]).holds(x);
                    assert(after[k].holds(x));
                }
                if x == e {
                    assert(after[i] == c);
                    assert(c.holds(e));
                    assert(after[i].holds(x));
                }
            }
        },
    }
}

} // verus!
