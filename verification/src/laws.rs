//! Laws of the spatial index: what holds of a tree after a whole sequence of
//! insertions, in whatever order, and of a root that grew.

use vstd::prelude::*;
use crate::body::{all_valid, body_of, live, position_of, Body, Entity};
use crate::com::ComView;
use crate::cube::{
    child_origin, cube_bounded, cube_contains, gap, grown_origin, is_pow2,
    lemma_growth_closes_gap,
    lemma_growth_keeps_cube, lemma_octant_bounded, lemma_octant_range, lemma_octants_apart,
    lemma_octants_partition, lemma_pow2_double, lemma_root_ok_growable, octant, root_ok,
};
use crate::descent::{
    lemma_holds_in_octant, lemma_inserted_sub, lemma_occupied_descends,
    lemma_outside_free, lemma_split,
};
use crate::growth::{lemma_grown, lemma_inserted};
use crate::model::{all_live, com_of, distinct_positions, OctNodeView, OctreeView};
use crate::vec3::Point;

verus! {

/// Membership is a strict partition: of the eight children of a well-formed
/// branch, exactly one contains a given point of the branch's cube, the one at
/// the octant index of the point.
pub proof fn lemma_one_child_contains(
    t: OctreeView,
    bodies: Seq<Body>,
    p: Point,
    i: int,
)
    requires
        t.wf_node(bodies),
        t.node is Branch,
        t.contains(p),
        0 <= i < 8,
    ensures
        0 <= octant(t.pos, t.size, p) < 8,
        t.node->children[i].contains(p) <==> i == octant(t.pos, t.size, p),
{
    lemma_pow2_double(t.size);
    lemma_octants_partition(t.pos, t.size, p, i);
}

/// The aggregate of two lists of bodies, one after the other, is the sum of
/// their aggregates.
proof fn lemma_com_of_concat(bodies: Seq<Body>, a: Seq<Entity>, b: Seq<Entity>)
    ensures
        com_of(bodies, a + b) == com_of(bodies, a).plus(com_of(bodies, b)),
    decreases b.len(),
{
    if b.len() == 0 {
        assert(a + b =~= a);
    } else {
        lemma_com_of_concat(bodies, a, b.drop_last());
        assert((a + b).drop_last() =~= a + b.drop_last());
        assert((a + b).last() == b.last());
    }
}

/// The aggregate invariant: at every well-formed cube, the aggregate is that of
/// the bodies the cube holds, its mass the sum of their masses and its weighted
/// sum the sum of their mass-weighted positions.
pub proof fn lemma_aggregate_sums_leaves(t: OctreeView, bodies: Seq<Body>)
    requires
        t.wf_node(bodies),
    ensures
        t.aggregate(bodies) == com_of(bodies, t.leaves()),
        forall|e: Entity| t.leaves().contains(e) <==> t.holds(e),
    decreases t,
{
    match t.node {
        OctNodeView::Empty => {
            assert(forall|e: Entity| !t.leaves().contains(e));
        },
        OctNodeView::Leaf(o) => {
            let l = t.leaves();
            assert(l.drop_last() =~= Seq::<Entity>::empty());
            assert(com_of(bodies, l.drop_last()) == ComView::zero());
            assert(l[0] == o);
            assert(forall|e: Entity| l.contains(e) <==> e == o);
        },
        OctNodeView::Branch { com, children } => {
            let c = |i: int| children[i].leaves();
            assert forall|i: int| 0 <= i < 8 implies children[i].aggregate(bodies) == com_of(
                bodies,
                #[trigger] c(i),
            ) && (forall|e: Entity| c(i).contains(e) <==> children[i].holds(e)) by {
                lemma_aggregate_sums_leaves(children[i], bodies);
            }
            let s1 = c(0) + c(1);
            let s2 = s1 + c(2);
            let s3 = s2 + c(3);
            let s4 = s3 + c(4);
            let s5 = s4 + c(5);
            let s6 = s5 + c(6);
            let s7 = s6 + c(7);
            assert(t.leaves() == s7);
            lemma_com_of_concat(bodies, c(0), c(1));
            lemma_com_of_concat(bodies, s1, c(2));
            lemma_com_of_concat(bodies, s2, c(3));
            lemma_com_of_concat(bodies, s3, c(4));
            lemma_com_of_concat(bodies, s4, c(5));
            lemma_com_of_concat(bodies, s5, c(6));
            lemma_com_of_concat(bodies, s6, c(7));
            assert forall|e: Entity| s7.contains(e) <==> t.holds(e) by {
                if s7.contains(e) {
                    let j = choose|j: int| 0 <= j < s7.len() && s7[j] == e;
                    assert(c(0).contains(e) || c(1).contains(e) || c(2).contains(e) || c(
                        3,
                    ).contains(e) || c(4).contains(e) || c(5).contains(e) || c(6).contains(e)
                        || c(7).contains(e)) by {
                        lemma_concat_member(s6, c(7), e);
                        lemma_concat_member(s5, c(6), e);
                        lemma_concat_member(s4, c(5), e);
                        lemma_concat_member(s3, c(4), e);
                        lemma_concat_member(s2, c(3), e);
                        lemma_concat_member(s1, c(2), e);
                        lemma_concat_member(c(0), c(1), e);
                    }
                    let i = choose|i: int| 0 <= i < 8 && (#[trigger] c(i)).contains(e);
                    assert(children[i].holds(e));
                }
                if t.holds(e) {
                    let i = choose|i: int|
                        0 <= i < children.len() && (#[trigger] children[i]).holds(e);
                    assert(c(i).contains(e));
                    lemma_concat_member(c(0), c(1), e);
                    lemma_concat_member(s1, c(2), e);
                    lemma_concat_member(s2, c(3), e);
                    lemma_concat_member(s3, c(4), e);
                    lemma_concat_member(s4, c(5), e);
                    lemma_concat_member(s5, c(6), e);
                    lemma_concat_member(s6, c(7), e);
                }
            }
        },
    }
}

/// An element is in a concatenation exactly when it is in one of the parts.
proof fn lemma_concat_member(a: Seq<Entity>, b: Seq<Entity>, e: Entity)
    ensures
        (a + b).contains(e) <==> a.contains(e) || b.contains(e),
{
    if (a + b).contains(e) {
        let j = choose|j: int| 0 <= j < (a + b).len() && (a + b)[j] == e;
        if j < a.len() {
            assert(a[j] == e);
        } else {
            assert(b[j - a.len()] == e);
        }
    }
    if a.contains(e) {
        let j = choose|j: int| 0 <= j < a.len() && a[j] == e;
        assert((a + b)[j] == e);
    }
    if b.contains(e) {
        let j = choose|j: int| 0 <= j < b.len() && b[j] == e;
        assert((a + b)[a.len() + j] == e);
    }
}

/// The hypotheses on an insertion order drop to its prefix.
proof fn lemma_prefix(bodies: Seq<Body>, order: Seq<Entity>)
    requires
        order.len() > 0,
        all_live(bodies, order),
        distinct_positions(bodies, order),
    ensures
        all_live(bodies, order.drop_last()),
        distinct_positions(bodies, order.drop_last()),
        0 <= com_of(bodies, order.drop_last()).mass <= com_of(bodies, order).mass,
        live(bodies, order.last()),
        forall|x: Entity|
            order.drop_last().contains(x) ==> position_of(bodies, x) != position_of(
                bodies,
                order.last(),
            ),
        forall|x: Entity| order.contains(x) <==> (order.drop_last().contains(x) || x == order.last()),
{
    let front = order.drop_last();
    assert forall|i: int| 0 <= i < front.len() implies live(bodies, #[trigger] front[i]) by {
        assert(front[i] == order[i]);
    }
    assert forall|i: int, j: int| 0 <= i < j < front.len() implies position_of(
        bodies,
        #[trigger] front[i],
    ) != position_of(bodies, #[trigger] front[j]) by {
        assert(front[i] == order[i] && front[j] == order[j]);
    }
    lemma_mass_nonnegative(bodies, front);
    assert forall|x: Entity| front.contains(x) implies position_of(bodies, x) != position_of(
        bodies,
        order.last(),
    ) by {
        let i = choose|i: int| 0 <= i < front.len() && front[i] == x;
        assert(order[i] == x);
        assert(order[order.len() - 1] == order.last());
    }
    assert forall|x: Entity| order.contains(x) <==> (front.contains(x) || x == order.last()) by {
        if order.contains(x) {
            let i = choose|i: int| 0 <= i < order.len() && order[i] == x;
            if i < front.len() {
                assert(front[i] == x);
            }
        }
        if front.contains(x) {
            let i = choose|i: int| 0 <= i < front.len() && front[i] == x;
            assert(order[i] == x);
        }
        if x == order.last() {
            assert(order[order.len() - 1] == x);
        }
    }
}

/// Masses add up to a mass that is not negative.
proof fn lemma_mass_nonnegative(bodies: Seq<Body>, order: Seq<Entity>)
    ensures
        com_of(bodies, order).mass >= 0,
    decreases order.len(),
{
    if order.len() > 0 {
        lemma_mass_nonnegative(bodies, order.drop_last());
    }
}

/// After inserting into a well-formed root, in any order, bodies at pairwise
/// different positions of which none is at a position the root already holds,
/// every one of them is in the tree: the tree is well formed, holds exactly the
/// bodies it held and the new ones, and its root aggregate is the old aggregate
/// plus the total mass and the mass-weighted position sum of the new bodies,
/// however large the total mass.
pub proof fn lemma_inserted_all(t: OctreeView, bodies: Seq<Body>, order: Seq<Entity>)
    requires
        t.wf(bodies),
        all_valid(bodies),
        all_live(bodies, order),
        distinct_positions(bodies, order),
        forall|i: int|
            0 <= i < order.len() ==> !t.occupied(bodies, position_of(bodies, #[trigger] order[i])),
    ensures
        t.inserted_all(bodies, order).wf(bodies),
        t.inserted_all(bodies, order).aggregate(bodies) == t.aggregate(bodies).plus(
            com_of(bodies, order),
        ),
        forall|x: Entity| #[trigger]
            t.inserted_all(bodies, order).holds(x) <==> (t.holds(x) || order.contains(x)),
    decreases order.len(),
{
    if order.len() == 0 {
        assert(forall|x: Entity| !order.contains(x));
    } else {
        let front = order.drop_last();
        let e = order.last();
        lemma_prefix(bodies, order);
        assert forall|i: int| 0 <= i < front.len() implies !t.occupied(
            bodies,
            position_of(bodies, #[trigger] front[i]),
        ) by {
            assert(front[i] == order[i]);
        }
        lemma_inserted_all(t, bodies, front);
        let mid = t.inserted_all(bodies, front);
        let p = position_of(bodies, e);
        assert(order[order.len() - 1] == e);
        assert(!mid.occupied(bodies, p)) by {
            if mid.occupied(bodies, p) {
                let x = choose|x: Entity| #[trigger] mid.holds(x) && position_of(bodies, x) == p;
                if t.holds(x) {
                    assert(t.occupied(bodies, p));
                }
            }
        }
        lemma_inserted(mid, bodies, e);
    }
}

/// Where the total mass stays representable, every attempt of a sequence of
/// insertions succeeds: the tree built by attempts is the tree with all bodies
/// inserted, with all that holds of it.
pub proof fn lemma_built(t: OctreeView, bodies: Seq<Body>, order: Seq<Entity>)
    requires
        t.wf(bodies),
        all_valid(bodies),
        all_live(bodies, order),
        distinct_positions(bodies, order),
        forall|i: int|
            0 <= i < order.len() ==> !t.occupied(bodies, position_of(bodies, #[trigger] order[i])),
        t.aggregate(bodies).mass + com_of(bodies, order).mass <= u64::MAX,
    ensures
        t.built(bodies, order) == t.inserted_all(bodies, order),
        t.built(bodies, order).wf(bodies),
        t.built(bodies, order).aggregate(bodies) == t.aggregate(bodies).plus(
            com_of(bodies, order),
        ),
        forall|x: Entity| #[trigger]
            t.built(bodies, order).holds(x) <==> (t.holds(x) || order.contains(x)),
    decreases order.len(),
{
    lemma_inserted_all(t, bodies, order);
    if order.len() > 0 {
        let front = order.drop_last();
        let e = order.last();
        lemma_prefix(bodies, order);
        assert forall|i: int| 0 <= i < front.len() implies !t.occupied(
            bodies,
            position_of(bodies, #[trigger] front[i]),
        ) by {
            assert(front[i] == order[i]);
        }
        lemma_built(t, bodies, front);
        let mid = t.built(bodies, front);
        assert(order[order.len() - 1] == e);
        assert(mid.accepts(bodies, e));
    }
}

/// The root aggregate of a tree filled from an empty root with bodies at
/// pairwise different positions is the aggregate of those bodies: its mass is
/// the sum of their masses, its weighted sum the sum of their mass-weighted
/// positions, so its centre is their centre of mass.
pub proof fn lemma_root_aggregate(origin: Point, size: int, bodies: Seq<Body>, order: Seq<Entity>)
    requires
        root_ok(origin, size),
        all_valid(bodies),
        all_live(bodies, order),
        distinct_positions(bodies, order),
    ensures
        OctreeView::empty(origin, size).inserted_all(bodies, order).wf(bodies),
        OctreeView::empty(origin, size).inserted_all(bodies, order).aggregate(bodies) == com_of(
            bodies,
            order,
        ),
        forall|x: Entity| #[trigger]
            OctreeView::empty(origin, size).inserted_all(bodies, order).holds(x)
                <==> order.contains(x),
{
    let t = OctreeView::empty(origin, size);
    lemma_root_ok_growable(origin, size);
    assert(forall|x: Entity| !t.holds(x));
    lemma_inserted_all(t, bodies, order);
}

/// The same of the tree built by attempts, where the total mass is representable.
pub proof fn lemma_root_built(origin: Point, size: int, bodies: Seq<Body>, order: Seq<Entity>)
    requires
        root_ok(origin, size),
        all_valid(bodies),
        all_live(bodies, order),
        distinct_positions(bodies, order),
        com_of(bodies, order).mass <= u64::MAX,
    ensures
        OctreeView::empty(origin, size).built(bodies, order) == OctreeView::empty(
            origin,
            size,
        ).inserted_all(bodies, order),
        OctreeView::empty(origin, size).built(bodies, order).wf(bodies),
        OctreeView::empty(origin, size).built(bodies, order).aggregate(bodies) == com_of(
            bodies,
            order,
        ),
        forall|x: Entity| #[trigger]
            OctreeView::empty(origin, size).built(bodies, order).holds(x) <==> order.contains(x),
{
    let t = OctreeView::empty(origin, size);
    lemma_root_ok_growable(origin, size);
    assert(forall|x: Entity| !t.holds(x));
    lemma_built(t, bodies, order);
}

/// The branch that separates two bodies is minimal.
proof fn lemma_split_minimal(
    pos: Point,
    size: int,
    bodies: Seq<Body>,
    first: Entity,
    new: Entity,
)
    requires
        is_pow2(size),
        cube_bounded(pos, size),
        all_valid(bodies),
        live(bodies, first),
        live(bodies, new),
        cube_contains(pos, size, position_of(bodies, first)),
        cube_contains(pos, size, position_of(bodies, new)),
        position_of(bodies, first) != position_of(bodies, new),
    ensures
        OctreeView::split(pos, size, bodies, first, new).minimal(),
    decreases size,
{
    let t = OctreeView::split(pos, size, bodies, first, new);
    lemma_split(pos, size, bodies, first, new);
    lemma_pow2_double(size);
    let io = octant(pos, size, position_of(bodies, first));
    let inw = octant(pos, size, position_of(bodies, new));
    lemma_octant_range(pos, size, position_of(bodies, first));
    lemma_octant_range(pos, size, position_of(bodies, new));
    if io == inw {
        lemma_octants_partition(pos, size, position_of(bodies, first), io);
        lemma_octants_partition(pos, size, position_of(bodies, new), io);
        lemma_octant_bounded(pos, size, io);
        lemma_split_minimal(
            child_origin(pos, size, io),
            size / 2,
            bodies,
            first,
            new,
        );
    }
    assert(t.holds(first) && t.holds(new) && first != new);
    let children = t.node->children;
    assert forall|i: int| 0 <= i < children.len() implies (#[trigger] children[i]).minimal() by {
        if i == io && i == inw {
        } else if i == io {
            assert(children[i].node is Leaf);
        } else if i == inw {
            assert(children[i].node is Leaf);
        } else {
            assert(children[i].node is Empty);
        }
    }
}

/// Insertion by descent keeps a minimal tree minimal.
proof fn lemma_inserted_sub_minimal(t: OctreeView, bodies: Seq<Body>, e: Entity)
    requires
        t.wf_node(bodies),
        t.minimal(),
        all_valid(bodies),
        live(bodies, e),
        t.contains(position_of(bodies, e)),
        !t.occupied(bodies, position_of(bodies, e)),
    ensures
        t.inserted_sub(bodies, e).minimal(),
    decreases t,
{
    let p = position_of(bodies, e);
    let r = t.inserted_sub(bodies, e);
    lemma_inserted_sub(t, bodies, e);
    match t.node {
        OctNodeView::Empty => {},
        OctNodeView::Leaf(first) => {
            assert(t.holds(first));
            lemma_split_minimal(t.pos, t.size, bodies, first, e);
        },
        OctNodeView::Branch { com, children } => {
            let i = octant(t.pos, t.size, p);
            lemma_occupied_descends(t, bodies, p);
            lemma_pow2_double(t.size);
            lemma_octants_partition(t.pos, t.size, p, i);
            lemma_inserted_sub_minimal(children[i], bodies, e);
            let (a, b) = choose|a: Entity, b: Entity|
                a != b && #[trigger] t.holds(a) && #[trigger] t.holds(b);
            assert(r.holds(a) && r.holds(b));
        },
    }
}

/// Two well-formed minimal trees over the same cube that hold the same bodies
/// are the same tree: the shape of a minimal tree, and with it every aggregate,
/// is decided by where its bodies are.
pub proof fn lemma_minimal_unique(s: OctreeView, t: OctreeView, bodies: Seq<Body>)
    requires
        s.wf_node(bodies),
        t.wf_node(bodies),
        s.minimal(),
        t.minimal(),
        s.pos == t.pos,
        s.size == t.size,
        forall|x: Entity| s.holds(x) <==> t.holds(x),
    ensures
        s == t,
    decreases s,
{
    match (s.node, t.node) {
        (OctNodeView::Empty, OctNodeView::Empty) => {},
        (OctNodeView::Empty, OctNodeView::Leaf(e)) => {
            assert(t.holds(e));
        },
        (OctNodeView::Leaf(e), OctNodeView::Empty) => {
            assert(s.holds(e));
        },
        (OctNodeView::Leaf(e), OctNodeView::Leaf(f)) => {
            assert(s.holds(e));
        },
        (OctNodeView::Branch { .. }, OctNodeView::Branch { .. }) => {
            let cs = s.node->children;
            let ct = t.node->children;
            assert forall|i: int| 0 <= i < 8 implies cs[i] == ct[i] by {
                assert forall|x: Entity| cs[i].holds(x) <==> ct[i].holds(x) by {
                    if cs[i].holds(x) {
                        lemma_holds_in_octant(s, bodies, x, i);
                        let j = choose|j: int| 0 <= j < ct.len() && (#[trigger] ct[j]).holds(x);
                        lemma_holds_in_octant(t, bodies, x, j);
                    }
                    if ct[i].holds(x) {
                        lemma_holds_in_octant(t, bodies, x, i);
                        let j = choose|j: int| 0 <= j < cs.len() && (#[trigger] cs[j]).holds(x);
                        lemma_holds_in_octant(s, bodies, x, j);
                    }
                }
                lemma_minimal_unique(cs[i], ct[i], bodies);
            }
            assert(cs =~= ct);
        },
        (OctNodeView::Branch { .. }, _) => {
            let (a, b) = choose|a: Entity, b: Entity|
                a != b && #[trigger] s.holds(a) && #[trigger] s.holds(b);
            assert(t.holds(a) && t.holds(b));
        },
        (_, OctNodeView::Branch { .. }) => {
            let (a, b) = choose|a: Entity, b: Entity|
                a != b && #[trigger] t.holds(a) && #[trigger] t.holds(b);
            assert(s.holds(a) && s.holds(b));
        },
    }
}

/// Every body of `order` lies inside the cube.
pub open spec fn all_inside(
    origin: Point,
    size: int,
    bodies: Seq<Body>,
    order: Seq<Entity>,
) -> bool {
    forall|i: int|
        0 <= i < order.len() ==> cube_contains(origin, size, position_of(bodies, #[trigger] order[i]))
}

/// A tree filled from an empty root with bodies inside it never grows, and is
/// well formed and minimal.
proof fn lemma_filled_inside(origin: Point, size: int, bodies: Seq<Body>, order: Seq<Entity>)
    requires
        root_ok(origin, size),
        all_valid(bodies),
        all_live(bodies, order),
        distinct_positions(bodies, order),
        all_inside(origin, size, bodies, order),
    ensures
        OctreeView::empty(origin, size).inserted_all(bodies, order).wf(bodies),
        OctreeView::empty(origin, size).inserted_all(bodies, order).minimal(),
        OctreeView::empty(origin, size).inserted_all(bodies, order).pos == origin,
        OctreeView::empty(origin, size).inserted_all(bodies, order).size == size,
        forall|x: Entity| #[trigger]
            OctreeView::empty(origin, size).inserted_all(bodies, order).holds(x)
                <==> order.contains(x),
    decreases order.len(),
{
    let t = OctreeView::empty(origin, size);
    lemma_root_aggregate(origin, size, bodies, order);
    if order.len() > 0 {
        let front = order.drop_last();
        let e = order.last();
        lemma_prefix(bodies, order);
        assert forall|i: int| 0 <= i < front.len() implies cube_contains(
            origin,
            size,
            position_of(bodies, #[trigger] front[i]),
        ) by {
            assert(front[i] == order[i]);
        }
        lemma_filled_inside(origin, size, bodies, front);
        let mid = t.inserted_all(bodies, front);
        let p = position_of(bodies, e);
        assert(order[order.len() - 1] == e);
        assert(!mid.occupied(bodies, p)) by {
            if mid.occupied(bodies, p) {
                let x = choose|x: Entity| #[trigger] mid.holds(x) && position_of(bodies, x) == p;
                assert(front.contains(x));
            }
        }
        assert(mid.contains(p));
        assert(mid.inserted(bodies, e) == mid.inserted_sub(bodies, e));
        lemma_inserted_sub(mid, bodies, e);
        lemma_inserted_sub_minimal(mid, bodies, e);
    }
}

/// Order independence: two insertion orders of the same bodies, at pairwise
/// different positions inside an empty root, give the same tree, node for node
/// and aggregate for aggregate; and so do the attempts of `add`, where the
/// total mass is representable.
pub proof fn lemma_order_independent(
    origin: Point,
    size: int,
    bodies: Seq<Body>,
    a: Seq<Entity>,
    b: Seq<Entity>,
)
    requires
        root_ok(origin, size),
        all_valid(bodies),
        all_live(bodies, a),
        distinct_positions(bodies, a),
        distinct_positions(bodies, b),
        all_inside(origin, size, bodies, a),
        forall|x: Entity| a.contains(x) <==> b.contains(x),
    ensures
        OctreeView::empty(origin, size).inserted_all(bodies, a) == OctreeView::empty(
            origin,
            size,
        ).inserted_all(bodies, b),
        com_of(bodies, a).mass <= u64::MAX ==> OctreeView::empty(origin, size).built(bodies, a)
            == OctreeView::empty(origin, size).built(bodies, b),
{
    assert forall|i: int| 0 <= i < b.len() implies live(bodies, #[trigger] b[i]) && cube_contains(
        origin,
        size,
        position_of(bodies, b[i]),
    ) by {
        assert(b.contains(b[i]));
        let j = choose|j: int| 0 <= j < a.len() && a[j] == b[i];
        assert(live(bodies, a[j]));
    }
    lemma_com_of_rearranged(bodies, a, b);
    lemma_filled_inside(origin, size, bodies, a);
    lemma_filled_inside(origin, size, bodies, b);
    let s = OctreeView::empty(origin, size).inserted_all(bodies, a);
    let t = OctreeView::empty(origin, size).inserted_all(bodies, b);
    lemma_minimal_unique(s, t, bodies);
    if com_of(bodies, a).mass <= u64::MAX {
        lemma_root_built(origin, size, bodies, a);
        lemma_root_built(origin, size, bodies, b);
    }
}

/// Taking one body out of an order takes its contribution out of the aggregate.
proof fn lemma_com_of_remove(bodies: Seq<Body>, order: Seq<Entity>, i: int)
    requires
        0 <= i < order.len(),
    ensures
        com_of(bodies, order) == com_of(bodies, order.remove(i)).plus(
            body_of(bodies, order[i]).point_mass(),
        ),
    decreases order.len(),
{
    if i == order.len() - 1 {
        assert(order.remove(i) =~= order.drop_last());
    } else {
        let front = order.drop_last();
        lemma_com_of_remove(bodies, front, i);
        assert(order.remove(i).drop_last() =~= front.remove(i));
        assert(order.remove(i).last() == order.last());
    }
}

/// The aggregate of a set of bodies does not depend on the order in which they
/// are listed.
pub proof fn lemma_com_of_rearranged(bodies: Seq<Body>, a: Seq<Entity>, b: Seq<Entity>)
    requires
        distinct_positions(bodies, a),
        distinct_positions(bodies, b),
        forall|x: Entity| a.contains(x) <==> b.contains(x),
    ensures
        com_of(bodies, a) == com_of(bodies, b),
    decreases a.len(),
{
    if a.len() == 0 {
        if b.len() > 0 {
            assert(b.contains(b[0]));
        }
    } else {
        let e = a.last();
        assert(a[a.len() - 1] == e);
        assert(a.contains(e));
        let i = choose|i: int| 0 <= i < b.len() && b[i] == e;
        let front = a.drop_last();
        let rest = b.remove(i);
        assert forall|j: int, k: int| 0 <= j < k < front.len() implies position_of(
            bodies,
            #[trigger] front[j],
        ) != position_of(bodies, #[trigger] front[k]) by {
            assert(front[j] == a[j] && front[k] == a[k]);
        }
        assert forall|j: int, k: int| 0 <= j < k < rest.len() implies position_of(
            bodies,
            #[trigger] rest[j],
        ) != position_of(bodies, #[trigger] rest[k]) by {
            let jj = if j < i { j } else { j + 1 };
            let kk = if k < i { k } else { k + 1 };
            assert(rest[j] == b[jj] && rest[k] == b[kk]);
        }
        assert forall|x: Entity| front.contains(x) <==> rest.contains(x) by {
            if front.contains(x) {
                let j = choose|j: int| 0 <= j < front.len() && front[j] == x;
                assert(a[j] == x);
                assert(a.contains(x));
                assert(position_of(bodies, a[j]) != position_of(bodies, a[a.len() - 1]));
                let k = choose|k: int| 0 <= k < b.len() && b[k] == x;
                let kk = if k < i { k } else { k - 1 };
                assert(rest[kk] == x);
            }
            if rest.contains(x) {
                let k = choose|k: int| 0 <= k < rest.len() && rest[k] == x;
                let kk = if k < i { k } else { k + 1 };
                assert(b[kk] == x);
                assert(b.contains(x));
                if kk < i {
                    assert(position_of(bodies, b[kk]) != position_of(bodies, b[i]));
                } else {
                    assert(position_of(bodies, b[i]) != position_of(bodies, b[kk]));
                }
                let j = choose|j: int| 0 <= j < a.len() && a[j] == x;
                assert(front[j] == x);
            }
        }
        lemma_com_of_rearranged(bodies, front, rest);
        lemma_com_of_remove(bodies, b, i);
    }
}

/// The root aggregate does not depend on the insertion order, whether or not the
/// root had to grow: two orders of the same bodies, at pairwise different
/// positions not yet taken, leave the same total mass and weighted sum at the root.
pub proof fn lemma_root_aggregate_order_independent(
    t: OctreeView,
    bodies: Seq<Body>,
    a: Seq<Entity>,
    b: Seq<Entity>,
)
    requires
        t.wf(bodies),
        all_valid(bodies),
        all_live(bodies, a),
        distinct_positions(bodies, a),
        distinct_positions(bodies, b),
        forall|x: Entity| a.contains(x) <==> b.contains(x),
        forall|i: int|
            0 <= i < a.len() ==> !t.occupied(bodies, position_of(bodies, #[trigger] a[i])),
    ensures
        t.inserted_all(bodies, a).aggregate(bodies) == t.inserted_all(bodies, b).aggregate(bodies),
        t.aggregate(bodies).mass + com_of(bodies, a).mass <= u64::MAX ==> t.built(
            bodies,
            a,
        ).aggregate(bodies) == t.built(bodies, b).aggregate(bodies),
{
    assert forall|i: int| 0 <= i < b.len() implies live(bodies, #[trigger] b[i]) && !t.occupied(
        bodies,
        position_of(bodies, b[i]),
    ) by {
        assert(b.contains(b[i]));
        let j = choose|j: int| 0 <= j < a.len() && a[j] == b[i];
        assert(live(bodies, a[j]));
    }
    lemma_com_of_rearranged(bodies, a, b);
    lemma_inserted_all(t, bodies, a);
    lemma_inserted_all(t, bodies, b);
    if t.aggregate(bodies).mass + com_of(bodies, a).mass <= u64::MAX {
        lemma_built(t, bodies, a);
        lemma_built(t, bodies, b);
    }
}

/// Occurring in a tree is transitive.
proof fn lemma_subtree_transitive(r: OctreeView, g: OctreeView, t: OctreeView)
    requires
        r.has_subtree(g),
        g.has_subtree(t),
    ensures
        r.has_subtree(t),
    decreases r,
{
    if r != g {
        let children = r.node->children;
        let i = choose|i: int| 0 <= i < children.len() && (#[trigger] children[i]).has_subtree(g);
        lemma_subtree_transitive(children[i], g, t);
    }
}

/// Root growth preserves what was there: after inserting a body that lies
/// outside a well-formed root, the old root occurs unchanged in the new tree,
/// every body it held is still held, the new root is at least twice as large,
/// and the root aggregate is the old root's with the new body merged in.
pub proof fn lemma_growth_preserves(t: OctreeView, bodies: Seq<Body>, e: Entity)
    requires
        t.wf(bodies),
        all_valid(bodies),
        live(bodies, e),
        !t.contains(position_of(bodies, e)),
    ensures
        t.inserted(bodies, e).has_subtree(t),
        t.inserted(bodies, e).size >= 2 * t.size,
        t.inserted(bodies, e).wf(bodies),
        t.inserted(bodies, e).contains(position_of(bodies, e)),
        t.inserted(bodies, e).aggregate(bodies) == t.aggregate(bodies).plus(
            body_of(bodies, e).point_mass(),
        ),
        forall|x: Entity| t.holds(x) ==> #[trigger] t.inserted(bodies, e).holds(x),
        t.inserted(bodies, e).holds(e),
    decreases gap(t.pos, t.size, position_of(bodies, e)),
{
    let p = position_of(bodies, e);
    let g = t.grown(bodies, p);
    let r = t.inserted(bodies, e);
    lemma_outside_free(t, bodies, p);
    lemma_inserted(t, bodies, e);
    lemma_grown(t, bodies, p);
    lemma_growth_closes_gap(t.pos, t.size, p);
    lemma_growth_keeps_cube(t.pos, t.size, p);
    let k = octant(g.pos, g.size, t.pos);
    assert(g.node->children[k].has_subtree(t));
    assert(g.has_subtree(t));
    if g.contains(p) {
        assert(r == g.inserted_sub(bodies, e));
        lemma_inserted_sub(g, bodies, e);
        lemma_octant_range(g.pos, g.size, p);
        assert(r.node->children[k] == t);
        assert(r.node->children[k].has_subtree(t));
    } else {
        lemma_growth_preserves(g, bodies, e);
        assert(r == g.inserted(bodies, e));
        lemma_subtree_transitive(r, g, t);
    }
}

/// A tree does not occur in a smaller one.
proof fn lemma_absent_from_smaller(r: OctreeView, t: OctreeView, bodies: Seq<Body>)
    requires
        r.wf_node(bodies),
        r.size < t.size,
    ensures
        r.count_of(t) == 0,
    decreases r,
{
    lemma_pow2_double(r.size);
    match r.node {
        OctNodeView::Branch { com, children } => {
            assert forall|i: int| 0 <= i < 8 implies (#[trigger] children[i]).count_of(t) == 0 by {
                lemma_absent_from_smaller(children[i], t, bodies);
            }
        },
        _ => {},
    }
}

/// In a well-formed tree of no larger edge, a tree occurs only as the tree itself.
proof fn lemma_occurs_at_top(r: OctreeView, t: OctreeView, bodies: Seq<Body>)
    requires
        r.wf_node(bodies),
        r.size <= t.size,
    ensures
        r.count_of(t) == if r == t { 1nat } else { 0nat },
{
    lemma_pow2_double(r.size);
    match r.node {
        OctNodeView::Branch { com, children } => {
            assert forall|i: int| 0 <= i < 8 implies (#[trigger] children[i]).count_of(t) == 0 by {
                lemma_absent_from_smaller(children[i], t, bodies);
            }
        },
        _ => {},
    }
}

/// Growth carries a tree along once: where `t` occurs exactly once in a root,
/// it occurs exactly once in the root after a body outside it was inserted.
proof fn lemma_carried_once(u: OctreeView, t: OctreeView, bodies: Seq<Body>, e: Entity)
    requires
        u.wf(bodies),
        all_valid(bodies),
        live(bodies, e),
        !u.contains(position_of(bodies, e)),
        t.size <= u.size,
        u.count_of(t) == 1,
    ensures
        u.inserted(bodies, e).count_of(t) == 1,
    decreases gap(u.pos, u.size, position_of(bodies, e)),
{
    let p = position_of(bodies, e);
    let g = u.grown(bodies, p);
    let r = u.inserted(bodies, e);
    lemma_outside_free(u, bodies, p);
    lemma_grown(u, bodies, p);
    lemma_growth_closes_gap(u.pos, u.size, p);
    lemma_growth_keeps_cube(u.pos, u.size, p);
    lemma_pow2_double(u.size);
    let k = octant(g.pos, g.size, u.pos);
    if t.size == u.size {
        lemma_occurs_at_top(u, t, bodies);
    }
    let kids = g.node->children;
    assert forall|i: int| 0 <= i < 8 && i != k implies (#[trigger] kids[i]).count_of(t) == 0
        && kids[i].pos != u.pos by {
        lemma_octants_apart(g.pos, g.size, i, k);
    }
    assert(g.count_of(t) == 1);
    if g.contains(p) {
        assert(r == g.inserted_sub(bodies, e));
        lemma_octant_range(g.pos, g.size, p);
        let j = octant(g.pos, g.size, p);
        let after = r.node->children;
        assert forall|i: int| 0 <= i < 8 && i != k implies (#[trigger] after[i]).count_of(t)
            == 0 by {
            if i == j {
                assert(after == kids.update(j, kids[j].inserted_sub(bodies, e)));
                assert(kids[j] == OctreeView::empty(child_origin(g.pos, g.size, j), u.size));
                assert(after[i] == OctreeView::leaf(kids[i].pos, kids[i].size, e));
            } else {
                assert(after[i] == kids[i]);
            }
        }
        assert(after[k] == u);
    } else {
        lemma_carried_once(g, t, bodies, e);
        assert(r == g.inserted(bodies, e));
    }
}

/// Root growth keeps one copy of the old root: after inserting a body that
/// lies outside a well-formed root, the old root occurs in the new tree exactly
/// once.
pub proof fn lemma_growth_keeps_one_copy(t: OctreeView, bodies: Seq<Body>, e: Entity)
    requires
        t.wf(bodies),
        all_valid(bodies),
        live(bodies, e),
        !t.contains(position_of(bodies, e)),
    ensures
        t.inserted(bodies, e).count_of(t) == 1,
{
    lemma_occurs_at_top(t, t, bodies);
    lemma_carried_once(t, t, bodies, e);
}

/// One doubling: where the cube of twice the edge, grown toward a body outside
/// the root, contains that body, inserting it gives exactly that cube as the
/// new root. Its aggregate is the old root's with the body merged in, the old
/// root is the child at the octant of its corner, the body is a leaf at the
/// octant of its position, and the six other children are empty octants.
pub proof fn lemma_single_growth(t: OctreeView, bodies: Seq<Body>, e: Entity)
    requires
        t.wf(bodies),
        all_valid(bodies),
        live(bodies, e),
        !t.contains(position_of(bodies, e)),
        cube_contains(
            grown_origin(t.pos, t.size, position_of(bodies, e)),
            2 * t.size,
            position_of(bodies, e),
        ),
    ensures
        ({
            let p = position_of(bodies, e);
            let r = t.inserted(bodies, e);
            let k = octant(r.pos, r.size, t.pos);
            let j = octant(r.pos, r.size, p);
            &&& r.pos == grown_origin(t.pos, t.size, p)
            &&& r.size == 2 * t.size
            &&& r.node matches OctNodeView::Branch { com, children }
            &&& com == t.aggregate(bodies).plus(body_of(bodies, e).point_mass())
            &&& children.len() == 8
            &&& 0 <= k < 8 && 0 <= j < 8 && j != k
            &&& children[k] == t
            &&& children[j] == OctreeView::leaf(child_origin(r.pos, r.size, j), t.size, e)
            &&& forall|i: int|
                0 <= i < 8 && i != k && i != j ==> #[trigger] children[i] == OctreeView::empty(
                    child_origin(r.pos, r.size, i),
                    t.size,
                )
        }),
{
    let p = position_of(bodies, e);
    let g = t.grown(bodies, p);
    let r = t.inserted(bodies, e);
    lemma_grown(t, bodies, p);
    lemma_growth_closes_gap(t.pos, t.size, p);
    lemma_growth_keeps_cube(t.pos, t.size, p);
    lemma_octant_range(g.pos, g.size, p);
    assert(r == g.inserted(bodies, e));
    assert(r == g.inserted_sub(bodies, e));
    let j = octant(g.pos, g.size, p);
    let kids = g.node->children;
    assert(r.node->children == kids.update(j, kids[j].inserted_sub(bodies, e)));
    assert(kids[j] == OctreeView::empty(child_origin(g.pos, g.size, j), t.size));
}

} // verus!
