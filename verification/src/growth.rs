//! What root growth preserves, and what a whole insertion guarantees.

use vstd::prelude::*;
use crate::body::{all_valid, body_of, live, position_of, Body, Entity};
use crate::com::lemma_point_mass_bounded;
use crate::cube::{
    child_origin, gap, grown_origin, lemma_growable_bounded, lemma_growth_closes_gap,
    lemma_growth_keeps_cube, lemma_growth_stays_growable, lemma_octant_bounded, lemma_pow2_double,
    octant,
};
use crate::descent::lemma_inserted_sub;
use crate::model::{OctNodeView, OctreeView};
use crate::vec3::Point;

verus! {

/// The aggregate of a well-formed cube over valid bodies is bounded.
pub proof fn lemma_aggregate_bounded(t: OctreeView, bodies: Seq<Body>)
    requires
        t.wf_node(bodies),
        all_valid(bodies),
    ensures
        t.aggregate(bodies).bounded(),
{
    match t.node {
        OctNodeView::Empty => {},
        OctNodeView::Leaf(e) => {
            lemma_point_mass_bounded(position_of(bodies, e), body_of(bodies, e).mass as int);
        },
        OctNodeView::Branch { com, children } => {},
    }
}

/// Growing a root toward a point of the coordinate range outside it doubles the
/// edge and keeps everything else: the old root is one octant of the new one,
/// unchanged, the other seven are empty, the aggregate is the old root's, and the
/// new root holds exactly the bodies the old one held. The new root is well formed.
pub proof fn lemma_grown(t: OctreeView, bodies: Seq<Body>, p: Point)
    requires
        t.wf(bodies),
        all_valid(bodies),
        p.in_range(),
        !t.contains(p),
    ensures
        t.grown(bodies, p).wf(bodies),
        t.grown(bodies, p).size == 2 * t.size,
        t.grown(bodies, p).pos == grown_origin(t.pos, t.size, p),
        t.grown(bodies, p).aggregate(bodies) == t.aggregate(bodies),
        t.grown(bodies, p).node is Branch,
        ({
            let k = octant(grown_origin(t.pos, t.size, p), 2 * t.size, t.pos);
            &&& 0 <= k < 8
            &&& t.grown(bodies, p).node->children[k] == t
            &&& forall|i: int|
                0 <= i < 8 && i != k ==> #[trigger] t.grown(bodies, p).node->children[i]
                    == OctreeView::empty(
                    child_origin(grown_origin(t.pos, t.size, p), 2 * t.size, i),
                    t.size,
                )
        }),
        forall|x: Entity| #[trigger] t.grown(bodies, p).holds(x) <==> t.holds(x),
        t.grown(bodies, p).occupied(bodies, p) <==> t.occupied(bodies, p),
{
    let g = t.grown(bodies, p);
    let k = octant(g.pos, g.size, t.pos);
    let children = g.node->children;
    lemma_growth_keeps_cube(t.pos, t.size, p);
    lemma_growth_stays_growable(t.pos, t.size, p);
    lemma_growable_bounded(g.pos, g.size);
    lemma_pow2_double(t.size);
    lemma_aggregate_bounded(t, bodies);
    assert forall|i: int| 0 <= i < children.len() implies {
        &&& (#[trigger] children[i]).pos == child_origin(g.pos, g.size, i)
        &&& children[i].size == g.size / 2
        &&& children[i].wf_node(bodies)
    } by {
        lemma_octant_bounded(g.pos, g.size, i);
    }
    assert(g.node->com == OctreeView::total(children, bodies));
    assert forall|x: Entity| #[trigger] g.holds(x) <==> t.holds(x) by {
        if g.holds(x) {
            let i = choose|i: int| 0 <= i < children.len() && (#[trigger] children[i]).holds(x);
        }
        if t.holds(x) {
            assert(children[k].holds(x));
        }
    }
    if g.occupied(bodies, p) {
        let e = choose|e: Entity| #[trigger] g.holds(e) && position_of(bodies, e) == p;
        assert(t.holds(e));
    }
    if t.occupied(bodies, p) {
        let e = choose|e: Entity| #[trigger] t.holds(e) && position_of(bodies, e) == p;
        assert(g.holds(e));
    }
}

/// Inserting a live body whose position is not yet taken keeps the root well
/// formed, adds the body to the root aggregate, and makes the tree hold that body
/// besides all those it held before, wherever the body lies.
pub proof fn lemma_inserted(t: OctreeView, bodies: Seq<Body>, e: Entity)
    requires
        t.wf(bodies),
        all_valid(bodies),
        live(bodies, e),
        !t.occupied(bodies, position_of(bodies, e)),
    ensures
        t.inserted(bodies, e).wf(bodies),
        t.inserted(bodies, e).aggregate(bodies) == t.aggregate(bodies).plus(
            body_of(bodies, e).point_mass(),
        ),
        forall|x: Entity| #[trigger] t.inserted(bodies, e).holds(x) <==> (t.holds(x) || x == e),
    decreases gap(t.pos, t.size, position_of(bodies, e)),
{
    let p = position_of(bodies, e);
    if t.contains(p) {
        lemma_inserted_sub(t, bodies, e);
    } else {
        lemma_growth_closes_gap(t.pos, t.size, p);
        lemma_grown(t, bodies, p);
        lemma_inserted(t.grown(bodies, p), bodies, e);
    }
}

} // verus!
