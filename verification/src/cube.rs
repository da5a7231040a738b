//! Geometry of axis-aligned cubes on the lattice: half-open membership, the eight
//! octants of a cube, and how a cube doubles to reach a point outside it.

use vstd::prelude::*;
use crate::vec3::{ge_mask, select, Point, COORD_LIMIT};

verus! {

/// No cube of a tree reaches beyond `-REGION_LIMIT ..= REGION_LIMIT` on any axis.
pub const REGION_LIMIT: i64 = 0x4000_0000_0000;

/// The largest edge a root may be created with.
pub const ROOT_SIZE_LIMIT: i64 = 0x400_0000_0000;

/// Half-open membership: `origin <= p < origin + size` on every axis.
pub open spec fn cube_contains(origin: Point, size: int, p: Point) -> bool {
    &&& origin.x <= p.x < origin.x + size
    &&& origin.y <= p.y < origin.y + size
    &&& origin.z <= p.z < origin.z + size
}

/// The midpoint of the cube, where its octants meet.
pub open spec fn midpoint(origin: Point, size: int) -> Point {
    Point { x: origin.x + size / 2, y: origin.y + size / 2, z: origin.z + size / 2 }
}

/// The octant of the cube that `p` falls in, as a mask relative to the midpoint.
#[verifier::opaque]
pub open spec fn octant(origin: Point, size: int, p: Point) -> int {
    ge_mask(p, midpoint(origin, size))
}

/// The minimum corner of octant `i` of the cube.
#[verifier::opaque]
pub open spec fn child_origin(origin: Point, size: int, i: int) -> Point {
    select(i, midpoint(origin, size), origin)
}

/// `n` is 1, 2, 4, 8, ...
pub open spec fn is_pow2(n: int) -> bool
    decreases n,
{
    n == 1 || (n > 1 && n % 2 == 0 && is_pow2(n / 2))
}

/// The cube stays within the region limit.
pub open spec fn cube_bounded(origin: Point, size: int) -> bool {
    &&& -REGION_LIMIT <= origin.x && origin.x + size <= REGION_LIMIT
    &&& -REGION_LIMIT <= origin.y && origin.y + size <= REGION_LIMIT
    &&& -REGION_LIMIT <= origin.z && origin.z + size <= REGION_LIMIT
}

/// The eight octants tile the cube as a strict partition: a point of the cube lies
/// in octant `i` exactly when `i` is its octant index, so in one octant and no other.
pub proof fn lemma_octants_partition(origin: Point, size: int, p: Point, i: int)
    requires
        size >= 2,
        size % 2 == 0,
        cube_contains(origin, size, p),
        0 <= i < 8,
    ensures
        0 <= octant(origin, size, p) < 8,
        cube_contains(child_origin(origin, size, i), size / 2, p) <==> i == octant(origin, size, p),
{
    reveal(octant);
    reveal(child_origin);
}

/// Octant indices run from 0 to 7.
pub proof fn lemma_octant_range(origin: Point, size: int, p: Point)
    ensures
        0 <= octant(origin, size, p) < 8,
{
    reveal(octant);
}

/// An octant lies inside its cube: whatever it contains, the cube contains.
pub proof fn lemma_octant_inside(origin: Point, size: int, i: int, p: Point)
    requires
        size >= 2,
        size % 2 == 0,
        0 <= i < 8,
        cube_contains(child_origin(origin, size, i), size / 2, p),
    ensures
        cube_contains(origin, size, p),
{
    reveal(octant);
    reveal(child_origin);
}

/// Different octants have different corners.
pub proof fn lemma_octants_apart(origin: Point, size: int, i: int, j: int)
    requires
        size >= 2,
        0 <= i < 8,
        0 <= j < 8,
        i != j,
    ensures
        child_origin(origin, size, i) != child_origin(origin, size, j),
{
    reveal(child_origin);
}

/// An octant of a bounded cube is bounded.
pub proof fn lemma_octant_bounded(origin: Point, size: int, i: int)
    requires
        size >= 2,
        size % 2 == 0,
        0 <= i < 8,
        cube_bounded(origin, size),
    ensures
        cube_bounded(child_origin(origin, size, i), size / 2),
{
    reveal(octant);
    reveal(child_origin);
}

/// A cube of edge 1 holds a single lattice point.
pub proof fn lemma_unit_cube(origin: Point, p: Point, q: Point)
    requires
        cube_contains(origin, 1, p),
        cube_contains(origin, 1, q),
    ensures
        p == q,
{
}

/// The minimum corner of the cube of twice the edge that keeps this cube as one
/// octant and extends, on each axis, toward `p`.
pub open spec fn grown_origin(origin: Point, size: int, p: Point) -> Point {
    Point {
        x: if p.x >= origin.x { origin.x } else { origin.x - size },
        y: if p.y >= origin.y { origin.y } else { origin.y - size },
        z: if p.z >= origin.z { origin.z } else { origin.z - size },
    }
}

/// How far `c` lies outside `o <= c < o + s` on one axis; 0 inside.
pub open spec fn axis_gap(o: int, s: int, c: int) -> int {
    if c < o {
        o - c
    } else if c >= o + s {
        c - (o + s) + 1
    } else {
        0
    }
}

/// The distance of `p` from the cube, summed over the axes; 0 exactly inside.
pub open spec fn gap(origin: Point, size: int, p: Point) -> int {
    axis_gap(origin.x, size, p.x) + axis_gap(origin.y, size, p.y) + axis_gap(origin.z, size, p.z)
}

/// Doubling toward a point outside brings the cube strictly closer to it.
pub proof fn lemma_growth_closes_gap(origin: Point, size: int, p: Point)
    requires
        size >= 1,
        !cube_contains(origin, size, p),
    ensures
        0 <= gap(grown_origin(origin, size, p), 2 * size, p) < gap(origin, size, p),
{
}

/// The old cube is the octant of the grown cube found at the old origin.
pub proof fn lemma_growth_keeps_cube(origin: Point, size: int, p: Point)
    requires
        size >= 1,
    ensures
        ({
            let g = grown_origin(origin, size, p);
            let k = octant(g, 2 * size, origin);
            &&& 0 <= k < 8
            &&& child_origin(g, 2 * size, k) == origin
            &&& (cube_contains(g, 2 * size, p) && !cube_contains(origin, size, p) ==> octant(
                g,
                2 * size,
                p,
            ) != k)
        }),
{
    reveal(octant);
    reveal(child_origin);
}

/// On one axis, the cube spans the whole coordinate range.
pub open spec fn axis_covered(o: int, s: int) -> bool {
    o <= -COORD_LIMIT && o + s >= COORD_LIMIT
}

/// On one axis, the cube meets the coordinate range.
pub open spec fn axis_meets(o: int, s: int) -> bool {
    o < COORD_LIMIT && o + s > -COORD_LIMIT
}

/// What a root must satisfy so that it can keep doubling toward points of the
/// coordinate range without ever leaving the region limit: it meets the range on
/// every axis, and its edge is no longer than the axes it already spans allow.
pub open spec fn growable(origin: Point, size: int) -> bool {
    let spanned = (if axis_covered(origin.x, size) { 1int } else { 0 }) + (if axis_covered(
        origin.y,
        size,
    ) { 1int } else { 0 }) + (if axis_covered(origin.z, size) { 1int } else { 0 });
    &&& size >= 1
    &&& axis_meets(origin.x, size)
    &&& axis_meets(origin.y, size)
    &&& axis_meets(origin.z, size)
    &&& size <= ROOT_SIZE_LIMIT * (if spanned == 0 {
        1int
    } else if spanned == 1 {
        2
    } else if spanned == 2 {
        4
    } else {
        8
    })
}

/// A cube whose origin is in the coordinate range and whose edge is at most
/// `ROOT_SIZE_LIMIT` can serve as a root.
pub open spec fn root_ok(origin: Point, size: int) -> bool {
    &&& origin.in_range()
    &&& 1 <= size <= ROOT_SIZE_LIMIT
    &&& is_pow2(size)
}

pub proof fn lemma_root_ok_growable(origin: Point, size: int)
    requires
        root_ok(origin, size),
    ensures
        growable(origin, size),
        cube_bounded(origin, size),
{
}

/// A growable cube is well inside the region limit.
pub proof fn lemma_growable_bounded(origin: Point, size: int)
    requires
        growable(origin, size),
    ensures
        cube_bounded(origin, size),
        size <= 8 * ROOT_SIZE_LIMIT,
{
}

/// Doubling a growable cube toward a point of the coordinate range outside it
/// yields a growable cube.
pub proof fn lemma_growth_stays_growable(origin: Point, size: int, p: Point)
    requires
        growable(origin, size),
        p.in_range(),
        !cube_contains(origin, size, p),
    ensures
        growable(grown_origin(origin, size, p), 2 * size),
{
}

/// Twice a power of two is a power of two, and so is half of one above 1.
pub proof fn lemma_pow2_double(n: int)
    requires
        is_pow2(n),
    ensures
        is_pow2(2 * n),
        n >= 1,
        n >= 2 ==> n % 2 == 0 && is_pow2(n / 2),
{
}

} // verus!
