//! Centre-of-mass accumulators: a total mass together with the mass-weighted
//! sum of positions, mergeable one point at a time.

use vstd::prelude::*;
use crate::vec3::{Moment, Point, Vec3, COORD_LIMIT};

verus! {

/// The mathematical value of an accumulator.
pub struct ComView {
    pub sum: Point,
    pub mass: int,
}

impl ComView {
    /// The neutral accumulator: no mass anywhere.
    pub open spec fn zero() -> ComView {
        ComView { sum: Point::zero(), mass: 0 }
    }

    /// The accumulator of a single point of mass `m` at `p`.
    pub open spec fn point_mass(p: Point, m: int) -> ComView {
        ComView { sum: p.scaled(m), mass: m }
    }

    pub open spec fn plus(self, other: ComView) -> ComView {
        ComView { sum: self.sum.plus(other.sum), mass: self.mass + other.mass }
    }

    /// This accumulator with one more point of mass `m` at `p`.
    pub open spec fn merged(self, p: Point, m: int) -> ComView {
        self.plus(ComView::point_mass(p, m))
    }

    /// The mass is not negative and the weighted sum is what points inside the
    /// coordinate range can add up to.
    pub open spec fn bounded(self) -> bool {
        &&& 0 <= self.mass
        &&& self.sum.within(self.mass * COORD_LIMIT)
    }

    /// The centre of mass, each component rounded down; meaningful for positive mass.
    pub open spec fn centre(self) -> Point {
        Point { x: self.sum.x / self.mass, y: self.sum.y / self.mass, z: self.sum.z / self.mass }
    }
}

/// Aggregate of a set of point masses.
#[derive(Clone, Copy, Debug, PartialEq, Eq, Structural)]
pub struct COM {
    pub sum: Moment,
    pub mass: u64,
}

impl View for COM {
    type V = ComView;

    open spec fn view(&self) -> ComView {
        ComView { sum: self.sum@, mass: self.mass as int }
    }
}

impl Default for COM {
    /// The empty accumulator.
    fn default() -> (c: COM)
        ensures
            c@ == ComView::zero(),
    {
        COM::zero()
    }
}

/// A point in range, weighted by a non-negative mass, stays within `mass * COORD_LIMIT`.
pub proof fn lemma_point_mass_bounded(p: Point, m: int)
    requires
        p.in_range(),
        0 <= m,
    ensures
        ComView::point_mass(p, m).bounded(),
{
    assert(-(m * COORD_LIMIT) <= m * p.x <= m * COORD_LIMIT) by (nonlinear_arith)
        requires
            0 <= m,
            -COORD_LIMIT <= p.x < COORD_LIMIT,
    ;
    assert(-(m * COORD_LIMIT) <= m * p.y <= m * COORD_LIMIT) by (nonlinear_arith)
        requires
            0 <= m,
            -COORD_LIMIT <= p.y < COORD_LIMIT,
    ;
    assert(-(m * COORD_LIMIT) <= m * p.z <= m * COORD_LIMIT) by (nonlinear_arith)
        requires
            0 <= m,
            -COORD_LIMIT <= p.z < COORD_LIMIT,
    ;
}

/// Bounded accumulators add up to a bounded accumulator.
pub proof fn lemma_plus_bounded(a: ComView, b: ComView)
    requires
        a.bounded(),
        b.bounded(),
    ensures
        a.plus(b).bounded(),
{
    assert((a.mass + b.mass) * COORD_LIMIT == a.mass * COORD_LIMIT + b.mass * COORD_LIMIT)
        by (nonlinear_arith);
}

/// Merging is commutative: the order in which two points arrive does not matter.
pub proof fn lemma_merged_commutes(c: ComView, p: Point, m: int, q: Point, n: int)
    ensures
        c.merged(p, m).merged(q, n) == c.merged(q, n).merged(p, m),
{
}

/// Accumulators form a commutative monoid under `plus`, with the empty
/// accumulator as the neutral element.
pub proof fn lemma_plus_monoid(a: ComView, b: ComView, c: ComView)
    ensures
        a.plus(b) == b.plus(a),
        a.plus(b).plus(c) == a.plus(b.plus(c)),
        a.plus(ComView::zero()) == a,
{
}

impl COM {
    /// The empty accumulator.
    pub fn zero() -> (c: COM)
        ensures
            c@ == ComView::zero(),
    {
        COM { sum: Moment { x: 0, y: 0, z: 0 }, mass: 0 }
    }

    /// The accumulator of one point of mass `mass` at `pos`.
    pub fn point(pos: Vec3, mass: u64) -> (c: COM)
        requires
            pos@.in_range(),
        ensures
            c@ == ComView::point_mass(pos@, mass as int),
            c@.bounded(),
    {
        proof {
            lemma_point_mass_bounded(pos@, mass as int);
            assert(mass * COORD_LIMIT <= 0x1_0000_0000_0000_0000 * 0x100_0000_0000)
                by (nonlinear_arith)
                requires
                    0 <= mass < 0x1_0000_0000_0000_0000,
                    COORD_LIMIT == 0x100_0000_0000,
            ;
        }
        let m = mass as i128;
        COM {
            sum: Moment { x: m * (pos.x as i128), y: m * (pos.y as i128), z: m * (pos.z as i128) },
            mass,
        }
    }

    /// The accumulator of two points.
    pub fn new(p1: Vec3, m1: u64, p2: Vec3, m2: u64) -> (c: COM)
        requires
            p1@.in_range(),
            p2@.in_range(),
            m1 + m2 <= u64::MAX,
        ensures
            c@ == ComView::point_mass(p1@, m1 as int).plus(ComView::point_mass(p2@, m2 as int)),
            c@.bounded(),
    {
        let mut c = COM::point(p1, m1);
        c.add(p2, m2);
        c
    }

    /// The centre of mass with each component rounded down, and the total mass;
    /// `None` when there is no mass.
    pub fn com(&self) -> (r: Option<(Vec3, u64)>)
        requires
            self@.bounded(),
        ensures
            r is None <==> self.mass == 0,
            r matches Some((centre, mass)) ==> centre@ == self@.centre() && mass == self.mass,
    {
        if self.mass == 0 {
            return None;
        }
        proof {
            lemma_centre_in_range(self@);
        }
        let m = self.mass as i128;
        let x = floor_div(self.sum.x, m);
        let y = floor_div(self.sum.y, m);
        let z = floor_div(self.sum.z, m);
        Some((Vec3 { x: x as i64, y: y as i64, z: z as i64 }, self.mass))
    }

    /// Merges one more point of mass `mass` at `pos` into the accumulator.
    pub fn add(&mut self, pos: Vec3, mass: u64)
        requires
            old(self)@.bounded(),
            pos@.in_range(),
            old(self).mass + mass <= u64::MAX,
        ensures
            final(self)@ == old(self)@.merged(pos@, mass as int),
            final(self)@.bounded(),
    {
        let p = COM::point(pos, mass);
        proof {
            lemma_plus_bounded(self@, p@);
            assert((self.mass + mass) * COORD_LIMIT <= 0x1_0000_0000_0000_0000 * 0x100_0000_0000)
                by (nonlinear_arith)
                requires
                    0 <= self.mass + mass < 0x1_0000_0000_0000_0000,
                    COORD_LIMIT == 0x100_0000_0000,
            ;
        }
        self.sum = Moment {
            x: self.sum.x + p.sum.x,
            y: self.sum.y + p.sum.y,
            z: self.sum.z + p.sum.z,
        };
        self.mass = self.mass + mass;
    }
}

/// The centre of a bounded accumulator with positive mass is within the coordinate limit.
pub proof fn lemma_centre_in_range(c: ComView)
    requires
        c.bounded(),
        c.mass > 0,
    ensures
        c.centre().within(COORD_LIMIT as int),
{
    lemma_quotient_bounded(c.sum.x, c.mass, COORD_LIMIT as int);
    lemma_quotient_bounded(c.sum.y, c.mass, COORD_LIMIT as int);
    lemma_quotient_bounded(c.sum.z, c.mass, COORD_LIMIT as int);
}

proof fn lemma_quotient_bounded(s: int, m: int, l: int)
    requires
        m > 0,
        l >= 0,
        -(m * l) <= s <= m * l,
    ensures
        -l <= s / m <= l,
{
    assert(-l <= s / m <= l) by (nonlinear_arith)
        requires
            m > 0,
            l >= 0,
            -(m * l) <= s <= m * l,
    ;
}

/// Division rounding toward negative infinity.
fn floor_div(s: i128, m: i128) -> (q: i128)
    requires
        m > 0,
    ensures
        q == s / m,
{
    if s >= 0 {
        s / m
    } else {
        let t = -(s + 1);
        proof {
            let (a, b) = (s as int, m as int);
            assert(a / b == -((-(a + 1)) / b) - 1 && 0 <= (-(a + 1)) / b <= -(a + 1))
                by (nonlinear_arith)
                requires
                    b > 0,
                    a < 0,
            ;
        }
        -(t / m) - 1
    }
}

} // verus!
