//! Lattice vectors: the exact integer coordinates every other module computes with.

use vstd::prelude::*;

verus! {

/// Positions are confined to `-COORD_LIMIT <= c < COORD_LIMIT` on every axis.
pub const COORD_LIMIT: i64 = 0x100_0000_0000;

/// A mathematical point or displacement with unbounded integer components.
pub struct Point {
    pub x: int,
    pub y: int,
    pub z: int,
}

/// The three-bit mask of the axes on which `p >= q`: x is bit 0, y bit 1, z bit 2.
pub open spec fn ge_mask(p: Point, q: Point) -> int {
    (if p.x >= q.x { 1int } else { 0 }) + (if p.y >= q.y { 2int } else { 0 }) + (if p.z >= q.z {
        4int
    } else {
        0
    })
}

/// Per axis, the component of `a` where the bit of `mask` is set, else that of `b`.
pub open spec fn select(mask: int, a: Point, b: Point) -> Point {
    Point {
        x: if mask % 2 == 1 { a.x } else { b.x },
        y: if (mask / 2) % 2 == 1 { a.y } else { b.y },
        z: if (mask / 4) % 2 == 1 { a.z } else { b.z },
    }
}

/// Division rounding toward zero, for a positive divisor.
pub open spec fn trunc_div(a: int, b: int) -> int {
    if a >= 0 {
        a / b
    } else {
        -((-a) / b)
    }
}

/// Rounding toward zero is odd: negating the numerator negates the quotient.
pub proof fn lemma_trunc_div_odd(a: int, b: int)
    requires
        b > 0,
    ensures
        trunc_div(-a, b) == -trunc_div(a, b),
{
    if a == 0 {
        assert(0int / b == 0) by (nonlinear_arith)
            requires
                b > 0,
        ;
    }
}

/// A multiple divides back exactly.
pub proof fn lemma_trunc_div_multiple(x: int, b: int)
    requires
        b > 0,
    ensures
        trunc_div(b * x, b) == x,
{
    if x >= 0 {
        assert(b * x >= 0 && (b * x) / b == x) by (nonlinear_arith)
            requires
                b > 0,
                x >= 0,
        ;
    } else {
        assert(b * x < 0 && (-(b * x)) / b == -x) by (nonlinear_arith)
            requires
                b > 0,
                x < 0,
        ;
    }
}

/// The quotient has the sign of the numerator, or is zero.
pub proof fn lemma_trunc_div_sign(a: int, b: int)
    requires
        b > 0,
    ensures
        a >= 0 ==> trunc_div(a, b) >= 0,
        a <= 0 ==> trunc_div(a, b) <= 0,
        a >= b ==> trunc_div(a, b) >= 1,
        a <= -b ==> trunc_div(a, b) <= -1,
{
    if a >= 0 {
        assert(a / b >= 0 && (a >= b ==> a / b >= 1)) by (nonlinear_arith)
            requires
                a >= 0,
                b > 0,
        ;
    } else {
        assert((-a) / b >= 0 && (-a >= b ==> (-a) / b >= 1)) by (nonlinear_arith)
            requires
                a < 0,
                b > 0,
        ;
    }
}

impl Point {
    pub open spec fn zero() -> Point {
        Point { x: 0, y: 0, z: 0 }
    }

    pub open spec fn plus(self, other: Point) -> Point {
        Point { x: self.x + other.x, y: self.y + other.y, z: self.z + other.z }
    }

    pub open spec fn minus(self, other: Point) -> Point {
        Point { x: self.x - other.x, y: self.y - other.y, z: self.z - other.z }
    }

    pub open spec fn scaled(self, k: int) -> Point {
        Point { x: k * self.x, y: k * self.y, z: k * self.z }
    }

    /// Every component divided by `n`, rounding toward zero.
    pub open spec fn divided(self, n: int) -> Point {
        Point { x: trunc_div(self.x, n), y: trunc_div(self.y, n), z: trunc_div(self.z, n) }
    }

    /// Every component lies in the coordinate range.
    pub open spec fn in_range(self) -> bool {
        &&& -COORD_LIMIT <= self.x < COORD_LIMIT
        &&& -COORD_LIMIT <= self.y < COORD_LIMIT
        &&& -COORD_LIMIT <= self.z < COORD_LIMIT
    }

    /// Every component has magnitude at most `bound`.
    pub open spec fn within(self, bound: int) -> bool {
        &&& -bound <= self.x <= bound
        &&& -bound <= self.y <= bound
        &&& -bound <= self.z <= bound
    }
}

/// A lattice vector with machine-integer components.
#[derive(Clone, Copy, Debug, PartialEq, Eq, Structural)]
pub struct Vec3 {
    pub x: i64,
    pub y: i64,
    pub z: i64,
}

impl View for Vec3 {
    type V = Point;

    open spec fn view(&self) -> Point {
        Point { x: self.x as int, y: self.y as int, z: self.z as int }
    }
}

impl Vec3 {
    pub fn new(x: i64, y: i64, z: i64) -> (v: Vec3)
        ensures
            v == (Vec3 { x, y, z }),
    {
        Vec3 { x, y, z }
    }

    /// The vector with all three components equal to `v`.
    pub fn splat(v: i64) -> (r: Vec3)
        ensures
            r == (Vec3 { x: v, y: v, z: v }),
    {
        Vec3 { x: v, y: v, z: v }
    }

    /// The three-bit mask of the axes on which `self >= other`: x is bit 0, y bit 1,
    /// z bit 2.
    pub fn ge_mask(&self, other: Vec3) -> (mask: u8)
        ensures
            mask == ge_mask(self@, other@),
    {
        let bx: u8 = if self.x >= other.x { 1 } else { 0 };
        let by: u8 = if self.y >= other.y { 2 } else { 0 };
        let bz: u8 = if self.z >= other.z { 4 } else { 0 };
        bx + by + bz
    }

    /// Per axis, the component of `a` where the bit of `mask` is set, else that of `b`.
    pub fn select(mask: u8, a: Vec3, b: Vec3) -> (r: Vec3)
        ensures
            r@ == select(mask as int, a@, b@),
    {
        Vec3 {
            x: if mask % 2 == 1 { a.x } else { b.x },
            y: if (mask / 2) % 2 == 1 { a.y } else { b.y },
            z: if (mask / 4) % 2 == 1 { a.z } else { b.z },
        }
    }

    /// Tells whether every component lies in the coordinate range.
    pub fn in_range(&self) -> (b: bool)
        ensures
            b == self@.in_range(),
    {
        -COORD_LIMIT <= self.x && self.x < COORD_LIMIT && -COORD_LIMIT <= self.y && self.y
            < COORD_LIMIT && -COORD_LIMIT <= self.z && self.z < COORD_LIMIT
    }
}

/// Division rounding toward zero.
pub(crate) fn div_toward_zero(a: i128, b: i128) -> (q: i128)
    requires
        b > 0,
        a > i128::MIN,
    ensures
        q == trunc_div(a as int, b as int),
{
    if a >= 0 {
        a / b
    } else {
        let n = -a;
        assert(0 <= (n as int) / (b as int) <= n) by (nonlinear_arith)
            requires
                n >= 0,
                b > 0,
        ;
        -(n / b)
    }
}

/// A mass-weighted position sum, wide enough to accumulate many bodies.
#[derive(Clone, Copy, Debug, PartialEq, Eq, Structural)]
pub struct Moment {
    pub x: i128,
    pub y: i128,
    pub z: i128,
}

impl View for Moment {
    type V = Point;

    open spec fn view(&self) -> Point {
        Point { x: self.x as int, y: self.y as int, z: self.z as int }
    }
}

impl Moment {
    pub fn new(x: i128, y: i128, z: i128) -> (v: Moment)
        ensures
            v == (Moment { x, y, z }),
    {
        Moment { x, y, z }
    }
}

} // verus!
