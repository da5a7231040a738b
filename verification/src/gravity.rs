//! The acceleration law: the pull of one point mass on another, in exact
//! integer arithmetic that rounds toward zero.

use vstd::prelude::*;
use vstd::arithmetic::div_mod::lemma_div_denominator;
use crate::vec3::{lemma_trunc_div_odd, trunc_div, Moment, Point, Vec3};

verus! {

/// Distances are taken to 22 binary places: a root is the integer square root
/// at a scale of `ROOT_SCALE` to one.
pub const ROOT_SCALE: u64 = 0x40_0000;

/// `r` is the integer square root of `n`: the largest integer whose square is at most `n`.
pub open spec fn is_root(n: int, r: int) -> bool {
    0 <= r && r * r <= n < (r + 1) * (r + 1)
}

/// The integer square root of `n`, for `n >= 0`.
pub open spec fn isqrt(n: int) -> int {
    choose|r: int| is_root(n, r)
}

/// An integer square root is the integer square root.
pub proof fn lemma_isqrt_unique(n: int, r: int)
    requires
        is_root(n, r),
    ensures
        isqrt(n) == r,
{
    let s = isqrt(n);
    assert(is_root(n, s));
    assert(s == r) by (nonlinear_arith)
        requires
            0 <= r && r * r <= n < (r + 1) * (r + 1),
            0 <= s && s * s <= n < (s + 1) * (s + 1),
    ;
}

/// The integer square root.
pub fn sqrt_floor(n: u128) -> (r: u64)
    ensures
        is_root(n as int, r as int),
        r as int == isqrt(n as int),
{
    let mut lo: u128 = 0;
    let mut hi: u128 = 0x1_0000_0000_0000_0000;
    assert(hi * hi > n) by (nonlinear_arith)
        requires
            hi == 0x1_0000_0000_0000_0000,
            n < 0x1_0000_0000_0000_0000_0000_0000_0000_0000,
    ;
    while hi - lo > 1
        invariant
            lo < hi <= 0x1_0000_0000_0000_0000,
            lo * lo <= n < hi * hi,
        decreases hi - lo,
    {
        let mid = lo + (hi - lo) / 2;
        assert(mid * mid < 0x1_0000_0000_0000_0000_0000_0000_0000_0000) by (nonlinear_arith)
            requires
                0 <= mid < 0x1_0000_0000_0000_0000,
        ;
        if mid * mid <= n {
            lo = mid;
        } else {
            hi = mid;
        }
    }
    proof {
        lemma_isqrt_unique(n as int, lo as int);
    }
    lo as u64
}

/// The squared length of a displacement.
pub open spec fn len2(d: Point) -> int {
    d.x * d.x + d.y * d.y + d.z * d.z
}

/// The length of a displacement of squared length `l`, at the scale of
/// `ROOT_SCALE` to one, rounded down.
pub open spec fn fine_root(l: int) -> int {
    isqrt(l * (ROOT_SCALE * ROOT_SCALE))
}

/// The acceleration that a body of gravitational parameter `gm`, the
/// gravitational constant times its mass, causes at displacement `d`:
/// `gm * d / |d|^3`, each component rounded toward zero once, with `|d|` taken
/// to 22 binary places. A body at no distance pulls nowhere.
pub open spec fn pull(gm: int, d: Point) -> Point {
    let l = len2(d);
    if l <= 0 {
        Point::zero()
    } else {
        let cube = l * fine_root(l);
        Point {
            x: trunc_div(gm * d.x * ROOT_SCALE, cube),
            y: trunc_div(gm * d.y * ROOT_SCALE, cube),
            z: trunc_div(gm * d.z * ROOT_SCALE, cube),
        }
    }
}

/// Every non-negative integer has an integer square root.
pub proof fn lemma_root_exists(n: int)
    requires
        n >= 0,
    ensures
        is_root(n, isqrt(n)),
    decreases n,
{
    if n == 0 {
        assert(is_root(0, 0));
    } else {
        lemma_root_exists(n - 1);
        let r = isqrt(n - 1);
        if (r + 1) * (r + 1) <= n {
            assert(is_root(n, r + 1)) by (nonlinear_arith)
                requires
                    0 <= r && r * r <= n - 1 < (r + 1) * (r + 1),
                    (r + 1) * (r + 1) <= n,
            ;
        } else {
            assert(is_root(n, r));
        }
    }
}

/// The length of a displacement that is not zero is at least one: the fine
/// root of a positive squared length is at least `ROOT_SCALE`, and its product
/// with the squared length is positive.
pub proof fn lemma_fine_root(l: int)
    requires
        l > 0,
    ensures
        is_root(l * (ROOT_SCALE * ROOT_SCALE), fine_root(l)),
        fine_root(l) >= ROOT_SCALE,
        l * fine_root(l) >= l * ROOT_SCALE > 0,
{
    let s = ROOT_SCALE as int;
    let n = l * (s * s);
    assert(n >= s * s) by (nonlinear_arith)
        requires
            n == l * (s * s),
            l >= 1,
            s > 0,
    ;
    lemma_root_exists(n);
    let r = isqrt(n);
    assert(r >= s) by (nonlinear_arith)
        requires
            n >= s * s,
            n < (r + 1) * (r + 1),
            r >= 0,
            s > 0,
    ;
    assert(l * r >= l * s > 0) by (nonlinear_arith)
        requires
            r >= s,
            s > 0,
            l > 0,
    ;
}

/// The pull is odd in the displacement: seen from the other side it is reversed.
pub proof fn lemma_pull_odd(gm: int, d: Point)
    ensures
        pull(gm, Point::zero().minus(d)) == Point::zero().minus(pull(gm, d)),
{
    let e = Point::zero().minus(d);
    assert(len2(e) == len2(d)) by (nonlinear_arith)
        requires
            e.x == -d.x,
            e.y == -d.y,
            e.z == -d.z,
    ;
    let l = len2(d);
    if l > 0 {
        lemma_fine_root(l);
        let cube = l * fine_root(l);
        let s = ROOT_SCALE as int;
        assert(gm * e.x * s == -(gm * d.x * s) && gm * e.y * s == -(gm * d.y * s) && gm * e.z * s
            == -(gm * d.z * s)) by (nonlinear_arith)
            requires
                e.x == -d.x,
                e.y == -d.y,
                e.z == -d.z,
        ;
        lemma_trunc_div_odd(gm * d.x * s, cube);
        lemma_trunc_div_odd(gm * d.y * s, cube);
        lemma_trunc_div_odd(gm * d.z * s, cube);
    }
}

/// Without gravitational parameter there is no pull.
pub proof fn lemma_pull_massless(d: Point)
    ensures
        pull(0, d) == Point::zero(),
{
    let l = len2(d);
    if l > 0 {
        lemma_fine_root(l);
        let cube = l * fine_root(l);
        assert(0int / cube == 0) by (nonlinear_arith)
            requires
                cube > 0,
        ;
        assert(0 * d.x * ROOT_SCALE == 0 && 0 * d.y * ROOT_SCALE == 0 && 0 * d.z * ROOT_SCALE
            == 0);
    }
}

/// No component of a pull exceeds the gravitational parameter.
pub proof fn lemma_pull_bounded(gm: int, d: Point)
    requires
        gm >= 0,
    ensures
        pull(gm, d).within(gm),
{
    let l = len2(d);
    if l > 0 {
        lemma_fine_root(l);
        assert(d.x * d.x <= l && d.y * d.y <= l && d.z * d.z <= l) by (nonlinear_arith)
            requires
                l == d.x * d.x + d.y * d.y + d.z * d.z,
        ;
        lemma_component(gm, d.x, l, fine_root(l));
        lemma_component(gm, d.y, l, fine_root(l));
        lemma_component(gm, d.z, l, fine_root(l));
    }
}

/// One component of a pull, by magnitude: it is the quotient of the magnitudes
/// with the sign of the displacement, it is at most `gm`, and the divisions by
/// the squared length and by the root may be taken one after the other.
pub proof fn lemma_component(gm: int, c: int, l: int, r: int)
    requires
        gm >= 0,
        l > 0,
        c * c <= l,
        r >= ROOT_SCALE,
    ensures
        ({
            let a = if c >= 0 { c } else { -c };
            let q = ((gm * a * ROOT_SCALE) / l) / r;
            &&& 0 <= q <= gm
            &&& trunc_div(gm * c * ROOT_SCALE, l * r) == if c >= 0 { q } else { -q }
        }),
{
    let s = ROOT_SCALE as int;
    let a = if c >= 0 { c } else { -c };
    let x = gm * a * s;
    assert(a * a == c * c) by (nonlinear_arith)
        requires
            a == c || a == -c,
    ;
    assert(a <= a * a) by (nonlinear_arith)
        requires
            a >= 0,
    ;
    assert(0 <= x <= gm * (l * r)) by (nonlinear_arith)
        requires
            x == gm * a * s,
            gm >= 0,
            0 <= a <= l,
            0 < s <= r,
    ;
    assert(l * r > 0) by (nonlinear_arith)
        requires
            l > 0,
            r > 0,
    ;
    lemma_div_denominator(x, l, r);
    assert(0 <= x / (l * r) <= gm) by (nonlinear_arith)
        requires
            0 <= x <= gm * (l * r),
            l * r > 0,
    ;
    if c >= 0 {
        assert(gm * c * s == x);
    } else {
        assert(gm * c * s == -x) by (nonlinear_arith)
            requires
                x == gm * a * s,
                a == -c,
        ;
        if x == 0 {
            assert(0int / (l * r) == 0) by (nonlinear_arith)
                requires
                    l * r > 0,
            ;
        }
    }
}

/// One component of a pull: `gm * c * ROOT_SCALE / (l * r)` rounded toward zero.
fn component(gm: u64, c: i64, l: u128, r: u64) -> (q: i128)
    requires
        -0x200_0000_0000 < c < 0x200_0000_0000,
        l > 0,
        c * c <= l,
        r >= ROOT_SCALE,
    ensures
        q == trunc_div(gm * c * ROOT_SCALE, l * r),
        -gm <= q <= gm,
{
    let a: u128 = if c >= 0 { c as u128 } else { (-c) as u128 };
    proof {
        lemma_component(gm as int, c as int, l as int, r as int);
        assert(0 <= gm * a * ROOT_SCALE <= 0xffff_ffff_ffff_ffff * 0x200_0000_0000 * 0x40_0000
            && 0 <= gm * a <= 0xffff_ffff_ffff_ffff * 0x200_0000_0000) by (nonlinear_arith)
            requires
                0 <= gm <= 0xffff_ffff_ffff_ffff,
                0 <= a < 0x200_0000_0000,
                ROOT_SCALE == 0x40_0000,
        ;
    }
    let x = (gm as u128) * a * (ROOT_SCALE as u128);
    let q = (x / l) / (r as u128);
    if c >= 0 {
        q as i128
    } else {
        -(q as i128)
    }
}

/// The pull that a body of gravitational parameter `gm` at `to` exerts on a
/// point at `from`.
pub fn attraction(gm: u64, from: Vec3, to: Vec3) -> (a: Moment)
    requires
        from@.in_range(),
        to@.in_range(),
    ensures
        a@ == pull(gm as int, to@.minus(from@)),
        a@.within(gm as int),
{
    let dx = to.x - from.x;
    let dy = to.y - from.y;
    let dz = to.z - from.z;
    let ghost d = to@.minus(from@);
    proof {
        lemma_pull_bounded(gm as int, d);
        assert(0 <= dx * dx <= 0x200_0000_0000 * 0x200_0000_0000) by (nonlinear_arith)
            requires
                -0x200_0000_0000 < dx < 0x200_0000_0000,
        ;
        assert(0 <= dy * dy <= 0x200_0000_0000 * 0x200_0000_0000) by (nonlinear_arith)
            requires
                -0x200_0000_0000 < dy < 0x200_0000_0000,
        ;
        assert(0 <= dz * dz <= 0x200_0000_0000 * 0x200_0000_0000) by (nonlinear_arith)
            requires
                -0x200_0000_0000 < dz < 0x200_0000_0000,
        ;
    }
    let len_squared = (dx as i128) * (dx as i128) + (dy as i128) * (dy as i128) + (dz as i128) * (
    dz as i128);
    if len_squared <= 0 {
        return Moment { x: 0, y: 0, z: 0 };
    }
    let l = len_squared as u128;
    proof {
        assert(l * (ROOT_SCALE * ROOT_SCALE) <= 3 * (0x200_0000_0000 * 0x200_0000_0000) * (0x40_0000
            * 0x40_0000)) by (nonlinear_arith)
            requires
                0 < l <= 3 * (0x200_0000_0000 * 0x200_0000_0000),
                ROOT_SCALE == 0x40_0000,
        ;
        lemma_fine_root(l as int);
    }
    let root = sqrt_floor(l * ((ROOT_SCALE as u128) * (ROOT_SCALE as u128)));
    Moment {
        x: component(gm, dx, l, root),
        y: component(gm, dy, l, root),
        z: component(gm, dz, l, root),
    }
}

} // verus!
