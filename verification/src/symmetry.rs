//! Laws of the integrator: what a step does to a body that nothing pulls, and
//! what it cannot do to a symmetric pair.

use vstd::prelude::*;
use crate::body::Body;
use crate::gravity::{
    fine_root, lemma_fine_root, lemma_pull_massless, lemma_pull_odd, len2, pull, ROOT_SCALE,
};
use crate::integrator::{
    at_rest, increment, k1, k2, k3, k4, pull_sum, rate_sum, slope, stage, state_of, stepped,
    trial, trial_at, Motion,
};
use crate::vec3::{
    lemma_trunc_div_multiple, lemma_trunc_div_odd, lemma_trunc_div_sign, trunc_div, Point,
};

verus! {

/// All bodies but `i` are massless.
pub open spec fn others_massless(bodies: Seq<Body>, i: int) -> bool {
    forall|j: int| 0 <= j < bodies.len() && j != i ==> (#[trigger] bodies[j]).mass == 0
}

/// Nothing pulls on body `i`: every other body is massless, or there is no gravity.
pub open spec fn unpulled(bodies: Seq<Body>, g: int, i: int) -> bool {
    g == 0 || others_massless(bodies, i)
}

/// Where nothing pulls on body `i`, the pull on it is zero wherever the bodies
/// are: a body does not pull on itself.
proof fn lemma_no_pull(bodies: Seq<Body>, y: Seq<Motion>, g: int, i: int, n: int)
    requires
        0 <= i < bodies.len(),
        0 <= n <= bodies.len(),
        unpulled(bodies, g, i),
    ensures
        pull_sum(bodies, y, g, i, n) == Point::zero(),
    decreases n,
{
    if n > 0 {
        lemma_no_pull(bodies, y, g, i, n - 1);
        if n - 1 == i {
            assert(len2(y[i].pos.minus(y[i].pos)) == 0);
        } else {
            assert(g * bodies[n - 1].mass == 0) by (nonlinear_arith)
                requires
                    g == 0 || bodies[n - 1].mass == 0,
            ;
            lemma_pull_massless(y[n - 1].pos.minus(y[i].pos));
        }
    }
}

/// One stage finds, for a body that nothing pulls and that was not
/// accelerating, its own velocity and no acceleration.
proof fn lemma_stage_free(bodies: Seq<Body>, k: Seq<Motion>, twice: int, g: int, i: int)
    requires
        0 <= i < bodies.len(),
        unpulled(bodies, g, i),
        k[i].vel == Point::zero(),
    ensures
        stage(bodies, k, twice, g)[i] == (Motion { pos: bodies[i].vel@, vel: Point::zero() }),
{
    let y = trial(bodies, k, twice);
    lemma_no_pull(bodies, y, g, i, bodies.len() as int);
    assert(y[i] == trial_at(bodies, k, twice, i));
    assert(twice * 0 == 0);
    assert(y[i].vel == bodies[i].vel@);
}

/// A body on which nothing pulls moves in a straight line: after a step of
/// length `dt` it is at exactly its position plus `dt` times its velocity, and
/// its velocity is what it was.
pub proof fn lemma_free_body(bodies: Seq<Body>, dt: int, g: int, i: int)
    requires
        0 <= i < bodies.len(),
        unpulled(bodies, g, i),
    ensures
        stepped(bodies, dt, g, i) == (Motion {
            pos: bodies[i].position@.plus(bodies[i].vel@.scaled(dt)),
            vel: bodies[i].vel@,
        }),
{
    let v = bodies[i].vel@;
    assert(at_rest(bodies.len())[i] == Motion::rest());
    lemma_stage_free(bodies, at_rest(bodies.len()), 0, g, i);
    lemma_stage_free(bodies, k1(bodies, dt, g), dt, g, i);
    lemma_stage_free(bodies, k2(bodies, dt, g), dt, g, i);
    lemma_stage_free(bodies, k3(bodies, dt, g), 2 * dt, g, i);
    let s = rate_sum(bodies, dt, g, i);
    assert(s.vel == Point::zero());
    lemma_six_fold(dt, v.x, s.pos.x);
    lemma_six_fold(dt, v.y, s.pos.y);
    lemma_six_fold(dt, v.z, s.pos.z);
    lemma_six_fold(dt, 0, s.vel.x);
    lemma_six_fold(dt, 0, s.vel.y);
    lemma_six_fold(dt, 0, s.vel.z);
    assert(dt * 0 == 0);
}

/// A rate counted six times over, times `dt`, divided by six is the rate times `dt`.
proof fn lemma_six_fold(dt: int, v: int, s: int)
    requires
        s == v + 2 * v + 2 * v + v,
    ensures
        trunc_div(dt * s, 6) == dt * v,
{
    assert(dt * s == 6 * (dt * v)) by (nonlinear_arith)
        requires
            s == 6 * v,
    ;
    lemma_trunc_div_multiple(dt * v, 6);
}

/// No self-force: a body without velocity that nothing pulls is after the step
/// where it was, still without velocity.
pub proof fn lemma_lone_mass_stays(bodies: Seq<Body>, dt: int, g: int, i: int)
    requires
        0 <= i < bodies.len(),
        bodies[i].vel@ == Point::zero(),
        others_massless(bodies, i),
    ensures
        stepped(bodies, dt, g, i) == state_of(bodies[i]),
{
    lemma_free_body(bodies, dt, g, i);
    assert(dt * 0 == 0);
}

/// The second of two motions is the first reflected through the origin.
pub open spec fn mirrored(s: Seq<Motion>) -> bool {
    s.len() == 2 && s[1] == s[0].scaled(-1)
}

/// A factor's sign can be taken out of a product.
proof fn lemma_negated_product(u: int, x: int)
    ensures
        u * (-x) == -(u * x),
        u * ((-1) * x) == (-1) * (u * x),
{
    assert(u * (-x) == -(u * x)) by (nonlinear_arith);
}

/// Reflecting commutes with scaling and dividing.
proof fn lemma_reflected_quotient(m: Motion, u: int, n: int)
    requires
        n > 0,
    ensures
        m.scaled(-1).scaled(u).divided(n) == m.scaled(u).divided(n).scaled(-1),
{
    lemma_negated_product(u, m.pos.x);
    lemma_negated_product(u, m.pos.y);
    lemma_negated_product(u, m.pos.z);
    lemma_negated_product(u, m.vel.x);
    lemma_negated_product(u, m.vel.y);
    lemma_negated_product(u, m.vel.z);
    lemma_trunc_div_odd(u * m.pos.x, n);
    lemma_trunc_div_odd(u * m.pos.y, n);
    lemma_trunc_div_odd(u * m.pos.z, n);
    lemma_trunc_div_odd(u * m.vel.x, n);
    lemma_trunc_div_odd(u * m.vel.y, n);
    lemma_trunc_div_odd(u * m.vel.z, n);
}

/// The pulls of two bodies on each other, seen as sums over both.
proof fn lemma_pull_of_two(bodies: Seq<Body>, y: Seq<Motion>, g: int)
    requires
        bodies.len() == 2,
    ensures
        pull_sum(bodies, y, g, 0, 2) == pull(g * bodies[1].mass, y[1].pos.minus(y[0].pos)),
        pull_sum(bodies, y, g, 1, 2) == pull(g * bodies[0].mass, y[0].pos.minus(y[1].pos)),
{
    assert(len2(y[0].pos.minus(y[0].pos)) == 0);
    assert(len2(y[1].pos.minus(y[1].pos)) == 0);
    reveal_with_fuel(pull_sum, 3);
}

/// One stage keeps a mirrored pair of equal masses mirrored.
proof fn lemma_stage_mirrored(bodies: Seq<Body>, k: Seq<Motion>, twice: int, g: int)
    requires
        bodies.len() == 2,
        bodies[0].mass == bodies[1].mass,
        state_of(bodies[1]) == state_of(bodies[0]).scaled(-1),
        mirrored(k),
    ensures
        mirrored(stage(bodies, k, twice, g)),
{
    let y = trial(bodies, k, twice);
    let gm = g * bodies[0].mass;
    assert(y[0] == trial_at(bodies, k, twice, 0));
    assert(y[1] == trial_at(bodies, k, twice, 1));
    lemma_reflected_quotient(k[0], twice, 2);
    assert(y[1] == y[0].scaled(-1));
    let d = y[1].pos.minus(y[0].pos);
    assert(y[0].pos.minus(y[1].pos) == Point::zero().minus(d));
    lemma_pull_odd(gm, d);
    lemma_pull_of_two(bodies, y, g);
    let s = stage(bodies, k, twice, g);
    assert(s[0] == slope(bodies, y, g, 0));
    assert(s[1] == slope(bodies, y, g, 1));
}

/// Symmetry of a pair: two bodies of equal mass whose states mirror each other
/// through the origin still mirror each other after the step. Equal masses at
/// `(+d, 0, 0)` and `(-d, 0, 0)` without velocity are the plainest case: their
/// displacements along x are opposite.
pub proof fn lemma_pair_stays_mirrored(bodies: Seq<Body>, dt: int, g: int)
    requires
        bodies.len() == 2,
        bodies[0].mass == bodies[1].mass,
        state_of(bodies[1]) == state_of(bodies[0]).scaled(-1),
    ensures
        stepped(bodies, dt, g, 1) == stepped(bodies, dt, g, 0).scaled(-1),
{
    assert(mirrored(at_rest(2)));
    lemma_stage_mirrored(bodies, at_rest(bodies.len()), 0, g);
    lemma_stage_mirrored(bodies, k1(bodies, dt, g), dt, g);
    lemma_stage_mirrored(bodies, k2(bodies, dt, g), dt, g);
    lemma_stage_mirrored(bodies, k3(bodies, dt, g), 2 * dt, g);
    let s = rate_sum(bodies, dt, g, 0);
    assert(rate_sum(bodies, dt, g, 1) == s.scaled(-1));
    lemma_reflected_quotient(s, dt, 6);
    assert(increment(bodies, dt, g, 1) == increment(bodies, dt, g, 0).scaled(-1));
}

/// The motion has no component off the x axis.
pub open spec fn along_x(m: Motion) -> bool {
    m.pos.y == 0 && m.pos.z == 0 && m.vel.y == 0 && m.vel.z == 0
}

/// Every motion of the sequence is along the x axis.
pub open spec fn all_along_x(s: Seq<Motion>) -> bool {
    forall|i: int| 0 <= i < s.len() ==> along_x(#[trigger] s[i])
}

/// Bodies on the x axis pull along the x axis.
proof fn lemma_pull_sum_along_x(bodies: Seq<Body>, y: Seq<Motion>, g: int, i: int, n: int)
    requires
        y.len() == bodies.len(),
        0 <= i < bodies.len(),
        0 <= n <= bodies.len(),
        all_along_x(y),
    ensures
        pull_sum(bodies, y, g, i, n).y == 0,
        pull_sum(bodies, y, g, i, n).z == 0,
    decreases n,
{
    if n > 0 {
        lemma_pull_sum_along_x(bodies, y, g, i, n - 1);
        let d = y[n - 1].pos.minus(y[i].pos);
        assert(along_x(y[n - 1]) && along_x(y[i]));
        let l = len2(d);
        if l > 0 {
            lemma_fine_root(l);
            let cube = l * fine_root(l);
            assert(0int / cube == 0) by (nonlinear_arith)
                requires
                    cube > 0,
            ;
            let gm = g * bodies[n - 1].mass;
            assert(gm * d.y * ROOT_SCALE == 0 && gm * d.z * ROOT_SCALE == 0) by (nonlinear_arith)
                requires
                    d.y == 0,
                    d.z == 0,
            ;
        }
    }
}

/// One stage keeps bodies that move along the x axis on it.
proof fn lemma_stage_along_x(bodies: Seq<Body>, k: Seq<Motion>, twice: int, g: int)
    requires
        k.len() == bodies.len(),
        all_along_x(k),
        forall|i: int| 0 <= i < bodies.len() ==> along_x(state_of(#[trigger] bodies[i])),
    ensures
        stage(bodies, k, twice, g).len() == bodies.len(),
        all_along_x(stage(bodies, k, twice, g)),
{
    let y = trial(bodies, k, twice);
    assert forall|i: int| 0 <= i < y.len() implies along_x(#[trigger] y[i]) by {
        assert(y[i] == trial_at(bodies, k, twice, i));
        assert(along_x(state_of(bodies[i])) && along_x(k[i]));
        assert(twice * 0 == 0);
    }
    let s = stage(bodies, k, twice, g);
    assert forall|i: int| 0 <= i < s.len() implies along_x(#[trigger] s[i]) by {
        lemma_pull_sum_along_x(bodies, y, g, i, bodies.len() as int);
        assert(s[i] == slope(bodies, y, g, i));
        assert(along_x(y[i]));
    }
}

/// Bodies that all lie on the x axis and move along it stay on it: their y and
/// z components are after the step what they were, zero.
pub proof fn lemma_stays_along_x(bodies: Seq<Body>, dt: int, g: int, i: int)
    requires
        0 <= i < bodies.len(),
        forall|j: int| 0 <= j < bodies.len() ==> along_x(state_of(#[trigger] bodies[j])),
    ensures
        along_x(stepped(bodies, dt, g, i)),
{
    assert(all_along_x(at_rest(bodies.len())));
    lemma_stage_along_x(bodies, at_rest(bodies.len()), 0, g);
    lemma_stage_along_x(bodies, k1(bodies, dt, g), dt, g);
    lemma_stage_along_x(bodies, k2(bodies, dt, g), dt, g);
    lemma_stage_along_x(bodies, k3(bodies, dt, g), 2 * dt, g);
    assert(along_x(k1(bodies, dt, g)[i]));
    assert(along_x(k2(bodies, dt, g)[i]));
    assert(along_x(k3(bodies, dt, g)[i]));
    assert(along_x(k4(bodies, dt, g)[i]));
    assert(along_x(state_of(bodies[i])));
    assert(dt * 0 == 0);
}

/// A body pulls along x in the direction of the displacement, never against it.
proof fn lemma_pull_sign(gm: int, d: Point)
    requires
        gm >= 0,
    ensures
        d.x >= 0 ==> pull(gm, d).x >= 0,
        d.x <= 0 ==> pull(gm, d).x <= 0,
{
    let l = len2(d);
    if l > 0 {
        lemma_fine_root(l);
        let cube = l * fine_root(l);
        let a = gm * d.x * ROOT_SCALE;
        assert((d.x >= 0 ==> a >= 0) && (d.x <= 0 ==> a <= 0)) by (nonlinear_arith)
            requires
                a == gm * d.x * ROOT_SCALE,
                gm >= 0,
                ROOT_SCALE > 0,
        ;
        lemma_trunc_div_sign(a, cube);
    }
}

/// In a pair whose first body is not below the second along x, one stage pulls
/// the first body toward the second: its acceleration along x is not positive,
/// and its rate of position is its trial velocity.
proof fn lemma_stage_pulls_inward(bodies: Seq<Body>, k: Seq<Motion>, twice: int, g: int)
    requires
        bodies.len() == 2,
        g >= 0,
        trial_at(bodies, k, twice, 0).pos.x >= trial_at(bodies, k, twice, 1).pos.x,
    ensures
        stage(bodies, k, twice, g)[0].vel.x <= 0,
        stage(bodies, k, twice, g)[0].pos == trial_at(bodies, k, twice, 0).vel,
{
    let y = trial(bodies, k, twice);
    assert(y[0] == trial_at(bodies, k, twice, 0));
    assert(y[1] == trial_at(bodies, k, twice, 1));
    let d = y[1].pos.minus(y[0].pos);
    let gm = g * bodies[1].mass;
    assert(gm >= 0) by (nonlinear_arith)
        requires
            gm == g * bodies[1].mass,
            g >= 0,
            bodies[1].mass >= 0,
    ;
    lemma_pull_sign(gm, d);
    lemma_pull_of_two(bodies, y, g);
    let s = stage(bodies, k, twice, g);
    assert(s[0] == slope(bodies, y, g, 0));
}

/// The pair never passes: in every trial state of the step the first body is
/// not below the second along x.
pub open spec fn never_passing(bodies: Seq<Body>, dt: int, g: int) -> bool {
    &&& bodies[0].position@.x >= bodies[1].position@.x
    &&& trial_at(bodies, k1(bodies, dt, g), dt, 0).pos.x >= trial_at(
        bodies,
        k1(bodies, dt, g),
        dt,
        1,
    ).pos.x
    &&& trial_at(bodies, k2(bodies, dt, g), dt, 0).pos.x >= trial_at(
        bodies,
        k2(bodies, dt, g),
        dt,
        1,
    ).pos.x
    &&& trial_at(bodies, k3(bodies, dt, g), 2 * dt, 0).pos.x >= trial_at(
        bodies,
        k3(bodies, dt, g),
        2 * dt,
        1,
    ).pos.x
}

/// What the four stages find for the first body of a pair that never passes
/// and starts without velocity along x: four accelerations that are not
/// positive, and three velocities that are half steps and a whole step of them.
proof fn lemma_inward_rates(bodies: Seq<Body>, dt: int, g: int)
    requires
        bodies.len() == 2,
        dt >= 0,
        g >= 0,
        bodies[0].vel@.x == 0,
        never_passing(bodies, dt, g),
    ensures
        ({
            let (a, b, c, d) = (
                k1(bodies, dt, g)[0],
                k2(bodies, dt, g)[0],
                k3(bodies, dt, g)[0],
                k4(bodies, dt, g)[0],
            );
            &&& a.vel.x <= 0 && b.vel.x <= 0 && c.vel.x <= 0 && d.vel.x <= 0
            &&& a.pos.x == 0
            &&& b.pos.x == trunc_div(dt * a.vel.x, 2)
            &&& c.pos.x == trunc_div(dt * b.vel.x, 2)
            &&& d.pos.x == trunc_div(2 * dt * c.vel.x, 2)
            &&& b.pos.x <= 0 && c.pos.x <= 0 && d.pos.x <= 0
        }),
{
    let rest = at_rest(bodies.len());
    let (a, b, c, d) = (k1(bodies, dt, g), k2(bodies, dt, g), k3(bodies, dt, g), k4(bodies, dt, g));
    assert(0 * 0 == 0);
    assert(trial_at(bodies, rest, 0, 0) == state_of(bodies[0]));
    assert(trial_at(bodies, rest, 0, 1) == state_of(bodies[1]));
    lemma_stage_pulls_inward(bodies, rest, 0, g);
    lemma_stage_pulls_inward(bodies, a, dt, g);
    lemma_stage_pulls_inward(bodies, b, dt, g);
    lemma_stage_pulls_inward(bodies, c, 2 * dt, g);
    lemma_nonpositive_product(dt, a[0].vel.x);
    lemma_nonpositive_product(dt, b[0].vel.x);
    lemma_nonpositive_product(2 * dt, c[0].vel.x);
    lemma_trunc_div_sign(dt * a[0].vel.x, 2);
    lemma_trunc_div_sign(dt * b[0].vel.x, 2);
    lemma_trunc_div_sign(2 * dt * c[0].vel.x, 2);
}

/// The first of two bodies, without velocity along x and not below the second,
/// is after the step no further along x than it was, and not moving away,
/// provided the pair never passes within the step.
pub proof fn lemma_pair_approaches(bodies: Seq<Body>, dt: int, g: int)
    requires
        bodies.len() == 2,
        dt >= 0,
        g >= 0,
        bodies[0].vel@.x == 0,
        never_passing(bodies, dt, g),
    ensures
        stepped(bodies, dt, g, 0).pos.x <= bodies[0].position@.x,
        stepped(bodies, dt, g, 0).vel.x <= 0,
{
    lemma_inward_rates(bodies, dt, g);
    let s = rate_sum(bodies, dt, g, 0);
    lemma_nonpositive_product(dt, s.pos.x);
    lemma_nonpositive_product(dt, s.vel.x);
    lemma_trunc_div_sign(dt * s.pos.x, 6);
    lemma_trunc_div_sign(dt * s.vel.x, 6);
}

/// The strict form: where moreover the step is at least six ticks long and
/// the first pull on the first body is not rounded to nothing, the body ends
/// strictly nearer along x and moving toward the second.
pub proof fn lemma_pair_closes(bodies: Seq<Body>, dt: int, g: int)
    requires
        bodies.len() == 2,
        dt >= 6,
        g >= 0,
        bodies[0].vel@.x == 0,
        never_passing(bodies, dt, g),
        k1(bodies, dt, g)[0].vel.x < 0,
    ensures
        stepped(bodies, dt, g, 0).pos.x < bodies[0].position@.x,
        stepped(bodies, dt, g, 0).vel.x < 0,
{
    lemma_inward_rates(bodies, dt, g);
    let s = rate_sum(bodies, dt, g, 0);
    let a = k1(bodies, dt, g)[0].vel.x;
    let b = k2(bodies, dt, g)[0].pos.x;
    assert(dt * a <= -6) by (nonlinear_arith)
        requires
            dt >= 6,
            a <= -1,
    ;
    lemma_trunc_div_sign(dt * a, 2);
    assert(b <= -1);
    assert(s.pos.x <= -2 && s.vel.x <= -1);
    assert(dt * s.pos.x <= -6 && dt * s.vel.x <= -6) by (nonlinear_arith)
        requires
            dt >= 6,
            s.pos.x <= -1,
            s.vel.x <= -1,
    ;
    lemma_trunc_div_sign(dt * s.pos.x, 6);
    lemma_trunc_div_sign(dt * s.vel.x, 6);
}

proof fn lemma_nonpositive_product(w: int, c: int)
    requires
        w >= 0,
        c <= 0,
    ensures
        w * c <= 0,
{
    assert(w * c <= 0) by (nonlinear_arith)
        requires
            w >= 0,
            c <= 0,
    ;
}

} // verus!
