//! The fixed-step integrator: one classical fourth-order Runge-Kutta step of all
//! bodies under their mutual gravity, by direct pairwise summation.

use vstd::prelude::*;
use crate::body::{Body, BodyStore, Entity, MASS_LIMIT};
use crate::gravity::{attraction, pull};
use crate::vec3::{div_toward_zero, trunc_div, Moment, Point, Vec3, COORD_LIMIT};

verus! {

/// A position with a velocity: the state of a body, or, read as velocity with
/// acceleration, its rate of change.
pub struct Motion {
    pub pos: Point,
    pub vel: Point,
}

impl Motion {
    pub open spec fn rest() -> Motion {
        Motion { pos: Point::zero(), vel: Point::zero() }
    }

    pub open spec fn plus(self, other: Motion) -> Motion {
        Motion { pos: self.pos.plus(other.pos), vel: self.vel.plus(other.vel) }
    }

    pub open spec fn scaled(self, k: int) -> Motion {
        Motion { pos: self.pos.scaled(k), vel: self.vel.scaled(k) }
    }

    /// Every component divided by `n`, rounding toward zero.
    pub open spec fn divided(self, n: int) -> Motion {
        Motion { pos: self.pos.divided(n), vel: self.vel.divided(n) }
    }

    pub open spec fn in_range(self) -> bool {
        self.pos.in_range() && self.vel.in_range()
    }
}

/// The state of a body.
pub open spec fn state_of(b: Body) -> Motion {
    Motion { pos: b.position@, vel: b.vel@ }
}

/// `n` bodies without any rate of change.
pub open spec fn at_rest(n: nat) -> Seq<Motion> {
    Seq::new(n, |i: int| Motion::rest())
}

/// The trial state of body `i`: its state at the start of the tick, advanced by
/// the rate `k[i]` over `twice / 2` ticks. The product is taken first and
/// halved once, rounding toward zero.
pub open spec fn trial_at(bodies: Seq<Body>, k: Seq<Motion>, twice: int, i: int) -> Motion {
    state_of(bodies[i]).plus(k[i].scaled(twice).divided(2))
}

/// The trial states of all bodies.
pub open spec fn trial(bodies: Seq<Body>, k: Seq<Motion>, twice: int) -> Seq<Motion> {
    Seq::new(bodies.len(), |i: int| trial_at(bodies, k, twice, i))
}

/// The pull on body `i` of the first `n` bodies, at the positions of `y`, under
/// the gravitational constant `g`. The body's own term, like that of any body
/// at its very position, is zero.
pub open spec fn pull_sum(bodies: Seq<Body>, y: Seq<Motion>, g: int, i: int, n: int) -> Point
    decreases n,
{
    if n <= 0 {
        Point::zero()
    } else {
        pull_sum(bodies, y, g, i, n - 1).plus(
            pull(g * bodies[n - 1].mass, y[n - 1].pos.minus(y[i].pos)),
        )
    }
}

/// The rate of change of body `i` in the states `y`: its velocity, and the
/// acceleration by the pull of all bodies.
pub open spec fn slope(bodies: Seq<Body>, y: Seq<Motion>, g: int, i: int) -> Motion {
    Motion { pos: y[i].vel, vel: pull_sum(bodies, y, g, i, bodies.len() as int) }
}

/// One stage: the rates of change of all bodies in their trial states.
pub open spec fn stage(bodies: Seq<Body>, k: Seq<Motion>, twice: int, g: int) -> Seq<Motion> {
    Seq::new(bodies.len(), |i: int| slope(bodies, trial(bodies, k, twice), g, i))
}

/// The stage stays in range: every trial state and every acceleration does.
pub open spec fn stage_ok(bodies: Seq<Body>, k: Seq<Motion>, twice: int, g: int) -> bool {
    forall|i: int|
        0 <= i < bodies.len() ==> (#[trigger] trial_at(bodies, k, twice, i)).in_range() && slope(
            bodies,
            trial(bodies, k, twice),
            g,
            i,
        ).vel.in_range()
}

/// The rates of the four stages of a step of length `dt`: at the start, twice
/// at `dt / 2` and at `dt`.
pub open spec fn k1(bodies: Seq<Body>, dt: int, g: int) -> Seq<Motion> {
    stage(bodies, at_rest(bodies.len()), 0, g)
}

pub open spec fn k2(bodies: Seq<Body>, dt: int, g: int) -> Seq<Motion> {
    stage(bodies, k1(bodies, dt, g), dt, g)
}

pub open spec fn k3(bodies: Seq<Body>, dt: int, g: int) -> Seq<Motion> {
    stage(bodies, k2(bodies, dt, g), dt, g)
}

pub open spec fn k4(bodies: Seq<Body>, dt: int, g: int) -> Seq<Motion> {
    stage(bodies, k3(bodies, dt, g), 2 * dt, g)
}

/// The four rates of body `i` with the weights 1, 2, 2, 1.
pub open spec fn rate_sum(bodies: Seq<Body>, dt: int, g: int, i: int) -> Motion {
    k1(bodies, dt, g)[i].plus(k2(bodies, dt, g)[i].scaled(2)).plus(
        k3(bodies, dt, g)[i].scaled(2),
    ).plus(k4(bodies, dt, g)[i])
}

/// What one step adds to the state of body `i`: `dt / 6 * (k1 + 2 k2 + 2 k3 +
/// k4)`, the product taken first and divided by six once, rounding toward zero.
pub open spec fn increment(bodies: Seq<Body>, dt: int, g: int, i: int) -> Motion {
    rate_sum(bodies, dt, g, i).scaled(dt).divided(6)
}

/// The state of body `i` after one step.
pub open spec fn stepped(bodies: Seq<Body>, dt: int, g: int, i: int) -> Motion {
    state_of(bodies[i]).plus(increment(bodies, dt, g, i))
}

/// The gravitational parameter of every body, `g` times its mass, is within
/// the mass limit.
pub open spec fn light_enough(bodies: Seq<Body>, g: int) -> bool {
    forall|j: int| 0 <= j < bodies.len() ==> g * (#[trigger] bodies[j]).mass <= MASS_LIMIT
}

/// All four stages and every final state stay in range.
pub open spec fn stages_ok(bodies: Seq<Body>, dt: int, g: int) -> bool {
    &&& stage_ok(bodies, at_rest(bodies.len()), 0, g)
    &&& stage_ok(bodies, k1(bodies, dt, g), dt, g)
    &&& stage_ok(bodies, k2(bodies, dt, g), dt, g)
    &&& stage_ok(bodies, k3(bodies, dt, g), 2 * dt, g)
    &&& forall|i: int| 0 <= i < bodies.len() ==> (#[trigger] stepped(bodies, dt, g, i)).in_range()
}

/// The step is defined: no body is too heavy for the gravitational constant,
/// and everything stays in range.
pub open spec fn step_ok(bodies: Seq<Body>, dt: int, g: int) -> bool {
    light_enough(bodies, g) && stages_ok(bodies, dt, g)
}

/// `after` is `before` moved to the state `m`: mass and spin are kept.
pub open spec fn moved(before: Body, m: Motion, after: Body) -> bool {
    &&& state_of(after) == m
    &&& after.mass == before.mass
    &&& after.angular_vel == before.angular_vel
}

/// Why a step was not taken.
#[derive(Clone, Copy, Debug, PartialEq, Eq, Structural)]
pub enum StepError {
    /// The gravitational constant times the mass of some body exceeds the mass
    /// limit.
    TooHeavy,
    /// A trial state, an acceleration or a final state left the coordinate range.
    OutOfRange,
}

/// Per body, the rate of the current stage and the sum of the rates so far,
/// each with its weight.
#[derive(Clone, Copy, Debug)]
struct Solution {
    k: (Vec3, Vec3),
    sum: (Moment, Moment),
}

/// A pair of vectors read as a motion.
spec fn motion_of(y: (Vec3, Vec3)) -> Motion {
    Motion { pos: y.0@, vel: y.1@ }
}

/// The motions of a sequence of pairs.
spec fn motions(y: Seq<(Vec3, Vec3)>) -> Seq<Motion> {
    Seq::new(y.len(), |i: int| motion_of(y[i]))
}

/// The rates held in a sequence of solutions.
spec fn rates(s: Seq<Solution>) -> Seq<Motion> {
    Seq::new(s.len(), |i: int| motion_of(s[i].k))
}

/// The weighted sum held in a solution.
spec fn sum_of(s: Solution) -> Motion {
    Motion { pos: s.sum.0@, vel: s.sum.1@ }
}

/// `c` as a coordinate, if it is in the coordinate range.
fn narrow(c: i128) -> (r: Option<i64>)
    ensures
        match r {
            Some(v) => v == c && -COORD_LIMIT <= v < COORD_LIMIT,
            None => !(-COORD_LIMIT <= c < COORD_LIMIT),
        },
{
    if -(COORD_LIMIT as i128) <= c && c < COORD_LIMIT as i128 {
        Some(c as i64)
    } else {
        None
    }
}

/// `base + twice * rate / 2` on one axis, if that is in the coordinate range.
fn advance_axis(base: i64, rate: i64, twice: u128) -> (r: Option<i64>)
    requires
        -COORD_LIMIT <= base < COORD_LIMIT,
        -COORD_LIMIT <= rate < COORD_LIMIT,
        twice <= 2 * u64::MAX,
    ensures
        match r {
            Some(v) => v == base + trunc_div(twice * rate, 2) && -COORD_LIMIT <= v
                < COORD_LIMIT,
            None => !(-COORD_LIMIT <= base + trunc_div(twice * rate, 2)
                < COORD_LIMIT),
        },
{
    assert(-0x2_0000_0000_0000_0000 * 0x100_0000_0000 <= twice * rate <= 0x2_0000_0000_0000_0000
        * 0x100_0000_0000) by (nonlinear_arith)
        requires
            0 <= twice < 0x2_0000_0000_0000_0000,
            -0x100_0000_0000 <= rate < 0x100_0000_0000,
    ;
    let product = (twice as i128) * (rate as i128);
    let half = div_toward_zero(product, 2);
    assert(-0x2_0000_0000_0000_0000 * 0x100_0000_0000 <= half <= 0x2_0000_0000_0000_0000
        * 0x100_0000_0000);
    narrow(base as i128 + half)
}

/// `base + twice * rate / 2`, if that is in the coordinate range.
fn advance(base: Vec3, rate: Vec3, twice: u128) -> (r: Option<Vec3>)
    requires
        base@.in_range(),
        rate@.in_range(),
        twice <= 2 * u64::MAX,
    ensures
        match r {
            Some(v) => v@ == base@.plus(rate@.scaled(twice as int).divided(2)) && v@.in_range(),
            None => !base@.plus(rate@.scaled(twice as int).divided(2)).in_range(),
        },
{
    let Some(x) = advance_axis(base.x, rate.x, twice) else {
        return None;
    };
    let Some(y) = advance_axis(base.y, rate.y, twice) else {
        return None;
    };
    let Some(z) = advance_axis(base.z, rate.z, twice) else {
        return None;
    };
    Some(Vec3 { x, y, z })
}

/// `sum + weight * k`, for a weight of 1 or 2 and a sum that has room left.
fn accumulate(sum: Moment, weight: u64, k: Vec3, Ghost(budget): Ghost<int>) -> (r: Moment)
    requires
        weight <= 2,
        0 <= budget <= 5 * COORD_LIMIT,
        sum@.within(budget),
        k@.in_range(),
    ensures
        r@ == sum@.plus(k@.scaled(weight as int)),
        r@.within(budget + weight * COORD_LIMIT),
{
    proof {
        lemma_weighted(weight as int, k.x as int);
        lemma_weighted(weight as int, k.y as int);
        lemma_weighted(weight as int, k.z as int);
    }
    let w = weight as i128;
    Moment {
        x: sum.x + w * (k.x as i128),
        y: sum.y + w * (k.y as i128),
        z: sum.z + w * (k.z as i128),
    }
}

/// A coordinate with a weight of at most 2 stays within the weight times the
/// coordinate limit.
proof fn lemma_weighted(w: int, c: int)
    requires
        0 <= w <= 2,
        -COORD_LIMIT <= c < COORD_LIMIT,
    ensures
        -(w * COORD_LIMIT) <= w * c <= w * COORD_LIMIT,
        w * COORD_LIMIT <= 2 * COORD_LIMIT,
{
    assert(-(w * COORD_LIMIT) <= w * c <= w * COORD_LIMIT && w * COORD_LIMIT <= 2 * COORD_LIMIT)
        by (nonlinear_arith)
        requires
            0 <= w <= 2,
            -COORD_LIMIT <= c < COORD_LIMIT,
            COORD_LIMIT > 0,
    ;
}

/// The acceleration of body `i` in the states `y_vec`, if it is in the coordinate
/// range: the pull of every body.
fn accelerate(store: &BodyStore, y_vec: &Vec<(Vec3, Vec3)>, i: usize, g: u64) -> (r: Option<Vec3>)
    requires
        store.wf(),
        light_enough(store@, g as int),
        y_vec.len() == store@.len(),
        i < y_vec.len(),
        forall|j: int| 0 <= j < y_vec.len() ==> (#[trigger] y_vec[j]).0@.in_range(),
    ensures
        match r {
            Some(a) => a@ == pull_sum(
                store@,
                motions(y_vec@),
                g as int,
                i as int,
                store@.len() as int,
            ) && a@.in_range(),
            None => !pull_sum(
                store@,
                motions(y_vec@),
                g as int,
                i as int,
                store@.len() as int,
            ).in_range(),
        },
{
    let n = store.len();
    let this_y = y_vec[i];
    let ghost y = motions(y_vec@);
    let mut acc = Moment { x: 0, y: 0, z: 0 };
    let mut j: usize = 0;
    while j < n
        invariant
            store.wf(),
            light_enough(store@, g as int),
            n == store@.len(),
            n == y_vec.len(),
            i < n,
            j <= n,
            this_y == y_vec[i as int],
            y == motions(y_vec@),
            forall|j: int| 0 <= j < y_vec.len() ==> (#[trigger] y_vec[j]).0@.in_range(),
            acc@ == pull_sum(store@, y, g as int, i as int, j as int),
            acc@.within(j * MASS_LIMIT),
        decreases n - j,
    {
        let Some(body) = store.get(Entity(j)) else {
            return None;
        };
        let other_y = y_vec[j];
        assert(other_y.0@.in_range());
        assert(this_y.0@.in_range());
        proof {
            assert(g * store@[j as int].mass <= MASS_LIMIT);
            assert(0 <= g * body.mass) by (nonlinear_arith)
                requires
                    g >= 0,
                    body.mass >= 0,
            ;
        }
        let gm = ((g as u128) * (body.mass as u128)) as u64;
        let a = attraction(gm, this_y.0, other_y.0);
        proof {
            assert(y[j as int].pos == other_y.0@);
            assert(y[i as int].pos == this_y.0@);
            assert((j + 1) * MASS_LIMIT == j * MASS_LIMIT + MASS_LIMIT) by (nonlinear_arith);
            assert(j * MASS_LIMIT <= 0x1_0000_0000_0000_0000 * 0x4000_0000_0000_0000)
                by (nonlinear_arith)
                requires
                    0 <= j < 0x1_0000_0000_0000_0000,
                    MASS_LIMIT == 0x4000_0000_0000_0000,
            ;
        }
        acc = Moment { x: acc.x + a.x, y: acc.y + a.y, z: acc.z + a.z };
        j = j + 1;
    }
    let Some(x) = narrow(acc.x) else {
        return None;
    };
    let Some(y) = narrow(acc.y) else {
        return None;
    };
    let Some(z) = narrow(acc.z) else {
        return None;
    };
    Some(Vec3 { x, y, z })
}

/// Runs one stage: fills `y_vec` with the trial states, `twice / 2` ticks on
/// from the start, replaces every rate in `soln_vec` by the rate in those
/// states and adds `weight` times it to the sum. Returns whether the stage
/// stayed in range; if not, the vectors hold nothing of use.
fn bodies_solve(
    store: &BodyStore,
    y_vec: &mut Vec<(Vec3, Vec3)>,
    soln_vec: &mut Vec<Solution>,
    weight: u64,
    twice: u128,
    g: u64,
    Ghost(budget): Ghost<int>,
) -> (ok: bool)
    requires
        store.wf(),
        light_enough(store@, g as int),
        old(y_vec).len() == store@.len(),
        old(soln_vec).len() == store@.len(),
        weight <= 2,
        twice <= 2 * u64::MAX,
        0 <= budget <= 5 * COORD_LIMIT,
        forall|i: int|
            0 <= i < old(soln_vec).len() ==> motion_of((#[trigger] old(soln_vec)[i]).k).in_range()
                && sum_of(old(soln_vec)[i]).pos.within(budget) && sum_of(
                old(soln_vec)[i],
            ).vel.within(budget),
    ensures
        ok == stage_ok(store@, rates(old(soln_vec)@), twice as int, g as int),
        ok ==> {
            &&& final(y_vec).len() == store@.len()
            &&& final(soln_vec).len() == store@.len()
            &&& rates(final(soln_vec)@) == stage(
                store@,
                rates(old(soln_vec)@),
                twice as int,
                g as int,
            )
            &&& forall|i: int|
                0 <= i < final(soln_vec).len() ==> {
                    &&& motion_of((#[trigger] final(soln_vec)[i]).k).in_range()
                    &&& sum_of(final(soln_vec)[i]) == sum_of(old(soln_vec)[i]).plus(
                        motion_of(final(soln_vec)[i].k).scaled(weight as int),
                    )
                    &&& sum_of(final(soln_vec)[i]).pos.within(budget + weight * COORD_LIMIT)
                    &&& sum_of(final(soln_vec)[i]).vel.within(budget + weight * COORD_LIMIT)
                }
        },
{
    let n = store.len();
    let ghost bodies = store@;
    let ghost k = rates(soln_vec@);
    let ghost kc = twice as int;
    let mut i: usize = 0;
    while i < n
        invariant
            store.wf(),
            bodies == store@,
            n == bodies.len(),
            y_vec.len() == n,
            *soln_vec == *old(soln_vec),
            soln_vec.len() == n,
            k == rates(soln_vec@),
            kc == twice as int,
            twice <= 2 * u64::MAX,
            i <= n,
            forall|j: int|
                0 <= j < soln_vec.len() ==> motion_of((#[trigger] soln_vec[j]).k).in_range(),
            forall|j: int|
                0 <= j < i ==> motion_of(#[trigger] y_vec[j]) == trial_at(bodies, k, kc, j)
                    && motion_of(y_vec[j]).in_range(),
        decreases n - i,
    {
        let Some(body) = store.get(Entity(i)) else {
            return false;
        };
        let soln = soln_vec[i];
        assert(bodies[i as int].valid());
        assert(k[i as int] == motion_of(soln.k));
        let Some(p) = advance(body.position, soln.k.0, twice) else {
            assert(!trial_at(bodies, k, kc, i as int).in_range());
            return false;
        };
        let Some(v) = advance(body.vel, soln.k.1, twice) else {
            assert(!trial_at(bodies, k, kc, i as int).in_range());
            return false;
        };
        y_vec[i] = (p, v);
        i = i + 1;
    }
    let ghost y = trial(bodies, k, kc);
    assert forall|j: int| 0 <= j < n implies (#[trigger] trial_at(bodies, k, kc, j)).in_range()
        && motion_of(y_vec[j]) == trial_at(bodies, k, kc, j) by {
        assert(motion_of(y_vec[j]).in_range());
    }
    assert(motions(y_vec@) =~= y);
    let mut i: usize = 0;
    while i < n
        invariant
            store.wf(),
            light_enough(store@, g as int),
            bodies == store@,
            n == bodies.len(),
            y_vec.len() == n,
            soln_vec.len() == n,
            old(soln_vec).len() == n,
            k == rates(old(soln_vec)@),
            kc == twice as int,
            y == trial(bodies, k, kc),
            motions(y_vec@) == y,
            i <= n,
            weight <= 2,
            0 <= budget <= 5 * COORD_LIMIT,
            forall|j: int|
                0 <= j < n ==> (#[trigger] trial_at(bodies, k, kc, j)).in_range() && motion_of(
                    y_vec[j],
                ) == trial_at(bodies, k, kc, j),
            forall|j: int| i <= j < n ==> (#[trigger] soln_vec[j]) == old(soln_vec)[j],
            forall|j: int|
                0 <= j < old(soln_vec).len() ==> sum_of(#[trigger] old(soln_vec)[j]).pos.within(
                    budget,
                ) && sum_of(old(soln_vec)[j]).vel.within(budget),
            forall|j: int|
                0 <= j < i ==> {
                    &&& motion_of((#[trigger] soln_vec[j]).k) == slope(bodies, y, g as int, j)
                    &&& motion_of(soln_vec[j].k).in_range()
                    &&& sum_of(soln_vec[j]) == sum_of(old(soln_vec)[j]).plus(
                        motion_of(soln_vec[j].k).scaled(weight as int),
                    )
                    &&& sum_of(soln_vec[j]).pos.within(budget + weight * COORD_LIMIT)
                    &&& sum_of(soln_vec[j]).vel.within(budget + weight * COORD_LIMIT)
                },
        decreases n - i,
    {
        let this_y = y_vec[i];
        assert(trial_at(bodies, k, kc, i as int).in_range());
        assert forall|j: int| 0 <= j < y_vec.len() implies (#[trigger] y_vec[j]).0@.in_range() by {
            assert(trial_at(bodies, k, kc, j).in_range());
        }
        let Some(acceleration) = accelerate(store, y_vec, i, g) else {
            assert(!slope(bodies, trial(bodies, k, kc), g as int, i as int).vel.in_range());
            return false;
        };
        let soln = soln_vec[i];
        assert(soln == old(soln_vec)[i as int]);
        let rate = (this_y.1, acceleration);
        soln_vec[i] = Solution {
            k: rate,
            sum: (
                accumulate(soln.sum.0, weight, rate.0, Ghost(budget)),
                accumulate(soln.sum.1, weight, rate.1, Ghost(budget)),
            ),
        };
        i = i + 1;
    }
    assert(rates(soln_vec@) =~= stage(bodies, k, kc, g as int));
    assert forall|j: int| 0 <= j < bodies.len() implies (#[trigger] trial_at(
        bodies,
        k,
        kc,
        j,
    )).in_range() && slope(bodies, trial(bodies, k, kc), g as int, j).vel.in_range() by {
        assert(motion_of(soln_vec[j].k).in_range());
    }
    true
}

/// `base + dt * sum / 6` on one axis, if that is in the coordinate range.
fn shift_axis(base: i64, sum: i128, dt: u64) -> (r: Option<i64>)
    requires
        -6 * COORD_LIMIT <= sum <= 6 * COORD_LIMIT,
    ensures
        match r {
            Some(v) => v == base + trunc_div(dt * sum, 6) && -COORD_LIMIT <= v
                < COORD_LIMIT,
            None => !(-COORD_LIMIT <= base + trunc_div(dt * sum, 6) < COORD_LIMIT),
        },
{
    assert(-0x1_0000_0000_0000_0000 * 0x600_0000_0000 <= dt * sum <= 0x1_0000_0000_0000_0000
        * 0x600_0000_0000) by (nonlinear_arith)
        requires
            0 <= dt < 0x1_0000_0000_0000_0000,
            -0x600_0000_0000 <= sum <= 0x600_0000_0000,
    ;
    let product = (dt as i128) * sum;
    let delta = div_toward_zero(product, 6);
    assert(-0x1_0000_0000_0000_0000 * 0x600_0000_0000 <= delta <= 0x1_0000_0000_0000_0000
        * 0x600_0000_0000);
    narrow(base as i128 + delta)
}

/// `base + dt * sum / 6`, if that is in the coordinate range.
fn shift(base: Vec3, sum: Moment, dt: u64) -> (r: Option<Vec3>)
    requires
        sum@.within(6 * COORD_LIMIT),
    ensures
        match r {
            Some(v) => v@ == base@.plus(sum@.scaled(dt as int).divided(6)) && v@.in_range(),
            None => !base@.plus(sum@.scaled(dt as int).divided(6)).in_range(),
        },
{
    let Some(x) = shift_axis(base.x, sum.x, dt) else {
        return None;
    };
    let Some(y) = shift_axis(base.y, sum.y, dt) else {
        return None;
    };
    let Some(z) = shift_axis(base.z, sum.z, dt) else {
        return None;
    };
    Some(Vec3 { x, y, z })
}

/// Tells whether `g` times the mass of every body is within the mass limit.
fn check_weights(store: &BodyStore, g: u64) -> (ok: bool)
    requires
        store.wf(),
    ensures
        ok == light_enough(store@, g as int),
{
    let n = store.len();
    let mut j: usize = 0;
    while j < n
        invariant
            n == store@.len(),
            j <= n,
            forall|i: int| 0 <= i < j ==> g * (#[trigger] store@[i]).mass <= MASS_LIMIT,
        decreases n - j,
    {
        let Some(body) = store.get(Entity(j)) else {
            return false;
        };
        assert(0 <= g * body.mass <= 0xffff_ffff_ffff_ffff * 0xffff_ffff_ffff_ffff)
            by (nonlinear_arith)
            requires
                0 <= g <= 0xffff_ffff_ffff_ffff,
                0 <= body.mass <= 0xffff_ffff_ffff_ffff,
        ;
        if (g as u128) * (body.mass as u128) > MASS_LIMIT as u128 {
            assert(g * store@[j as int].mass > MASS_LIMIT);
            return false;
        }
        j = j + 1;
    }
    true
}

/// Advances every body by one step of length `dt` under gravity of constant `g`.
///
/// The step is the classical fourth-order Runge-Kutta step `y + dt / 6 * (k1 +
/// 2 k2 + 2 k3 + k4)`: four stages, each evaluating the rates of all bodies at
/// once in trial states offset from the start of the tick by `0`, `dt / 2`,
/// `dt / 2` and `dt` times the rates of the stage before. Every product is
/// taken in full and divided once, rounding toward zero. No body moves before
/// all stages are complete. Where the gravitational constant times a mass
/// exceeds the mass limit, or a stage or a final state leaves the coordinate
/// range, no body moves at all and the step says which.
pub fn update_bodies(store: &mut BodyStore, dt: u64, g: u64) -> (res: Result<(), StepError>)
    requires
        old(store).wf(),
    ensures
        final(store).wf(),
        res is Ok <==> step_ok(old(store)@, dt as int, g as int),
        res == Err::<(), StepError>(StepError::TooHeavy) <==> !light_enough(
            old(store)@,
            g as int,
        ),
        res == Err::<(), StepError>(StepError::OutOfRange) <==> light_enough(
            old(store)@,
            g as int,
        ) && !stages_ok(old(store)@, dt as int, g as int),
        res is Ok ==> final(store)@.len() == old(store)@.len() && forall|i: int|
            0 <= i < old(store)@.len() ==> moved(
                old(store)@[i],
                stepped(old(store)@, dt as int, g as int, i),
                #[trigger] final(store)@[i],
            ),
        res is Err ==> final(store)@ == old(store)@,
{
    let ghost bodies = store@;
    let ghost (t, c) = (dt as int, g as int);
    if !check_weights(store, g) {
        return Err(StepError::TooHeavy);
    }
    let nbodies = store.len();
    let mut y_vec: Vec<(Vec3, Vec3)> = Vec::new();
    let mut soln_vec: Vec<Solution> = Vec::new();
    let zero = Vec3 { x: 0, y: 0, z: 0 };
    let none = Moment { x: 0, y: 0, z: 0 };
    let mut i: usize = 0;
    while i < nbodies
        invariant
            i <= nbodies,
            y_vec.len() == i,
            soln_vec.len() == i,
            zero@ == Point::zero(),
            none@ == Point::zero(),
            forall|j: int|
                0 <= j < i ==> (#[trigger] soln_vec[j]).k == (zero, zero) && soln_vec[j].sum == (
                    none,
                    none,
                ),
        decreases nbodies - i,
    {
        y_vec.push((zero, zero));
        soln_vec.push(Solution { k: (zero, zero), sum: (none, none) });
        i = i + 1;
    }
    assert(rates(soln_vec@) =~= at_rest(bodies.len()));
    let half = dt as u128;
    let whole = 2 * (dt as u128);

    if !bodies_solve(store, &mut y_vec, &mut soln_vec, 1, 0, g, Ghost(0)) {
        return Err(StepError::OutOfRange);
    }
    let ghost first = soln_vec@;
    if !bodies_solve(store, &mut y_vec, &mut soln_vec, 2, half, g, Ghost(COORD_LIMIT as int)) {
        return Err(StepError::OutOfRange);
    }
    let ghost second = soln_vec@;
    if !bodies_solve(store, &mut y_vec, &mut soln_vec, 2, half, g, Ghost(3 * COORD_LIMIT)) {
        return Err(StepError::OutOfRange);
    }
    let ghost third = soln_vec@;
    if !bodies_solve(store, &mut y_vec, &mut soln_vec, 1, whole, g, Ghost(5 * COORD_LIMIT)) {
        return Err(StepError::OutOfRange);
    }
    assert forall|j: int| 0 <= j < nbodies implies sum_of(#[trigger] soln_vec[j]) == rate_sum(
        bodies,
        t,
        c,
        j,
    ) by {
        assert(rates(first)[j] == motion_of(first[j].k));
        assert(rates(second)[j] == motion_of(second[j].k));
        assert(rates(third)[j] == motion_of(third[j].k));
        assert(rates(soln_vec@)[j] == motion_of(soln_vec[j].k));
        assert(sum_of(first[j]) == Motion::rest().plus(motion_of(first[j].k).scaled(1)));
    }

    let mut next: Vec<(Vec3, Vec3)> = Vec::new();
    let mut i: usize = 0;
    while i < nbodies
        invariant
            store.wf(),
            light_enough(bodies, c),
            bodies == store@,
            bodies == old(store)@,
            t == dt as int,
            c == g as int,
            nbodies == bodies.len(),
            soln_vec.len() == nbodies,
            i <= nbodies,
            next.len() == i,
            stage_ok(bodies, at_rest(bodies.len()), 0, c),
            stage_ok(bodies, k1(bodies, t, c), t, c),
            stage_ok(bodies, k2(bodies, t, c), t, c),
            stage_ok(bodies, k3(bodies, t, c), 2 * t, c),
            forall|j: int|
                0 <= j < nbodies ==> sum_of(#[trigger] soln_vec[j]) == rate_sum(bodies, t, c, j)
                    && sum_of(soln_vec[j]).pos.within(6 * COORD_LIMIT) && sum_of(
                    soln_vec[j],
                ).vel.within(6 * COORD_LIMIT),
            forall|j: int|
                0 <= j < i ==> motion_of(#[trigger] next[j]) == stepped(bodies, t, c, j)
                    && motion_of(next[j]).in_range(),
        decreases nbodies - i,
    {
        let Some(body) = store.get(Entity(i)) else {
            return Err(StepError::OutOfRange);
        };
        let soln = soln_vec[i];
        let Some(p) = shift(body.position, soln.sum.0, dt) else {
            assert(!stepped(bodies, t, c, i as int).in_range());
            return Err(StepError::OutOfRange);
        };
        let Some(v) = shift(body.vel, soln.sum.1, dt) else {
            assert(!stepped(bodies, t, c, i as int).in_range());
            return Err(StepError::OutOfRange);
        };
        next.push((p, v));
        i = i + 1;
    }
    assert forall|j: int| 0 <= j < bodies.len() implies (#[trigger] stepped(
        bodies,
        t,
        c,
        j,
    )).in_range() by {
        assert(motion_of(next[j]).in_range());
    }

    let mut i: usize = 0;
    while i < nbodies
        invariant
            store.wf(),
            nbodies == bodies.len(),
            store@.len() == nbodies,
            next.len() == nbodies,
            i <= nbodies,
            forall|j: int|
                0 <= j < nbodies ==> motion_of(#[trigger] next[j]) == stepped(bodies, t, c, j)
                    && motion_of(next[j]).in_range(),
            forall|j: int| 0 <= j < i ==> moved(bodies[j], stepped(bodies, t, c, j), #[trigger] store@[j]),
            forall|j: int| i <= j < nbodies ==> #[trigger] store@[j] == bodies[j],
        decreases nbodies - i,
    {
        let y = next[i];
        assert(motion_of(y).in_range());
        store.set_motion(Entity(i), y.0, y.1);
        i = i + 1;
    }
    Ok(())
}

} // verus!
