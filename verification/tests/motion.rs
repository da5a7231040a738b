use nbody::body::{Body, BodyStore, Entity, MASS_LIMIT};
use nbody::gravity::{attraction, sqrt_floor};
use nbody::integrator::{update_bodies, StepError};
use nbody::vec3::{Moment, Vec3, COORD_LIMIT};

fn body(position: (i64, i64, i64), vel: (i64, i64, i64), mass: u64) -> Body {
    Body {
        position: Vec3::new(position.0, position.1, position.2),
        vel: Vec3::new(vel.0, vel.1, vel.2),
        mass,
        angular_vel: Vec3::new(0, 0, 0),
    }
}

fn store_of(bodies: &[Body]) -> BodyStore {
    let mut store = BodyStore::new();
    for b in bodies {
        store.spawn(*b).unwrap();
    }
    store
}

fn state(store: &BodyStore, i: usize) -> (Vec3, Vec3) {
    let b = store.get(Entity(i)).unwrap();
    (b.position, b.vel)
}

#[test]
fn integer_square_roots() {
    assert_eq!(sqrt_floor(0), 0);
    assert_eq!(sqrt_floor(1), 1);
    assert_eq!(sqrt_floor(3), 1);
    assert_eq!(sqrt_floor(4), 2);
    assert_eq!(sqrt_floor(24), 4);
    assert_eq!(sqrt_floor(25), 5);
    assert_eq!(sqrt_floor(1 << 84), 1 << 42);
    assert_eq!(sqrt_floor((1 << 84) - 1), (1 << 42) - 1);
    assert_eq!(sqrt_floor(u128::MAX), u64::MAX);
}

#[test]
fn pull_follows_the_inverse_square() {
    let origin = Vec3::new(0, 0, 0);
    // distance 5, so 1000 * (3, 4, 0) / 125
    assert_eq!(attraction(1000, origin, Vec3::new(3, 4, 0)), Moment::new(24, 32, 0));
    assert_eq!(attraction(1000, origin, Vec3::new(-3, -4, 0)), Moment::new(-24, -32, 0));
    assert_eq!(attraction(1000, Vec3::new(3, 4, 0), origin), Moment::new(-24, -32, 0));
    assert_eq!(attraction(125, Vec3::new(7, 7, 7), Vec3::new(7, 7, 12)), Moment::new(0, 0, 5));
    // quotients round toward zero, on either side: 999 / 27 = 37, 620 / 125 = 4.96
    assert_eq!(attraction(333, origin, Vec3::new(3, 0, 0)), Moment::new(37, 0, 0));
    assert_eq!(attraction(124, origin, Vec3::new(0, 0, -5)), Moment::new(0, 0, -4));
    assert_eq!(attraction(124, origin, Vec3::new(0, 0, 5)), Moment::new(0, 0, 4));
    assert_eq!(attraction(7, origin, Vec3::new(1, 0, 0)), Moment::new(7, 0, 0));
}

#[test]
fn pull_takes_the_distance_finely() {
    let origin = Vec3::new(0, 0, 0);
    // distance sqrt(3), so 1000000 / (3 * 1.7320508) = 192450.08
    assert_eq!(
        attraction(1000000, origin, Vec3::new(1, 1, 1)),
        Moment::new(192450, 192450, 192450)
    );
    assert_eq!(
        attraction(1000000, origin, Vec3::new(-1, 1, -1)),
        Moment::new(-192450, 192450, -192450)
    );
}

#[test]
fn a_body_does_not_pull_on_itself() {
    let p = Vec3::new(12, -7, 3);
    assert_eq!(attraction(u64::MAX, p, p), Moment::new(0, 0, 0));
}

#[test]
fn a_lone_body_at_rest_stays() {
    let mut store = store_of(&[body((12, -7, 3), (0, 0, 0), 1 << 40)]);
    assert_eq!(update_bodies(&mut store, 60, 1000), Ok(()));
    assert_eq!(state(&store, 0), (Vec3::new(12, -7, 3), Vec3::new(0, 0, 0)));
}

#[test]
fn a_lone_body_keeps_its_velocity() {
    let mut store = store_of(&[body((12, -7, 3), (1, 2, -3), 5)]);
    assert_eq!(update_bodies(&mut store, 6, 1), Ok(()));
    assert_eq!(state(&store, 0), (Vec3::new(18, 5, -15), Vec3::new(1, 2, -3)));
}

#[test]
fn a_free_body_moves_by_velocity_times_time() {
    for dt in [0, 1, 2, 3, 4, 5, 6, 7, 11, 12, 1000] {
        let mut store = store_of(&[body((0, 0, 0), (10, -3, 7), 1)]);
        assert_eq!(update_bodies(&mut store, dt, 1), Ok(()));
        let t = dt as i64;
        assert_eq!(state(&store, 0), (Vec3::new(10 * t, -3 * t, 7 * t), Vec3::new(10, -3, 7)));
    }
}

#[test]
fn a_step_need_not_be_a_multiple_of_six() {
    let mut store = store_of(&[
        body((512, 0, 0), (0, 0, 0), 4194304),
        body((-512, 0, 0), (0, 0, 0), 4194304),
    ]);
    assert_eq!(update_bodies(&mut store, 7, 1), Ok(()));
    // accelerations 4, 4, 4 and 6, velocities 0, 14, 14 and 28:
    // 7 * (0 + 28 + 28 + 28) / 6 = 98, 7 * (4 + 8 + 8 + 6) / 6 = 30.3
    assert_eq!(state(&store, 0), (Vec3::new(414, 0, 0), Vec3::new(-30, 0, 0)));
    assert_eq!(state(&store, 1), (Vec3::new(-414, 0, 0), Vec3::new(30, 0, 0)));
}

#[test]
fn equal_masses_fall_toward_each_other() {
    let mut store = store_of(&[
        body((512, 0, 0), (0, 0, 0), 4194304),
        body((-512, 0, 0), (0, 0, 0), 4194304),
    ]);
    assert_eq!(update_bodies(&mut store, 6, 1), Ok(()));
    // the four stages find accelerations 4, 4, 4 and 5 and velocities 0, 12, 12 and 24
    assert_eq!(state(&store, 0), (Vec3::new(440, 0, 0), Vec3::new(-25, 0, 0)));
    assert_eq!(state(&store, 1), (Vec3::new(-440, 0, 0), Vec3::new(25, 0, 0)));
}

#[test]
fn the_gravitational_constant_scales_the_pull() {
    let mut store = store_of(&[
        body((512, 0, 0), (0, 0, 0), 4194304),
        body((-512, 0, 0), (0, 0, 0), 4194304),
    ]);
    assert_eq!(update_bodies(&mut store, 6, 3), Ok(()));
    // accelerations 12, 12, 19 and 35
    assert_eq!(state(&store, 0), (Vec3::new(254, 0, 0), Vec3::new(-109, 0, 0)));
    assert_eq!(state(&store, 1), (Vec3::new(-254, 0, 0), Vec3::new(109, 0, 0)));
}

#[test]
fn without_gravity_bodies_drift() {
    let mut store = store_of(&[
        body((512, 0, 0), (1, 0, 0), 4194304),
        body((-512, 0, 0), (0, -1, 0), 4194304),
    ]);
    assert_eq!(update_bodies(&mut store, 12, 0), Ok(()));
    assert_eq!(state(&store, 0), (Vec3::new(524, 0, 0), Vec3::new(1, 0, 0)));
    assert_eq!(state(&store, 1), (Vec3::new(-512, -12, 0), Vec3::new(0, -1, 0)));
}

#[test]
fn three_bodies_take_one_step() {
    let mut store = store_of(&[
        body((100, 200, -300), (1, -2, 3), 1000000),
        body((-50, 20, 30), (0, 5, 0), 3000000),
        body((0, 0, 0), (0, 0, -1), 500000),
    ]);
    assert_eq!(update_bodies(&mut store, 12, 2), Ok(()));
    assert_eq!(state(&store, 0), (Vec3::new(-680, -736, 1536), Vec3::new(-103, -116, 235)));
    assert_eq!(state(&store, 1), (Vec3::new(7678, -4120, -5250), Vec3::new(854, -535, -606)));
    assert_eq!(state(&store, 2), (Vec3::new(-44952, 27048, 28236), Vec3::new(-4938, 3470, 3193)));
    assert_eq!(store.get(Entity(1)).unwrap().mass, 3000000);
}

#[test]
fn three_bodies_take_a_step_of_five_ticks() {
    let mut store = store_of(&[
        body((100, 200, -300), (1, -2, 3), 1000000),
        body((-50, 20, 30), (0, 5, 0), 3000000),
        body((0, 0, 0), (0, 0, -1), 500000),
    ]);
    assert_eq!(update_bodies(&mut store, 5, 2), Ok(()));
    assert_eq!(state(&store, 0), (Vec3::new(-19, 29, 5), Vec3::new(-37, -51, 91)));
    assert_eq!(state(&store, 1), (Vec3::new(1553, -700, -1015), Vec3::new(460, -226, -304)));
    assert_eq!(state(&store, 2), (Vec3::new(-9378, 4798, 5706), Vec3::new(-2687, 1487, 1653)));
}

#[test]
fn a_step_out_of_range_moves_nothing() {
    let bodies = [
        body((COORD_LIMIT - 10, 0, 0), (2, 0, 0), 1),
        body((0, 0, 0), (0, 1, 0), 1),
    ];
    let mut store = store_of(&bodies);
    // the last trial state is dt on: ten lattice units at dt = 5
    assert_eq!(update_bodies(&mut store, 6, 0), Err(StepError::OutOfRange));
    assert_eq!(store, store_of(&bodies));
    assert_eq!(update_bodies(&mut store, 5, 0), Err(StepError::OutOfRange));
    assert_eq!(store, store_of(&bodies));
    assert_eq!(update_bodies(&mut store, 4, 0), Ok(()));
    assert_eq!(state(&store, 0), (Vec3::new(COORD_LIMIT - 2, 0, 0), Vec3::new(2, 0, 0)));
    assert_eq!(state(&store, 1), (Vec3::new(0, 4, 0), Vec3::new(0, 1, 0)));
}

#[test]
fn a_body_too_heavy_for_the_constant_moves_nothing() {
    let bodies = [
        body((0, 0, 0), (1, 0, 0), MASS_LIMIT / 2 + 1),
        body((1 << 30, 0, 0), (0, 0, 0), 1),
    ];
    let mut store = store_of(&bodies);
    assert_eq!(update_bodies(&mut store, 6, 2), Err(StepError::TooHeavy));
    assert_eq!(update_bodies(&mut store, 6, u64::MAX), Err(StepError::TooHeavy));
    assert_eq!(store, store_of(&bodies));
    let mut light = store_of(&[body((0, 0, 0), (1, 0, 0), MASS_LIMIT / 2)]);
    assert_eq!(update_bodies(&mut light, 6, 2), Ok(()));
    assert_eq!(state(&light, 0), (Vec3::new(6, 0, 0), Vec3::new(1, 0, 0)));
}

#[test]
fn an_acceleration_out_of_range_moves_nothing() {
    let bodies = [body((0, 0, 0), (0, 0, 0), 1 << 50), body((1, 0, 0), (0, 0, 0), 1 << 50)];
    let mut store = store_of(&bodies);
    assert_eq!(update_bodies(&mut store, 6, 1), Err(StepError::OutOfRange));
    assert_eq!(store, store_of(&bodies));
}

#[test]
fn an_empty_store_steps() {
    let mut store = BodyStore::new();
    assert_eq!(update_bodies(&mut store, 6, 1), Ok(()));
    assert_eq!(store.len(), 0);
}

#[test]
fn rotation_is_spin_times_time() {
    let mut b = body((0, 0, 0), (0, 0, 0), 1);
    b.angular_vel = Vec3::new(3, -4, 0);
    assert_eq!(b.scaled_axis(6), Moment::new(18, -24, 0));
    b.angular_vel = Vec3::new(i64::MIN, i64::MAX, 1);
    assert_eq!(
        b.scaled_axis(u64::MAX),
        Moment::new(
            i64::MIN as i128 * u64::MAX as i128,
            i64::MAX as i128 * u64::MAX as i128,
            u64::MAX as i128
        )
    );
}
