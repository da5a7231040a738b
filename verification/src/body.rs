//! Bodies and the flat, order-stable store that owns them.

use vstd::prelude::*;
use crate::com::ComView;
use crate::vec3::{Moment, Point, Vec3};

verus! {

/// No body is heavier than this.
pub const MASS_LIMIT: u64 = 0x4000_0000_0000_0000;

/// One point mass of the simulation.
#[derive(Clone, Copy, Debug, PartialEq, Eq, Structural)]
pub struct Body {
    pub position: Vec3,
    pub vel: Vec3,
    pub mass: u64,
    pub angular_vel: Vec3,
}

/// Why a body was turned away.
#[derive(Clone, Copy, Debug, PartialEq, Eq, Structural)]
pub enum MalformedInput {
    /// The mass is zero or above the mass limit.
    Mass,
    /// A position component is outside the coordinate range.
    Position,
    /// A velocity component is outside the coordinate range.
    Velocity,
}

impl Body {
    /// A body the simulation accepts: positive mass up to the mass limit, position
    /// and velocity in range.
    pub open spec fn valid(self) -> bool {
        &&& 1 <= self.mass <= MASS_LIMIT
        &&& self.position@.in_range()
        &&& self.vel@.in_range()
    }

    /// What this body contributes to an aggregate.
    pub open spec fn point_mass(self) -> ComView {
        ComView::point_mass(self.position@, self.mass as int)
    }

    /// The first defect of the body, in the order mass, position, velocity; `None` if it is valid.
    pub open spec fn defect(self) -> Option<MalformedInput> {
        if self.mass == 0 || self.mass > MASS_LIMIT {
            Some(MalformedInput::Mass)
        } else if !self.position@.in_range() {
            Some(MalformedInput::Position)
        } else if !self.vel@.in_range() {
            Some(MalformedInput::Velocity)
        } else {
            None
        }
    }

    /// The body described by the given parts, where a missing part takes its
    /// default: mass 1, everything else zero.
    pub open spec fn assembled(
        mass: Option<u64>,
        position: Option<Vec3>,
        vel: Option<Vec3>,
        angular_vel: Option<Vec3>,
    ) -> Body {
        let zero = Vec3 { x: 0, y: 0, z: 0 };
        Body {
            position: if position is Some { position->0 } else { zero },
            vel: if vel is Some { vel->0 } else { zero },
            mass: if mass is Some { mass->0 } else { 1 },
            angular_vel: if angular_vel is Some { angular_vel->0 } else { zero },
        }
    }

    /// Assembles a body from the parts a description gives, with the defaults for
    /// those it leaves out, and checks it.
    pub fn with_defaults(
        mass: Option<u64>,
        position: Option<Vec3>,
        vel: Option<Vec3>,
        angular_vel: Option<Vec3>,
    ) -> (r: Result<Body, MalformedInput>)
        ensures
            match r {
                Ok(b) => b == Body::assembled(mass, position, vel, angular_vel) && b.valid(),
                Err(why) => Body::assembled(mass, position, vel, angular_vel).defect() == Some(why),
            },
    {
        let zero = Vec3 { x: 0, y: 0, z: 0 };
        let body = Body {
            position: match position {
                Some(p) => p,
                None => zero,
            },
            vel: match vel {
                Some(v) => v,
                None => zero,
            },
            mass: match mass {
                Some(m) => m,
                None => 1,
            },
            angular_vel: match angular_vel {
                Some(w) => w,
                None => zero,
            },
        };
        match body.validate() {
            Ok(()) => Ok(body),
            Err(why) => Err(why),
        }
    }

    /// The rotation of one step of length `dt` as a scaled axis: the angular
    /// velocity times `dt`.
    pub fn scaled_axis(&self, dt: u64) -> (axis: Moment)
        ensures
            axis@ == self.angular_vel@.scaled(dt as int),
    {
        let w = self.angular_vel;
        proof {
            lemma_product_fits(dt as int, w.x as int);
            lemma_product_fits(dt as int, w.y as int);
            lemma_product_fits(dt as int, w.z as int);
        }
        let t = dt as i128;
        Moment { x: t * (w.x as i128), y: t * (w.y as i128), z: t * (w.z as i128) }
    }

    /// Checks the body, reporting its first defect.
    pub fn validate(&self) -> (r: Result<(), MalformedInput>)
        ensures
            r is Ok <==> self.valid(),
            r matches Err(e) ==> self.defect() == Some(e),
    {
        if self.mass == 0 || self.mass > MASS_LIMIT {
            Err(MalformedInput::Mass)
        } else if !self.position.in_range() {
            Err(MalformedInput::Position)
        } else if !self.vel.in_range() {
            Err(MalformedInput::Velocity)
        } else {
            Ok(())
        }
    }
}

/// The product of a 64-bit unsigned and a 64-bit signed integer fits 128 bits.
proof fn lemma_product_fits(t: int, c: int)
    requires
        0 <= t <= u64::MAX,
        i64::MIN <= c <= i64::MAX,
    ensures
        i128::MIN <= t * c <= i128::MAX,
{
    assert(0xffff_ffff_ffff_ffff * -0x8000_0000_0000_0000 <= t * c <= 0xffff_ffff_ffff_ffff
        * 0x7fff_ffff_ffff_ffff) by (nonlinear_arith)
        requires
            0 <= t <= 0xffff_ffff_ffff_ffff,
            -0x8000_0000_0000_0000 <= c <= 0x7fff_ffff_ffff_ffff,
    ;
}

/// Handle of a body: its index in the store that spawned it.
#[derive(Clone, Copy, Debug, PartialEq, Eq, Structural)]
pub struct Entity(pub usize);

/// The handle names a body of `bodies`.
pub open spec fn live(bodies: Seq<Body>, e: Entity) -> bool {
    e.0 < bodies.len()
}

/// The body a live handle names.
pub open spec fn body_of(bodies: Seq<Body>, e: Entity) -> Body {
    bodies[e.0 as int]
}

/// The position of the body a live handle names.
pub open spec fn position_of(bodies: Seq<Body>, e: Entity) -> Point {
    bodies[e.0 as int].position@
}

/// Every body of the sequence is valid.
pub open spec fn all_valid(bodies: Seq<Body>) -> bool {
    forall|i: int| 0 <= i < bodies.len() ==> (#[trigger] bodies[i]).valid()
}

/// The bodies of one simulation, in spawn order. Handles stay stable: bodies are
/// never removed or reordered.
#[derive(Debug, PartialEq, Eq)]
pub struct BodyStore {
    bodies: Vec<Body>,
}

impl View for BodyStore {
    type V = Seq<Body>;

    closed spec fn view(&self) -> Seq<Body> {
        self.bodies@
    }
}

impl BodyStore {
    /// Every stored body is valid.
    pub open spec fn wf(&self) -> bool {
        all_valid(self@)
    }

    /// A store without bodies.
    pub fn new() -> (s: BodyStore)
        ensures
            s@ == Seq::<Body>::empty(),
            s.wf(),
    {
        BodyStore { bodies: Vec::new() }
    }

    /// The number of bodies.
    pub fn len(&self) -> (n: usize)
        ensures
            n == self@.len(),
    {
        self.bodies.len()
    }

    /// Appends a valid body and returns its handle; turns an invalid one away,
    /// leaving the store as it was.
    pub fn spawn(&mut self, body: Body) -> (r: Result<Entity, MalformedInput>)
        requires
            old(self).wf(),
        ensures
            final(self).wf(),
            match r {
                Ok(e) => body.valid() && e.0 == old(self)@.len() && final(self)@ == old(self)@.push(
                    body,
                ),
                Err(why) => body.defect() == Some(why) && final(self)@ == old(self)@,
            },
    {
        match body.validate() {
            Err(why) => Err(why),
            Ok(()) => {
                let e = Entity(self.bodies.len());
                self.bodies.push(body);
                Ok(e)
            },
        }
    }

    /// Moves a body: replaces its position and velocity, keeping the rest.
    pub(crate) fn set_motion(&mut self, e: Entity, position: Vec3, vel: Vec3)
        requires
            old(self).wf(),
            live(old(self)@, e),
            position@.in_range(),
            vel@.in_range(),
        ensures
            final(self).wf(),
            final(self)@ == old(self)@.update(
                e.0 as int,
                (Body { position, vel, ..body_of(old(self)@, e) }),
            ),
    {
        let body = self.bodies[e.0];
        self.bodies[e.0] = Body { position, vel, ..body };
    }

    /// The body behind a handle, or `None` for a handle this store never issued.
    pub fn get(&self, e: Entity) -> (r: Option<&Body>)
        ensures
            match r {
                Some(b) => live(self@, e) && *b == body_of(self@, e),
                None => !live(self@, e),
            },
    {
        if e.0 < self.bodies.len() {
            Some(&self.bodies[e.0])
        } else {
            None
        }
    }
}

} // verus!
