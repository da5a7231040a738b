//! Exact-arithmetic core of a gravitational N-body simulation.
//!
//! Everything is computed on an integer lattice: positions, velocities and
//! masses are integers in units the caller chooses, so that every result is
//! exact and the same on every run.
//!
//! - [`body`]: the bodies and the store that owns them.
//! - [`octree`]: the spatial index, an octree that aggregates mass per cube, with
//!   its mathematical [`model`], the geometry of [`cube`]s, and the proofs of
//!   what [`descent`] and [`growth`] preserve and of the [`laws`] of whole trees.
//! - [`integrator`]: the fixed-step Runge-Kutta integrator under the [`gravity`]
//!   law, with the [`symmetry`] laws of a step.
//! - [`com`] and [`vec3`]: centre-of-mass accumulators and lattice vectors.

pub mod body;
pub mod com;
pub mod cube;
pub mod descent;
pub mod gravity;
pub mod growth;
pub mod integrator;
pub mod laws;
pub mod model;
pub mod octree;
pub mod symmetry;
pub mod vec3;
