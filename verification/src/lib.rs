//! Core of a scene-graph engine: a spatial world model whose entities carry
//! local transforms (position, rotation, scale) arranged in a parent-child
//! hierarchy, a consistency pass that completes partial transform data, and a
//! propagation engine that recomputes every entity's world-space transform
//! from its ancestor chain.

use vstd::prelude::*;

/// Bit-exact vector, quaternion and matrix values and their composition.
pub mod math;

/// The spatial components: local transform data and the world transform.
pub mod transform;

/// The application shell: schedules, plugins, runner.
pub mod app;

/// Events carried by entities.
pub mod event;

/// GPU configuration and error data.
pub mod gpu;

/// Wall-clock tracking.
pub mod time;

/// Attach, detach and the sibling accessors.
pub mod hierarchy;

/// The guarantees the propagation engine gives.
pub mod laws;

/// The consistency pass and the propagation engine.
pub mod propagate;

/// Window configuration data.
pub mod window;

/// The entity store and its hierarchy.
pub mod world;

/// The commonly used types and passes, re-exported in one place.
pub mod prelude;

verus! {

/// A handle addressing one object held by a [`world::World`].
#[derive(Clone, Copy, PartialEq, Eq, Structural, Debug, Hash)]
pub struct Entity {
    /// The slot index the entity occupies in its world.
    pub id: usize,
}

} // verus!
