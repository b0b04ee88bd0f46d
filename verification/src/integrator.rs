//! The integrators that render auxiliary buffers for the denoiser.

use vstd::prelude::*;
use crate::material::MaterialStore;

verus! {

/// Renders the surface normal at the first hit of each ray in `world`.
pub struct NormalIntegrator<W> {
    world: W,
}

impl<W> NormalIntegrator<W> {
    pub fn new(world: W) -> (integrator: Self)
        ensures
            integrator.spec_world() == world,
    {
        NormalIntegrator { world }
    }

    pub closed spec fn spec_world(&self) -> W {
        self.world
    }

    /// The scene the rays are traced in.
    pub fn world(&self) -> (world: &W)
        ensures
            *world == self.spec_world(),
    {
        &self.world
    }
}

/// Renders the albedo of the material at the first hit of each ray in
/// `world`.
pub struct AlbedoIntegrator<W, M> {
    world: W,
    materials: MaterialStore<M>,
}

impl<W, M> AlbedoIntegrator<W, M> {
    pub fn new(world: W, materials: MaterialStore<M>) -> (integrator: Self)
        ensures
            integrator.spec_world() == world,
            integrator.spec_materials() == materials,
    {
        AlbedoIntegrator { world, materials }
    }

    pub closed spec fn spec_world(&self) -> W {
        self.world
    }

    pub closed spec fn spec_materials(&self) -> MaterialStore<M> {
        self.materials
    }

    /// The scene the rays are traced in.
    pub fn world(&self) -> (world: &W)
        ensures
            *world == self.spec_world(),
    {
        &self.world
    }

    /// The materials the scene's ids refer to.
    pub fn materials(&self) -> (materials: &MaterialStore<M>)
        ensures
            *materials == self.spec_materials(),
    {
        &self.materials
    }
}

} // verus!
