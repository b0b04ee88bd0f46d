//! Materials and the store that hands out their ids.
//!
//! The scattering models themselves compute in floating point; here a
//! material keeps its texture as an opaque value of type `T`.

use vstd::prelude::*;

verus! {

/// Index of a material in a [`MaterialStore`].
#[derive(Clone, Copy, PartialEq, Eq, PartialOrd, Ord, Debug, Structural)]
pub struct MaterialId(pub u32);

/// The materials of a scene, each named by the [`MaterialId`] that
/// [`MaterialStore::add`] returned for it.
pub struct MaterialStore<M> {
    materials: Vec<M>,
    current_id: u32,
}

impl<M> View for MaterialStore<M> {
    type V = Seq<M>;

    /// The materials in the order they were added; a material's id is its
    /// position.
    closed spec fn view(&self) -> Seq<M> {
        self.materials@
    }
}

impl<M> MaterialStore<M> {
    /// The next id to hand out is the number of materials stored.
    #[verifier::type_invariant]
    spec fn wf(self) -> bool {
        self.current_id == self.materials.len()
    }

    /// An empty store.
    pub fn new() -> (store: Self)
        ensures
            store@ == Seq::<M>::empty(),
    {
        MaterialStore { materials: Vec::new(), current_id: 0 }
    }

    /// Stores `mat` and returns its id, which is the number of materials
    /// stored before.
    pub fn add(&mut self, mat: M) -> (id: MaterialId)
        requires
            old(self)@.len() < u32::MAX,
        ensures
            final(self)@ == old(self)@.push(mat),
            id.0 == old(self)@.len(),
    {
        let mut store = MaterialStore::new();
        std::mem::swap(&mut store, self);
        proof {
            use_type_invariant(&store);
        }
        let MaterialStore { mut materials, current_id } = store;
        materials.push(mat);
        *self = MaterialStore { materials, current_id: current_id + 1 };
        MaterialId(current_id)
    }

    /// The material with id `id`.
    pub fn get(&self, id: MaterialId) -> (mat: &M)
        requires
            id.0 < self@.len(),
        ensures
            *mat == self@[id.0 as int],
    {
        &self.materials[id.0 as usize]
    }

    /// Number of materials stored.
    pub fn len(&self) -> (len: usize)
        ensures
            len == self@.len(),
    {
        self.materials.len()
    }
}

impl<M: Clone> Clone for MaterialStore<M> {
    /// A store holding a clone of each material, under the same ids.
    fn clone(&self) -> (store: Self)
        ensures
            store@.len() == self@.len(),
            forall|i: int| 0 <= i < self@.len() ==> cloned(self@[i], #[trigger] store@[i]),
    {
        proof {
            use_type_invariant(self);
        }
        MaterialStore { materials: self.materials.clone(), current_id: self.current_id }
    }
}

impl<M> Default for MaterialStore<M> {
    fn default() -> (store: Self)
        ensures
            store@ == Seq::<M>::empty(),
    {
        Self::new()
    }
}

/// Adding a material never changes what earlier ids name, and the new id
/// names the added material.
pub proof fn lemma_add_then_get<M>(before: Seq<M>, mat: M, id: int)
    requires
        0 <= id <= before.len(),
    ensures
        id < before.len() ==> before.push(mat)[id] == before[id],
        id == before.len() ==> before.push(mat)[id] == mat,
        before.push(mat).len() == before.len() + 1,
{
}

/// A material that never scatters nor emits light.
#[derive(Debug, Clone, Copy, Default)]
pub struct DefaultMaterial;

impl DefaultMaterial {
    pub fn new() -> (mat: Self)
        ensures
            mat == DefaultMaterial,
    {
        DefaultMaterial
    }
}

/// A perfectly diffuse ("matte") material. The apparent brightness remains
/// the same, regardless of the viewing angle.
#[derive(Clone, Debug)]
pub struct Lambertian<T> {
    albedo: T,
}

impl<T> Lambertian<T> {
    pub fn new(albedo: T) -> (mat: Self)
        ensures
            mat.spec_albedo() == albedo,
    {
        Lambertian { albedo }
    }

    pub closed spec fn spec_albedo(&self) -> T {
        self.albedo
    }

    /// The texture that gives the reflected color.
    pub fn albedo(&self) -> (albedo: &T)
        ensures
            *albedo == self.spec_albedo(),
    {
        &self.albedo
    }
}

/// A material that emits the color of its texture from its front face.
#[derive(Clone, Debug)]
pub struct DiffuseLight<T> {
    emit: T,
}

impl<T> DiffuseLight<T> {
    pub fn new(emit: T) -> (light: Self)
        ensures
            light.spec_emit() == emit,
    {
        DiffuseLight { emit }
    }

    pub closed spec fn spec_emit(&self) -> T {
        self.emit
    }

    /// The texture that gives the emitted color.
    pub fn emit(&self) -> (emit: &T)
        ensures
            *emit == self.spec_emit(),
    {
        &self.emit
    }
}

/// An Isotropic material used for things like Volumes
#[derive(Clone, Debug)]
pub struct Isotropic<T> {
    albedo: T,
}

impl<T> Isotropic<T> {
    pub fn new(texture: T) -> (mat: Self)
        ensures
            mat.spec_albedo() == texture,
    {
        Isotropic { albedo: texture }
    }

    pub closed spec fn spec_albedo(&self) -> T {
        self.albedo
    }

    /// The texture that gives the scattered color.
    pub fn albedo(&self) -> (albedo: &T)
        ensures
            *albedo == self.spec_albedo(),
    {
        &self.albedo
    }
}

} // verus!
