//! The lights of a scene and the uniform choice among them.

use vstd::prelude::*;

verus! {

/// A uniformly random index below `bound`, from `rand::rng().random_range(0..bound)`.
///
/// rand samples the range `0..bound` with its uniform integer sampler, which
/// returns a value from `0` up to `bound - 1` and fails only on an empty
/// range; which value comes back is left to chance.  The thread-local
/// generator panics when the operating system cannot seed it.
#[verifier::external_body]
fn random_index(bound: usize) -> (index: usize)
    requires
        bound > 0,
    ensures
        index < bound,
{
    rand::RngExt::random_range(&mut rand::rng(), 0..bound)
}

/// A light chosen by [`UniformLightSampler::sample`]: the light, its
/// position among the sampler's lights, and how many lights it was chosen
/// from (so it was chosen with probability `1 / choices`).
pub struct SampledLight<'a, L> {
    pub light: &'a L,
    pub index: usize,
    pub choices: usize,
}

/// Picks one of its lights uniformly at random.
pub struct UniformLightSampler<L> {
    lights: Vec<L>,
}

impl<L> View for UniformLightSampler<L> {
    type V = Seq<L>;

    closed spec fn view(&self) -> Seq<L> {
        self.lights@
    }
}

impl<L> UniformLightSampler<L> {
    pub fn new(lights: Vec<L>) -> (sampler: Self)
        ensures
            sampler@ == lights@,
    {
        UniformLightSampler { lights }
    }

    /// `None` when there are no lights; else a randomly chosen light.
    pub fn sample(&self) -> (sampled: Option<SampledLight<'_, L>>)
        ensures
            self@.len() == 0 <==> sampled is None,
            sampled matches Some(s) ==> {
                &&& s.index < self@.len()
                &&& *s.light == self@[s.index as int]
                &&& s.choices == self@.len()
            },
    {
        if self.lights.is_empty() {
            return None;
        }
        let size = self.lights.len();
        let idx = random_index(size);
        let light = &self.lights[idx];
        Some(SampledLight { light, index: idx, choices: size })
    }
}

/// The lights of a scene.
pub struct LightStore<L> {
    pub lights: Vec<L>,
}

impl<L> LightStore<L> {
    pub fn new() -> (store: Self)
        ensures
            store.lights@ == Seq::<L>::empty(),
    {
        LightStore { lights: Vec::new() }
    }

    pub fn add(&mut self, light: L)
        ensures
            final(self).lights@ == old(self).lights@.push(light),
    {
        self.lights.push(light);
    }
}

impl<L> Default for LightStore<L> {
    fn default() -> (store: Self)
        ensures
            store.lights@ == Seq::<L>::empty(),
    {
        Self::new()
    }
}

} // verus!
