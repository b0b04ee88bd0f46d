use rustracer::light::{LightStore, UniformLightSampler};

#[test]
fn empty_sampler_gives_nothing() {
    let sampler: UniformLightSampler<u8> = UniformLightSampler::new(vec![]);
    assert!(sampler.sample().is_none());
}

#[test]
fn sampled_light_is_one_of_the_lights() {
    let sampler = UniformLightSampler::new(vec![10, 20, 30]);
    let mut seen = [false; 3];
    for _ in 0..300 {
        let s = sampler.sample().unwrap();
        assert!(s.index < 3);
        assert_eq!(*s.light, 10 * (s.index as i32 + 1));
        assert_eq!(s.choices, 3);
        seen[s.index] = true;
    }
    assert!(seen.iter().all(|x| *x));
}

#[test]
fn single_light_is_always_chosen() {
    let sampler = UniformLightSampler::new(vec!["sun"]);
    let s = sampler.sample().unwrap();
    assert_eq!((*s.light, s.index, s.choices), ("sun", 0, 1));
}

#[test]
fn light_store_appends() {
    let mut store = LightStore::new();
    store.add(1);
    store.add(2);
    assert_eq!(store.lights, vec![1, 2]);
    let empty: LightStore<u8> = LightStore::default();
    assert!(empty.lights.is_empty());
}
