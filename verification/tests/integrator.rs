use rustracer::integrator::{AlbedoIntegrator, NormalIntegrator};
use rustracer::material::{MaterialId, MaterialStore};

#[test]
fn normal_integrator_keeps_world() {
    let integrator = NormalIntegrator::new(vec![1, 2, 3]);
    assert_eq!(integrator.world(), &vec![1, 2, 3]);
}

#[test]
fn albedo_integrator_keeps_world_and_materials() {
    let mut materials = MaterialStore::new();
    let id = materials.add("white");
    let integrator = AlbedoIntegrator::new("scene", materials);
    assert_eq!(*integrator.world(), "scene");
    assert_eq!(*integrator.materials().get(id), "white");
    assert_eq!(id, MaterialId(0));
}
