use rustracer::material::{DefaultMaterial, DiffuseLight, Isotropic, Lambertian, MaterialId, MaterialStore};

#[test]
fn store_hands_out_sequential_ids() {
    let mut store = MaterialStore::new();
    assert_eq!(store.len(), 0);
    let a = store.add("red");
    let b = store.add("green");
    let c = store.add("blue");
    assert_eq!(a, MaterialId(0));
    assert_eq!(b, MaterialId(1));
    assert_eq!(c, MaterialId(2));
    assert_eq!(store.len(), 3);
}

#[test]
fn get_returns_what_add_stored() {
    let mut store: MaterialStore<u32> = MaterialStore::default();
    let first = store.add(11);
    let second = store.add(22);
    assert_eq!(*store.get(first), 11);
    assert_eq!(*store.get(second), 22);
    store.add(33);
    assert_eq!(*store.get(first), 11);
}

#[test]
fn material_ids_order_by_index() {
    assert!(MaterialId(1) < MaterialId(2));
    assert_eq!(MaterialId(5), MaterialId(5));
}

#[test]
fn materials_keep_their_texture() {
    assert_eq!(*Lambertian::new(3u8).albedo(), 3);
    assert_eq!(*Isotropic::new("fog").albedo(), "fog");
    assert_eq!(*DiffuseLight::new((1, 2, 3)).emit(), (1, 2, 3));
    let _ = DefaultMaterial::new();
}

#[test]
fn cloned_store_keeps_ids() {
    let mut store = MaterialStore::new();
    let id = store.add(String::from("glass"));
    let copy = store.clone();
    assert_eq!(copy.len(), 1);
    assert_eq!(copy.get(id), "glass");
}
