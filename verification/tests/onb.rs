use nalgebra_glm::Vec3;
use rustracer::onb::ONB;

#[test]
fn access() {
    let n = Vec3::new(0.6, 0.1, 21.9);
    let w = n.normalize();
    let a = if w.x.abs() > 0.9 {
        Vec3::new(0.0, 1.0, 0.0)
    } else {
        Vec3::new(1.0, 0.0, 0.0)
    };
    let v = w.cross(&a).normalize();
    let u = w.cross(&v);
    let _onb = ONB::from_axes(u, v, w);
}

#[test]
fn onb_axes_come_back_in_order() {
    let onb = ONB::from_axes(1u8, 2u8, 3u8);
    assert_eq!(*onb.u(), 1);
    assert_eq!(*onb.v(), 2);
    assert_eq!(*onb.w(), 3);
}
