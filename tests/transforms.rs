use forte_world::dimensions::Vector3;
use forte_world::transforms::{Quaternion, Transform};

fn sample_parent() -> Transform {
    Transform::new(Vector3::new(1, 2, 3), Quaternion::new(1, 2, 0, 0), Vector3::new(2, 3, 4))
}

fn sample_child() -> Transform {
    Transform::new(Vector3::new(10, -20, 30), Quaternion::new(0, 0, 1, 0), Vector3::new(5, 1, -1))
}

#[test]
fn compose_adds_positions_multiplies_rotations_and_scales() {
    let p = sample_parent();
    let c = sample_child();
    assert!(p.compose_fits(&c));
    let g = p.compose(&c);
    assert_eq!(g.position, Vector3::new(11, -18, 33));
    // (1 + 2i) * j = j + 2k
    assert_eq!(g.rotation, Quaternion::new(0, 0, 1, 2));
    assert_eq!(g.scale, Vector3::new(10, 3, -4));
}

#[test]
fn rotation_order_is_parent_first() {
    let i = Transform::new(Vector3::zero(), Quaternion::new(0, 1, 0, 0), Vector3::new(1, 1, 1));
    let j = Transform::new(Vector3::zero(), Quaternion::new(0, 0, 1, 0), Vector3::new(1, 1, 1));
    // i * j = k, j * i = -k
    assert_eq!(i.compose(&j).rotation, Quaternion::new(0, 0, 0, 1));
    assert_eq!(j.compose(&i).rotation, Quaternion::new(0, 0, 0, -1));
}

#[test]
fn identity_is_neutral_on_both_sides() {
    let id = Transform::identity();
    let p = sample_parent();
    assert_eq!(id.compose(&p), p);
    assert_eq!(p.compose(&id), p);
    assert_eq!(Transform::default(), id);
}

#[test]
fn compose_fits_rejects_overflow() {
    let p = Transform::new(Vector3::new(i32::MAX, 0, 0), Quaternion::identity(), Vector3::new(1, 1, 1));
    let c = Transform::new(Vector3::new(1, 0, 0), Quaternion::identity(), Vector3::new(1, 1, 1));
    assert!(!p.compose_fits(&c));
    let big = Transform::new(Vector3::zero(), Quaternion::identity(), Vector3::new(1 << 16, 1, 1));
    assert!(!big.compose_fits(&big));
    let q = Transform::new(Vector3::zero(), Quaternion::new(1 << 16, 1 << 16, 0, 0), Vector3::new(1, 1, 1));
    assert!(!q.compose_fits(&q));
}
