use forte_world::dimensions::{Dimensions, Vector3};

fn cube(from: (i32, i32, i32), to: (i32, i32, i32)) -> Dimensions {
    Dimensions::new(Vector3::new(from.0, from.1, from.2), Vector3::new(to.0, to.1, to.2))
}

#[test]
fn overlapping_boxes_overlap_both_ways() {
    // Scaled by 2 so the half-way corner is an integer.
    let a = cube((0, 0, 0), (2, 2, 2));
    let b = cube((1, 1, 1), (4, 4, 4));
    assert!(a.overlap(&b));
    assert!(b.overlap(&a));
}

#[test]
fn touching_boxes_do_not_overlap() {
    let a = cube((0, 0, 0), (1, 1, 1));
    let c = cube((1, 1, 1), (2, 2, 2));
    assert!(!a.overlap(&c));
    assert!(!c.overlap(&a));
}

#[test]
fn box_outside_on_one_axis_does_not_overlap() {
    let a = cube((0, 0, 0), (4, 4, 4));
    let far_z = cube((1, 1, 5), (2, 2, 6));
    assert!(!a.overlap(&far_z));
    assert!(!far_z.overlap(&a));
}

#[test]
fn contained_box_overlaps() {
    let a = cube((-5, -5, -5), (5, 5, 5));
    let inner = cube((-1, -1, -1), (1, 1, 1));
    assert!(a.overlap(&inner));
    assert!(inner.overlap(&a));
}

#[test]
fn default_box_is_degenerate_at_origin() {
    let d = Dimensions::default();
    assert_eq!(d, cube((0, 0, 0), (0, 0, 0)));
    assert!(!d.overlap(&d));
}

#[test]
fn hull_takes_min_and_max_per_axis() {
    let a = cube((0, -3, 2), (1, 1, 4));
    let b = cube((-2, 0, 3), (0, 5, 3));
    assert_eq!(a.hull(&b), cube((-2, -3, 2), (1, 5, 4)));
    assert_eq!(b.hull(&a), cube((-2, -3, 2), (1, 5, 4)));
}

#[test]
fn offset_moves_both_corners() {
    let a = cube((-1, -2, -3), (1, 2, 3));
    assert_eq!(a.offset(&Vector3::new(10, 20, 30)), cube((9, 18, 27), (11, 22, 33)));
}
