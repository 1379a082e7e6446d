use rtrees::aabb::AABB;
use rtrees::aabb::Leaf;

fn unit_cube(x: i64, y: i64, z: i64) -> AABB {
    AABB { min_x: x, min_y: y, min_z: z, max_x: x + 1, max_y: y + 1, max_z: z + 1 }
}

#[test]
fn merge_of_nothing_is_identity() {
    // Merging an empty collection yields the sentinel, and merging the
    // sentinel with any box yields that box back.
    let empty = AABB::merge(&Vec::new());
    assert_eq!(empty, AABB::empty());
    let a = AABB { min_x: -3, min_y: 4, min_z: 0, max_x: 9, max_y: 5, max_z: 2 };
    assert_eq!(empty.merge_with(&a), a);
    assert_eq!(a.merge_with(&empty), a);
}

#[test]
fn merge_folds_min_and_max() {
    let a = unit_cube(0, 0, 0);
    let b = unit_cube(4, -2, 3);
    let m = a.merge_with(&b);
    assert_eq!(m, AABB { min_x: 0, min_y: -2, min_z: 0, max_x: 5, max_y: 1, max_z: 4 });
    let all = AABB::merge(&vec![a, b, unit_cube(-7, 1, 1)]);
    assert_eq!(all, AABB { min_x: -7, min_y: -2, min_z: 0, max_x: 5, max_y: 2, max_z: 4 });
}

#[test]
fn overlap_is_symmetric_and_touching_counts() {
    let a = unit_cube(0, 0, 0);
    let touching = unit_cube(1, 0, 0);
    let apart = unit_cube(3, 0, 0);
    assert!(a.overlaps(&touching));
    assert!(touching.overlaps(&a));
    assert!(!a.overlaps(&apart));
    assert!(!apart.overlaps(&a));
    assert!(a.overlaps(&a));
}

#[test]
fn disjoint_boxes_do_not_overlap() {
    // Two disjoint boxes: [0,0,0]-[1,1,1] and [5,5,5]-[6,6,6].
    let a = AABB { min_x: 0, min_y: 0, min_z: 0, max_x: 1, max_y: 1, max_z: 1 };
    let b = AABB { min_x: 5, min_y: 5, min_z: 5, max_x: 6, max_y: 6, max_z: 6 };
    assert!(!a.overlaps(&b));
    assert!(!b.overlaps(&a));
}

#[test]
fn volume_is_product_of_extents() {
    let b = AABB { min_x: -1, min_y: 0, min_z: 2, max_x: 3, max_y: 5, max_z: 4 };
    assert_eq!(b.volume(), 4 * 5 * 2);
    let flat = AABB { min_x: 0, min_y: 0, min_z: 0, max_x: 7, max_y: 0, max_z: 3 };
    assert_eq!(flat.volume(), 0);
}

#[test]
fn pos_and_size_report_geometry() {
    let b = AABB { min_x: 0, min_y: -4, min_z: 10, max_x: 6, max_y: 0, max_z: 11 };
    assert_eq!(b.size(), (6, 4, 1));
    assert_eq!(b.pos(), (3, -2, 10));
}

#[test]
fn leaf_constructors_carry_box_and_payload() {
    let b = unit_cube(2, 2, 2);
    let l = Leaf::new(b, 42u32);
    assert_eq!(l.aabb, b);
    assert_eq!(l.data, 42);
    let e = Leaf::new_empty(b);
    assert_eq!(e.aabb, b);
}

#[test]
fn pos_rounds_toward_zero() {
    // midpoint of [-3, 0] is -1.5, reported as -1 (toward zero)
    let b = AABB { min_x: -3, min_y: -1, min_z: 1, max_x: 0, max_y: 2, max_z: 2 };
    assert_eq!(b.pos(), (-1, 0, 1));
}
