use flat_bvh::aabb::{union_range, Axis, IndexedAABB, AABB};

fn cube(lo: i32, hi: i32) -> AABB {
    AABB { min: [lo, lo, lo], max: [hi, hi, hi] }
}

#[test]
fn empty_is_the_identity_of_grow() {
    let b = AABB { min: [-3, 4, 0], max: [5, 9, 2] };
    assert_eq!(AABB::empty().grow(b), b);
    assert_eq!(b.grow(AABB::empty()), b);
    assert_eq!(AABB::empty().grow(AABB::empty()), AABB::empty());
    assert_eq!(AABB::empty().min, [i32::MAX; 3]);
    assert_eq!(AABB::empty().max, [i32::MIN; 3]);
}

#[test]
fn grow_takes_each_axis_on_its_own() {
    let a = AABB { min: [0, 5, -2], max: [1, 6, 8] };
    let b = AABB { min: [-4, 7, 0], max: [0, 9, 3] };
    let u = AABB { min: [-4, 5, -2], max: [1, 9, 8] };
    assert_eq!(a.grow(b), u);
    assert_eq!(b.grow(a), u);
}

#[test]
fn grow_is_associative() {
    let a = cube(0, 1);
    let b = AABB { min: [-7, 2, 3], max: [-1, 4, 9] };
    let c = AABB { min: [5, -5, 0], max: [6, 0, 1] };
    assert_eq!(a.grow(b).grow(c), a.grow(b.grow(c)));
}

#[test]
fn centroid_rounds_down() {
    let b = AABB { min: [0, -3, -4], max: [1, 0, 4] };
    assert_eq!(b.centroid(), [0, -2, 0]);
    let far = AABB { min: [i32::MAX - 1, i32::MIN, i32::MIN], max: [i32::MAX, i32::MIN + 1, i32::MAX] };
    assert_eq!(far.centroid(), [i32::MAX - 1, i32::MIN, -1]);
}

#[test]
fn surface_area_of_a_box() {
    let b = AABB { min: [0, 0, 0], max: [2, 3, 4] };
    assert_eq!(b.surface_area(), 2 * (2 * 3 + 3 * 4 + 2 * 4));
    assert_eq!(b.surface_area(), 52);
}

#[test]
fn surface_area_of_flat_and_point_boxes() {
    let flat = AABB { min: [0, 0, 0], max: [3, 2, 0] };
    assert_eq!(flat.surface_area(), 12);
    let line = AABB { min: [0, 0, 0], max: [3, 0, 0] };
    assert_eq!(line.surface_area(), 0);
    assert_eq!(AABB::from([7, 8, 9]).surface_area(), 0);
}

#[test]
fn surface_area_of_the_largest_box() {
    let all = AABB { min: [i32::MIN; 3], max: [i32::MAX; 3] };
    let side: i128 = (1i128 << 32) - 1;
    assert_eq!(all.surface_area(), 6 * side * side);
}

#[test]
fn largest_axis_and_its_size() {
    let b = AABB { min: [0, 0, 0], max: [1, 5, 3] };
    assert_eq!(b.largest_axis_with_size(), (Axis::Y, 5));
    assert_eq!(b.largest_axis(), Axis::Y);
    let c = AABB { min: [-10, 0, 0], max: [-8, 1, 9] };
    assert_eq!(c.largest_axis_with_size(), (Axis::Z, 9));
    let d = AABB { min: [i32::MIN, 0, 0], max: [i32::MAX, 1, 9] };
    assert_eq!(d.largest_axis_with_size(), (Axis::X, (1i64 << 32) - 1));
}

#[test]
fn largest_axis_ties_go_to_the_first_axis() {
    assert_eq!(cube(0, 4).largest_axis(), Axis::X);
    let xy = AABB { min: [0, 0, 0], max: [4, 4, 1] };
    assert_eq!(xy.largest_axis(), Axis::X);
    let yz = AABB { min: [0, 0, 0], max: [1, 4, 4] };
    assert_eq!(yz.largest_axis(), Axis::Y);
    let xz = AABB { min: [0, 0, 0], max: [4, 1, 4] };
    assert_eq!(xz.largest_axis(), Axis::X);
    assert_eq!(AABB::from([1, 2, 3]).largest_axis_with_size(), (Axis::X, 0));
}

#[test]
fn axis_converts_to_its_position() {
    assert_eq!(usize::from(Axis::X), 0);
    assert_eq!(usize::from(Axis::Y), 1);
    assert_eq!(usize::from(Axis::Z), 2);
}

#[test]
fn a_point_makes_a_box_without_extent() {
    let b = AABB::from([3, -1, 7]);
    assert_eq!(b, AABB { min: [3, -1, 7], max: [3, -1, 7] });
}

#[test]
fn default_box_is_the_origin() {
    assert_eq!(AABB::default(), AABB { min: [0, 0, 0], max: [0, 0, 0] });
}

#[test]
fn a_pair_makes_an_indexed_box() {
    let it: IndexedAABB<usize> = IndexedAABB::from((7usize, cube(1, 2)));
    assert_eq!(it.index, 7);
    assert_eq!(it.aabb, cube(1, 2));
}

#[test]
fn union_of_a_range_of_items() {
    let items = vec![
        IndexedAABB { index: 0u32, aabb: cube(0, 1) },
        IndexedAABB { index: 1u32, aabb: cube(5, 6) },
        IndexedAABB { index: 2u32, aabb: cube(-2, -1) },
    ];
    assert_eq!(union_range(&items, 0, 3), cube(-2, 6));
    assert_eq!(union_range(&items, 0, 2), cube(0, 6));
    assert_eq!(union_range(&items, 1, 2), cube(5, 6));
    assert_eq!(union_range(&items, 2, 2), AABB::empty());
}
