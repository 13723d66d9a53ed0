use flat_bvh::aabb::{IndexedAABB, AABB};
use flat_bvh::bvh::{InputKind, BVH, MAX_ITEMS};
use flat_bvh::bvh_bucket::{BVHBucketBuidler, BVHBucketBuidler16};
use flat_bvh::glsl_bvh::{GlslBVH, GlslBVHNode};
use flat_bvh::node::{BVHNode, MAX_POSITION};
use flat_bvh::tagged::TaggedNode;

type Item = IndexedAABB<u32>;

fn bx(min: [i32; 3], max: [i32; 3]) -> AABB {
    AABB { min, max }
}

fn item(index: u32, min: [i32; 3], max: [i32; 3]) -> Item {
    IndexedAABB { index, aabb: bx(min, max) }
}

fn bounds_of(verts: [[i32; 3]; 3]) -> AABB {
    let mut b = AABB::empty();
    for v in verts {
        b = b.grow(AABB::from(v));
    }
    b
}

fn three_triangles() -> Vec<Item> {
    vec![
        IndexedAABB { index: 0, aabb: bounds_of([[0, 0, 0], [1, 0, 0], [1, 1, 0]]) },
        IndexedAABB { index: 1, aabb: bounds_of([[2, 0, 0], [3, 0, 0], [3, 1, 0]]) },
        IndexedAABB { index: 2, aabb: bounds_of([[2, 1, 0], [3, 1, 0], [3, 2, 0]]) },
    ]
}

fn node(min: [i32; 3], max: [i32; 3], right: u32, miss: u32) -> GlslBVHNode {
    GlslBVHNode {
        min: [min[0], min[1], min[2], 0],
        max: [max[0], max[1], max[2], 0],
        ty: GlslBVHNode::TY_NODE,
        right,
        miss,
        _pad: 0,
    }
}

fn leaf(min: [i32; 3], max: [i32; 3], index: u32, miss: u32) -> GlslBVHNode {
    GlslBVHNode {
        min: [min[0], min[1], min[2], 0],
        max: [max[0], max[1], max[2], 0],
        ty: GlslBVHNode::TY_LEAF,
        right: index,
        miss,
        _pad: 0,
    }
}

fn box_of(n: &GlslBVHNode) -> AABB {
    AABB { min: [n.min[0], n.min[1], n.min[2]], max: [n.max[0], n.max[1], n.max[2]] }
}

/// Checks the subtree at `at` and returns the position just behind it.
fn check_subtree(nodes: &[GlslBVHNode], at: usize) -> usize {
    assert!(at < nodes.len());
    let n = &nodes[at];
    assert!(n.is_leaf() != n.is_node());
    assert_eq!(n._pad, 0);
    assert_eq!(n.min[3], 0);
    assert_eq!(n.max[3], 0);
    let end = if n.is_leaf() {
        at + 1
    } else {
        let right = n.right();
        assert!(at + 1 < right);
        assert_eq!(check_subtree(nodes, at + 1), right);
        assert_eq!(box_of(n), box_of(&nodes[at + 1]).grow(box_of(&nodes[right])));
        check_subtree(nodes, right)
    };
    let exit = if end == nodes.len() { 0 } else { end };
    assert_eq!(n.miss(), exit);
    assert!(n.miss() == 0 || (n.miss() > at && n.miss() < nodes.len()));
    end
}

fn walk(nodes: &[GlslBVHNode], descend: bool) -> Vec<usize> {
    let mut seen = Vec::new();
    let mut pos = 0;
    let mut steps = 0;
    loop {
        assert!(steps <= nodes.len());
        steps += 1;
        let n = &nodes[pos];
        let next = if n.is_leaf() {
            seen.push(pos);
            pos + 1
        } else if descend {
            pos + 1
        } else {
            n.miss()
        };
        if next == 0 || next >= nodes.len() {
            return seen;
        }
        pos = next;
    }
}

fn preorder(nodes: &[GlslBVHNode], at: usize, out: &mut Vec<usize>) {
    if nodes[at].is_leaf() {
        out.push(at);
    } else {
        preorder(nodes, at + 1, out);
        preorder(nodes, nodes[at].right(), out);
    }
}

fn key(it: &Item) -> (u32, [i32; 3], [i32; 3]) {
    (it.index, it.aabb.min, it.aabb.max)
}

fn check_tree(tree: &GlslBVH, items: &[Item]) {
    let nodes = tree.nodes();
    let n = items.len();
    assert_eq!(nodes.len(), 2 * n - 1);
    assert_eq!(nodes.iter().filter(|x| x.is_leaf()).count(), n);
    assert_eq!(nodes.iter().filter(|x| x.is_node()).count(), n - 1);
    assert_eq!(check_subtree(nodes, 0), nodes.len());
    assert_eq!(nodes[0].miss(), 0);

    let mut all = AABB::empty();
    for it in items {
        all = all.grow(it.aabb);
    }
    assert_eq!(tree.aabb(), all);
    assert_eq!(box_of(&nodes[0]), all);

    let mut held: Vec<_> = nodes
        .iter()
        .filter(|x| x.is_leaf())
        .map(|x| (x.right, [x.min[0], x.min[1], x.min[2]], [x.max[0], x.max[1], x.max[2]]))
        .collect();
    let mut given: Vec<_> = items.iter().map(key).collect();
    held.sort();
    given.sort();
    assert_eq!(held, given);

    let visited = walk(nodes, true);
    let mut descent = Vec::new();
    preorder(nodes, 0, &mut descent);
    assert_eq!(visited, descent);
    assert_eq!(visited.len(), n);
    let leaves: Vec<usize> = (0..nodes.len()).filter(|&i| nodes[i].is_leaf()).collect();
    assert_eq!(visited, leaves);
    if n >= 2 {
        assert_eq!(walk(nodes, false), Vec::<usize>::new());
    }
}

struct Lcg(u64);

impl Lcg {
    fn next(&mut self, bound: i32) -> i32 {
        self.0 = self.0.wrapping_mul(6364136223846793005).wrapping_add(1442695040888963407);
        ((self.0 >> 33) % (bound as u64)) as i32
    }
}

fn scattered(count: usize, seed: u64, spread: i32, size: i32) -> Vec<Item> {
    let mut rng = Lcg(seed);
    (0..count)
        .map(|i| {
            let lo = [
                rng.next(spread) - spread / 2,
                rng.next(spread) - spread / 2,
                rng.next(spread) - spread / 2,
            ];
            let hi = [lo[0] + rng.next(size), lo[1] + rng.next(size), lo[2] + rng.next(size)];
            item(i as u32, lo, hi)
        })
        .collect()
}

#[test]
fn sweep_three_triangles() {
    let tree: GlslBVH = BVH::build_sweep(three_triangles()).unwrap();
    let nodes = tree.nodes();
    assert_eq!(nodes.len(), 5);
    assert_eq!(nodes.iter().filter(|n| n.is_leaf()).count(), 3);
    assert_eq!(nodes.iter().filter(|n| n.is_node()).count(), 2);
    assert_eq!(tree.aabb(), bx([0, 0, 0], [3, 2, 0]));
    assert_eq!(box_of(&nodes[0]), bx([0, 0, 0], [3, 2, 0]));
    assert!(nodes[4].is_leaf());
    assert_eq!(nodes[4].miss(), 0);
    check_tree(&tree, &three_triangles());
}

#[test]
fn sweep_three_triangles_node_for_node() {
    let tree: GlslBVH = BVH::build_sweep(three_triangles()).unwrap();
    let expected = vec![
        node([0, 0, 0], [3, 2, 0], 2, 0),
        leaf([0, 0, 0], [1, 1, 0], 0, 2),
        node([2, 0, 0], [3, 2, 0], 4, 0),
        leaf([2, 0, 0], [3, 1, 0], 1, 4),
        leaf([2, 1, 0], [3, 2, 0], 2, 0),
    ];
    assert_eq!(tree.nodes(), &expected[..]);
    assert_eq!(tree.nodes, expected);
}

#[test]
fn buckets_three_triangles_node_for_node() {
    // The first triangle falls into the first bucket, the other two into the
    // last: every boundary costs the same, and the first is taken.
    let tree: GlslBVH = BVH::build_buckets_8(three_triangles()).unwrap();
    let expected = vec![
        node([0, 0, 0], [3, 2, 0], 2, 0),
        leaf([0, 0, 0], [1, 1, 0], 0, 2),
        node([2, 0, 0], [3, 2, 0], 4, 0),
        leaf([2, 0, 0], [3, 1, 0], 1, 4),
        leaf([2, 1, 0], [3, 2, 0], 2, 0),
    ];
    assert_eq!(tree.nodes, expected);
    check_tree(&tree, &three_triangles());
    let tree16: GlslBVH = BVH::build_buckets_16(three_triangles()).unwrap();
    assert_eq!(tree16.nodes, expected);
}

#[test]
fn buckets_with_one_occupied_bucket_divide_in_the_middle() {
    // Three boxes around one centroid: the row of buckets has no extent.
    let items = vec![
        item(10, [0, 0, 0], [2, 2, 2]),
        item(11, [-1, -1, -1], [3, 3, 3]),
        item(12, [1, 1, 1], [1, 1, 1]),
    ];
    let tree: GlslBVH = BVH::build_buckets_8(items.clone()).unwrap();
    let expected = vec![
        node([-1, -1, -1], [3, 3, 3], 2, 0),
        leaf([0, 0, 0], [2, 2, 2], 10, 2),
        node([-1, -1, -1], [3, 3, 3], 4, 0),
        leaf([-1, -1, -1], [3, 3, 3], 11, 4),
        leaf([1, 1, 1], [1, 1, 1], 12, 0),
    ];
    assert_eq!(tree.nodes, expected);
    check_tree(&tree, &items);
}

#[test]
fn buckets_with_one_occupied_bucket_leave_both_halves_filled() {
    for count in 3..40usize {
        let items: Vec<Item> = (0..count)
            .map(|i| {
                let r = i as i32;
                item(i as u32, [5 - r, 5 - r, 5 - r], [5 + r, 5 + r, 5 + r])
            })
            .collect();
        let tree: GlslBVH = BVH::build_buckets_8(items.clone()).unwrap();
        let nodes = tree.nodes();
        let left_leaves = (1..nodes[0].right()).filter(|&i| nodes[i].is_leaf()).count();
        let right_leaves = (nodes[0].right()..nodes.len()).filter(|&i| nodes[i].is_leaf()).count();
        assert_eq!(left_leaves, count / 2);
        assert_eq!(right_leaves, count - count / 2);
        assert!(left_leaves >= 1 && right_leaves >= 1);
        // The halves keep the order of the input.
        let order: Vec<u32> = nodes.iter().filter(|n| n.is_leaf()).map(|n| n.right).collect();
        assert_eq!(order, (0..count as u32).collect::<Vec<_>>());
        check_tree(&tree, &items);
    }
}

#[test]
fn a_single_item_makes_a_single_leaf() {
    let items = vec![item(42, [1, 2, 3], [4, 5, 6])];
    let expected = vec![leaf([1, 2, 3], [4, 5, 6], 42, 0)];
    let sweep: GlslBVH = BVH::build_sweep(items.clone()).unwrap();
    assert_eq!(sweep.nodes, expected);
    assert_eq!(sweep.aabb(), bx([1, 2, 3], [4, 5, 6]));
    let buckets: GlslBVH = BVH::build_buckets_8(items.clone()).unwrap();
    assert_eq!(buckets.nodes, expected);
    // The one walk there is visits the one leaf.
    assert_eq!(walk(sweep.nodes(), false), vec![0]);
    assert_eq!(walk(sweep.nodes(), true), vec![0]);
}

#[test]
fn two_items_with_buckets_keep_their_order() {
    let items = vec![item(1, [10, 0, 0], [11, 1, 1]), item(0, [0, 0, 0], [1, 1, 1])];
    let tree: GlslBVH = BVH::build_buckets_16(items.clone()).unwrap();
    let expected = vec![
        node([0, 0, 0], [11, 1, 1], 2, 0),
        leaf([10, 0, 0], [11, 1, 1], 1, 2),
        leaf([0, 0, 0], [1, 1, 1], 0, 0),
    ];
    assert_eq!(tree.nodes, expected);
}

#[test]
fn two_items_with_sweep_are_ordered() {
    let items = vec![item(1, [10, 0, 0], [11, 1, 1]), item(0, [0, 0, 0], [1, 1, 1])];
    let tree: GlslBVH = BVH::build_sweep(items.clone()).unwrap();
    let expected = vec![
        node([0, 0, 0], [11, 1, 1], 2, 0),
        leaf([0, 0, 0], [1, 1, 1], 0, 2),
        leaf([10, 0, 0], [11, 1, 1], 1, 0),
    ];
    assert_eq!(tree.nodes, expected);
}

#[test]
fn sweep_takes_the_first_of_equal_divisions() {
    // Three equal boxes in a row: dividing behind one costs what dividing
    // behind two costs.
    let items = vec![
        item(0, [0, 0, 0], [2, 2, 2]),
        item(1, [10, 0, 0], [12, 2, 2]),
        item(2, [20, 0, 0], [22, 2, 2]),
    ];
    let tree: GlslBVH = BVH::build_sweep(items.clone()).unwrap();
    assert_eq!(tree.nodes()[0].right(), 2);
    assert!(tree.nodes()[1].is_leaf());
    assert_eq!(tree.nodes()[1].right, 0);
    check_tree(&tree, &items);
}

#[test]
fn sweep_takes_the_cheapest_division() {
    // Two boxes close together and one far away: the far one is split off.
    let items = vec![
        item(0, [100, 0, 0], [101, 1, 1]),
        item(1, [0, 0, 0], [1, 1, 1]),
        item(2, [2, 0, 0], [3, 1, 1]),
    ];
    let tree: GlslBVH = BVH::build_sweep(items.clone()).unwrap();
    let expected = vec![
        node([0, 0, 0], [101, 1, 1], 4, 0),
        node([0, 0, 0], [3, 1, 1], 3, 4),
        leaf([0, 0, 0], [1, 1, 1], 1, 3),
        leaf([2, 0, 0], [3, 1, 1], 2, 4),
        leaf([100, 0, 0], [101, 1, 1], 0, 0),
    ];
    assert_eq!(tree.nodes, expected);
}

#[test]
fn sweep_keeps_the_order_of_equal_centroids() {
    let items = vec![
        item(7, [0, 0, 0], [4, 1, 1]),
        item(3, [1, 0, 0], [3, 1, 1]),
        item(9, [2, 0, 0], [2, 1, 1]),
        item(1, [-50, 0, 0], [-40, 1, 1]),
    ];
    let tree: GlslBVH = BVH::build_sweep(items.clone()).unwrap();
    let order: Vec<u32> = tree.nodes().iter().filter(|n| n.is_leaf()).map(|n| n.right).collect();
    assert_eq!(order, vec![1, 7, 3, 9]);
    check_tree(&tree, &items);
}

#[test]
fn buckets_follow_the_bucket_formula() {
    // Centroids at 0, 1, 4, 5, 8 along x, eight buckets over an extent of 8:
    // the buckets are 0, 0, 3, 4, 7.
    let items = vec![
        item(4, [8, 0, 0], [8, 0, 0]),
        item(2, [4, 0, 0], [4, 0, 0]),
        item(0, [0, 0, 0], [0, 0, 0]),
        item(3, [5, 0, 0], [5, 0, 0]),
        item(1, [1, 0, 0], [1, 0, 0]),
    ];
    let tree: GlslBVH = BVH::build_buckets_8(items.clone()).unwrap();
    check_tree(&tree, &items);
    // All boxes are flat, every boundary costs nothing: the first is taken,
    // and behind it lie the two items of bucket 0, in the order of the input.
    let nodes = tree.nodes();
    assert_eq!(nodes[0].right(), 4);
    let order: Vec<u32> = nodes.iter().filter(|n| n.is_leaf()).map(|n| n.right).collect();
    assert_eq!(order, vec![0, 1, 2, 3, 4]);
}

#[test]
fn buckets_take_the_cheapest_boundary() {
    // Unit cubes at x = 0, 1, 2 and at x = 100: the cheapest boundary parts
    // the three from the one.
    let items = vec![
        item(3, [100, 0, 0], [101, 1, 1]),
        item(0, [0, 0, 0], [1, 1, 1]),
        item(1, [1, 0, 0], [2, 1, 1]),
        item(2, [2, 0, 0], [3, 1, 1]),
    ];
    let tree: GlslBVH = BVH::build_buckets_8(items.clone()).unwrap();
    let nodes = tree.nodes();
    assert_eq!(nodes.len(), 7);
    assert_eq!(nodes[0].right(), 6);
    assert_eq!(nodes[6], leaf([100, 0, 0], [101, 1, 1], 3, 0));
    assert_eq!(box_of(&nodes[1]), bx([0, 0, 0], [3, 1, 1]));
    check_tree(&tree, &items);
}

#[test]
fn every_tree_is_well_formed() {
    for (count, seed) in [(2usize, 1u64), (3, 2), (4, 3), (7, 4), (16, 5), (33, 6), (100, 7), (257, 8)] {
        let items = scattered(count, seed, 1000, 50);
        let sweep: GlslBVH = BVH::build_sweep(items.clone()).unwrap();
        check_tree(&sweep, &items);
        let b8: GlslBVH = BVH::build_buckets_8(items.clone()).unwrap();
        check_tree(&b8, &items);
        let b16: GlslBVH = BVH::build_buckets_16(items.clone()).unwrap();
        check_tree(&b16, &items);
        let b2: GlslBVH = BVH::build_buckets_num::<2>(items.clone()).unwrap();
        check_tree(&b2, &items);
        let b5: GlslBVH = BVH::build_buckets_num::<5>(items.clone()).unwrap();
        check_tree(&b5, &items);
    }
}

#[test]
fn trees_over_crowded_items_are_well_formed() {
    // Few distinct positions, many repeated boxes and centroids.
    for (count, seed) in [(5usize, 11u64), (20, 12), (64, 13), (150, 14)] {
        let items = scattered(count, seed, 4, 2);
        let sweep: GlslBVH = BVH::build_sweep(items.clone()).unwrap();
        check_tree(&sweep, &items);
        let b8: GlslBVH = BVH::build_buckets_8(items.clone()).unwrap();
        check_tree(&b8, &items);
    }
}

#[test]
fn trees_over_extreme_coordinates_are_well_formed() {
    let items = vec![
        item(0, [i32::MIN, i32::MIN, i32::MIN], [i32::MIN + 1, i32::MIN + 1, i32::MIN + 1]),
        item(1, [i32::MAX - 1, i32::MAX - 1, i32::MAX - 1], [i32::MAX, i32::MAX, i32::MAX]),
        item(2, [-1, -1, -1], [1, 1, 1]),
        item(3, [i32::MIN, 0, 0], [i32::MAX, 0, 0]),
    ];
    let sweep: GlslBVH = BVH::build_sweep(items.clone()).unwrap();
    check_tree(&sweep, &items);
    let b16: GlslBVH = BVH::build_buckets_16(items.clone()).unwrap();
    check_tree(&b16, &items);
}

#[test]
fn sweep_over_nested_boxes_makes_a_tree_as_deep_as_it_is_long() {
    // Boxes around one centre, each larger than the one before: splitting off
    // the smallest is always cheapest.
    let count = 300usize;
    let items: Vec<Item> = (0..count)
        .map(|i| {
            let r = i as i32 + 1;
            item(i as u32, [-r, -r, -r], [r, r, r])
        })
        .collect();
    let tree: GlslBVH = BVH::build_sweep(items.clone()).unwrap();
    let nodes = tree.nodes();
    for i in 0..count - 1 {
        assert!(nodes[2 * i].is_node());
        assert_eq!(nodes[2 * i].right(), 2 * i + 2);
        assert!(nodes[2 * i + 1].is_leaf());
        assert_eq!(nodes[2 * i + 1].right, i as u32);
        assert_eq!(nodes[2 * i + 1].miss(), 2 * i + 2);
        assert_eq!(nodes[2 * i].miss(), 0);
    }
    assert!(nodes[2 * count - 2].is_leaf());
    check_tree(&tree, &items);
}

#[test]
fn buckets_over_many_items_in_a_row() {
    let count = 20_000usize;
    let items: Vec<Item> = (0..count)
        .map(|i| {
            let x = (i as i32) * 3;
            item(i as u32, [x, 0, 0], [x + 2, 1, 1])
        })
        .collect();
    let tree: GlslBVH = BVH::build_buckets_16(items.clone()).unwrap();
    check_tree(&tree, &items);
}

#[test]
fn trees_of_tagged_nodes_say_what_trees_of_flat_nodes_say() {
    let items = scattered(60, 21, 2000, 80);
    let flat: GlslBVH = BVH::build_buckets_8(items.clone()).unwrap();
    let tagged: BVH<TaggedNode<u32>> = BVH::build_buckets_8(items.clone()).unwrap();
    assert_eq!(flat.nodes().len(), tagged.nodes().len());
    for (a, b) in flat.nodes().iter().zip(tagged.nodes().iter()) {
        assert_eq!(a.is_leaf(), b.is_leaf());
        assert_eq!(a.miss(), b.miss());
        match *b {
            TaggedNode::Leaf { aabb, index, .. } => {
                assert_eq!(box_of(a), aabb);
                assert_eq!(a.right, index);
            }
            TaggedNode::Node { aabb, right, .. } => {
                assert_eq!(box_of(a), aabb);
                assert_eq!(a.right(), right);
            }
        }
    }
}

#[test]
fn tagged_nodes_carry_any_index() {
    let items = vec![
        IndexedAABB { index: "far", aabb: bx([100, 0, 0], [101, 1, 1]) },
        IndexedAABB { index: "near", aabb: bx([0, 0, 0], [1, 1, 1]) },
    ];
    let tree: BVH<TaggedNode<&str>> = BVH::build_sweep(items).unwrap();
    let expected = vec![
        TaggedNode::Node { aabb: bx([0, 0, 0], [101, 1, 1]), right: 2, miss: 0 },
        TaggedNode::Leaf { aabb: bx([0, 0, 0], [1, 1, 1]), index: "near", miss: 2 },
        TaggedNode::Leaf { aabb: bx([100, 0, 0], [101, 1, 1]), index: "far", miss: 0 },
    ];
    assert_eq!(tree.nodes, expected);
    let mut n = TaggedNode::<u8>::new_node(bx([0, 0, 0], [1, 1, 1]), 3, 4);
    n.set_right(5);
    n.set_miss(6);
    assert_eq!(n, TaggedNode::Node { aabb: bx([0, 0, 0], [1, 1, 1]), right: 5, miss: 6 });
    assert_eq!(n.right(), 5);
    assert_eq!(n.miss(), 6);
    assert!(n.is_node() && !n.is_leaf());
    let mut l = TaggedNode::new_leaf(bx([0, 0, 0], [1, 1, 1]), 9u8, 4);
    l.set_right(5);
    assert_eq!(l, TaggedNode::Leaf { aabb: bx([0, 0, 0], [1, 1, 1]), index: 9, miss: 4 });
    assert_eq!(l.right(), 0);
    assert!(l.is_leaf() && !l.is_node());
}

#[test]
fn building_twice_gives_the_same_array() {
    let items = scattered(200, 99, 5000, 300);
    let a: GlslBVH = BVH::build_sweep(items.clone()).unwrap();
    let b: GlslBVH = BVH::build_sweep(items.clone()).unwrap();
    assert_eq!(a.nodes, b.nodes);
    assert_eq!(a.aabb(), b.aabb());
    let c: GlslBVH = BVH::build_buckets_16(items.clone()).unwrap();
    let d: GlslBVH = BVH::build_buckets_16(items.clone()).unwrap();
    assert_eq!(c.nodes, d.nodes);
    assert_eq!(c.aabb(), d.aabb());
}

#[test]
fn the_builder_object_builds_the_same_tree() {
    let items = scattered(77, 5, 3000, 100);
    let direct: GlslBVH = BVH::build_buckets_16(items.clone()).unwrap();
    let by_object = BVHBucketBuidler16::<GlslBVHNode>::from_iter(items.clone()).build().unwrap();
    assert_eq!(direct.nodes, by_object.nodes);
    assert_eq!(direct.aabb(), by_object.aabb());
    let direct8: GlslBVH = BVH::build_buckets_8(items.clone()).unwrap();
    let by_object8 = BVHBucketBuidler::<8, GlslBVHNode>::from_iter(items.clone()).build().unwrap();
    assert_eq!(direct8.nodes, by_object8.nodes);
    check_tree(&by_object8, &items);
}

#[test]
fn empty_input_is_turned_down() {
    let r: Result<GlslBVH, InputKind> = BVH::build_sweep(Vec::new());
    assert_eq!(r.err(), Some(InputKind::Empty));
    let r: Result<GlslBVH, InputKind> = BVH::build_buckets_8(Vec::new());
    assert_eq!(r.err(), Some(InputKind::Empty));
    let r: Result<GlslBVH, InputKind> = BVH::build_buckets_16(Vec::new());
    assert_eq!(r.err(), Some(InputKind::Empty));
    let r: Result<GlslBVH, InputKind> = BVH::build_buckets_num::<3>(Vec::new());
    assert_eq!(r.err(), Some(InputKind::Empty));
    let r = BVHBucketBuidler::<4, GlslBVHNode>::from_iter(Vec::new()).build();
    assert_eq!(r.err(), Some(InputKind::Empty));
}

#[test]
fn limits_leave_room_for_every_position() {
    assert_eq!(MAX_POSITION as u64, u32::MAX as u64);
    assert_eq!(2 * (MAX_ITEMS as u64) - 1, MAX_POSITION as u64);
}

#[test]
fn node_constructors_and_setters() {
    let b = bx([1, 2, 3], [4, 5, 6]);
    let mut n = GlslBVHNode::new_node(b, 9, 4);
    assert_eq!(n, node([1, 2, 3], [4, 5, 6], 9, 4));
    assert!(n.is_node());
    assert!(!n.is_leaf());
    assert_eq!(n.right(), 9);
    assert_eq!(n.miss(), 4);
    n.set_right(11);
    n.set_miss(12);
    assert_eq!(n, node([1, 2, 3], [4, 5, 6], 11, 12));

    let mut l = GlslBVHNode::new_leaf(b, 77, 5);
    assert_eq!(l, leaf([1, 2, 3], [4, 5, 6], 77, 5));
    assert!(l.is_leaf());
    assert!(!l.is_node());
    assert_eq!(l.miss(), 5);
    l.set_miss(0);
    assert_eq!(l, leaf([1, 2, 3], [4, 5, 6], 77, 0));
    assert_eq!(GlslBVHNode::TY_NODE, 0);
    assert_eq!(GlslBVHNode::TY_LEAF, 1);
}

#[test]
fn node_layout_is_densely_packed() {
    assert_eq!(std::mem::size_of::<GlslBVHNode>(), 48);
}
