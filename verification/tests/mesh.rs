use flat_bvh::aabb::AABB;
use flat_bvh::bvh::InputKind;
use flat_bvh::mesh::{Mesh, Vert};
use flat_bvh::model::Model;
use flat_bvh::world::World;
use flat_bvh::node::BVHNode;

fn v(x: i32, y: i32, z: i32) -> Vert {
    Vert { pos: [x, y, z, 0] }
}

fn quad() -> Mesh {
    Mesh {
        verts: vec![v(0, 0, 0), v(4, 0, 0), v(4, 4, 1), v(0, 4, 0)],
        indices: vec![0, 1, 2, 0, 2, 3],
    }
}

#[test]
fn a_triangle_is_read_through_the_indices() {
    let m = quad();
    assert_eq!(m.get_tri(0), [v(0, 0, 0), v(4, 0, 0), v(4, 4, 1)]);
    assert_eq!(m.get_tri(3), [v(0, 0, 0), v(4, 4, 1), v(0, 4, 0)]);
    assert_eq!(m.get_for_tri(&[3, 1, 0]), [v(0, 4, 0), v(4, 0, 0), v(0, 0, 0)]);
}

#[test]
fn the_box_of_a_triangle() {
    let b = AABB::from([v(1, 5, -2), v(-3, 6, 0), v(2, 4, 7)]);
    assert_eq!(b, AABB { min: [-3, 4, -2], max: [2, 6, 7] });
}

#[test]
fn the_tree_over_a_mesh_names_triangles_by_their_first_index() {
    let tree = quad().create_bvh_glsl().unwrap();
    let nodes = tree.nodes();
    assert_eq!(nodes.len(), 3);
    assert_eq!(tree.aabb(), AABB { min: [0, 0, 0], max: [4, 4, 1] });
    let mut names: Vec<u32> = nodes.iter().filter(|n| n.is_leaf()).map(|n| n.right).collect();
    names.sort();
    assert_eq!(names, vec![0, 3]);
}

#[test]
fn a_mesh_without_a_whole_triangle_has_no_tree() {
    let m = Mesh { verts: vec![v(0, 0, 0), v(1, 1, 1)], indices: vec![0, 1] };
    assert_eq!(m.create_bvh_glsl().err(), Some(InputKind::Empty));
    let none = Mesh { verts: Vec::new(), indices: Vec::new() };
    assert_eq!(none.create_bvh_glsl().err(), Some(InputKind::Empty));
}

#[test]
fn a_model_holds_the_tree_over_its_mesh() {
    let model = Model::from_obj_model(quad()).unwrap();
    assert_eq!(model.aabb(), AABB { min: [0, 0, 0], max: [4, 4, 1] });
    assert_eq!(model.mesh().indices, vec![0, 1, 2, 0, 2, 3]);
    assert_eq!(model.bvh().nodes, quad().create_bvh_glsl().unwrap().nodes);
    let mut again = Model::from_obj_model(quad()).unwrap();
    again.create_bvh();
    assert_eq!(again.bvh().nodes, model.bvh().nodes);
    assert_eq!(again.aabb(), model.aabb());
}

#[test]
fn a_model_needs_a_triangle() {
    let m = Mesh { verts: vec![v(0, 0, 0)], indices: vec![0, 0] };
    assert_eq!(Model::from_obj_model(m).err(), Some(InputKind::Empty));
}

#[test]
fn the_tree_over_a_world_names_models_by_their_position() {
    let mut far = quad();
    for vert in far.verts.iter_mut() {
        vert.pos[0] += 100;
    }
    let mut world = World::new();
    assert!(world.models.is_empty());
    assert!(world.bvh.is_none());
    world.models.push(Model::from_obj_model(far).unwrap());
    world.models.push(Model::from_obj_model(quad()).unwrap());
    assert_eq!(world.create_bvh(), Ok(()));
    let tree = world.bvh.as_ref().unwrap();
    assert_eq!(tree.aabb(), AABB { min: [0, 0, 0], max: [104, 4, 1] });
    let nodes = tree.nodes();
    assert_eq!(nodes.len(), 3);
    assert_eq!(nodes[1].right, 0);
    assert_eq!(&nodes[1].min[..3], &[100, 0, 0]);
    assert_eq!(nodes[2].right, 1);
    assert_eq!(&nodes[2].max[..3], &[4, 4, 1]);
}

#[test]
fn a_world_without_models_has_no_tree() {
    let mut world = World::new();
    assert_eq!(world.create_bvh(), Err(InputKind::Empty));
    assert!(world.bvh.is_none());
}

#[test]
fn the_index_buffer_holds_every_index_in_four_bytes() {
    let m = Mesh {
        verts: vec![v(0, 0, 0); 70_000],
        indices: vec![0, 1, 258, 66_051, 69_999, 3],
    };
    let bytes = m.index_bytes();
    assert_eq!(bytes.len(), 24);
    let expected: Vec<u8> = m.indices.iter().flat_map(|i| i.to_ne_bytes()).collect();
    assert_eq!(bytes, &expected[..]);
    let low_first: Vec<u8> = m.indices.iter().flat_map(|i| i.to_le_bytes()).collect();
    let high_first: Vec<u8> = m.indices.iter().flat_map(|i| i.to_be_bytes()).collect();
    assert!(bytes == &low_first[..] || bytes == &high_first[..]);
    assert_eq!(&low_first[8..12], &[2, 1, 0, 0]);
    assert_eq!(&high_first[12..16], &[0, 1, 2, 3]);
    let none = Mesh { verts: Vec::new(), indices: Vec::new() };
    assert!(none.index_bytes().is_empty());
}
