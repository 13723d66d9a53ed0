use flat_bvh::aabb::{IndexedAABB, AABB};
use flat_bvh::glsl_bvh::GlslBVH;
use flat_bvh::node::BVHNode;

pub trait Pos3 {
    fn pos3(&self) -> [f32; 3];
}

#[derive(Copy, Clone)]
pub struct Vert {
    pub pos: [f32; 4],
}

impl Pos3 for Vert {
    fn pos3(&self) -> [f32; 3] {
        [self.pos[0], self.pos[1], self.pos[2]]
    }
}

/// Grid cells per unit of length.
const SCALE: f32 = 1024.0;

/// The smallest grid box around a triangle.
fn grid_box(src: [Vert; 3]) -> AABB {
    let v1 = src[0].pos3();
    let v2 = src[1].pos3();
    let v3 = src[2].pos3();
    let lo = |k: usize| (v1[k].min(v2[k]).min(v3[k]) * SCALE).floor() as i32;
    let hi = |k: usize| (v1[k].max(v2[k]).max(v3[k]) * SCALE).ceil() as i32;
    AABB { min: [lo(0), lo(1), lo(2)], max: [hi(0), hi(1), hi(2)] }
}

pub struct Mesh {
    pub verts: Vec<Vert>,
    pub tris: Vec<[usize; 3]>,
}

impl Mesh {
    pub fn get_for_tri(&self, indices: &[usize; 3]) -> [Vert; 3] {
        [self.verts[indices[0]], self.verts[indices[1]], self.verts[indices[2]]]
    }
}

/// A head-sized bumpy ball as the text of an OBJ file.
fn ball_obj(rings: usize, segments: usize) -> String {
    let mut text = String::from("o ball\n");
    for r in 0..=rings {
        let theta = std::f32::consts::PI * (r as f32) / (rings as f32);
        for s in 0..segments {
            let phi = 2.0 * std::f32::consts::PI * (s as f32) / (segments as f32);
            let bump = 1.0 + 0.2 * (3.0 * phi).sin() * (2.0 * theta).sin();
            let x = bump * theta.sin() * phi.cos();
            let y = bump * theta.cos();
            let z = bump * theta.sin() * phi.sin();
            text.push_str(&format!("v {} {} {}\n", x, y, z));
        }
    }
    for r in 0..rings {
        for s in 0..segments {
            let a = r * segments + s + 1;
            let b = r * segments + (s + 1) % segments + 1;
            let c = (r + 1) * segments + s + 1;
            let d = (r + 1) * segments + (s + 1) % segments + 1;
            text.push_str(&format!("f {} {} {}\n", a, c, b));
            text.push_str(&format!("f {} {} {}\n", b, c, d));
        }
    }
    text
}

fn load_suzanne() -> Mesh {
    let text = ball_obj(16, 24);
    let mut reader = std::io::Cursor::new(text.into_bytes());
    let suzanne = tobj::load_obj_buf(&mut reader, &tobj::LoadOptions::default(), |_| {
        Err(tobj::LoadError::OpenFileFailed)
    })
    .unwrap()
    .0;

    let verts = (0..(suzanne[0].mesh.positions.len() / 3))
        .into_iter()
        .map(|i| Vert {
            pos: [
                suzanne[0].mesh.positions[i * 3],
                suzanne[0].mesh.positions[i * 3 + 1],
                suzanne[0].mesh.positions[i * 3 + 2],
                0.,
            ],
        })
        .collect();

    let tris = (0..(suzanne[0].mesh.indices.len() / 3))
        .into_iter()
        .map(|i| {
            [
                suzanne[0].mesh.indices[i * 3] as usize,
                suzanne[0].mesh.indices[i * 3 + 1] as usize,
                suzanne[0].mesh.indices[i * 3 + 2] as usize,
            ]
        })
        .collect();

    Mesh { verts, tris }
}

fn triangles(mesh: &Mesh) -> Vec<IndexedAABB<u32>> {
    mesh.tris
        .iter()
        .enumerate()
        .map(|(i, tri)| IndexedAABB::from((i as u32, grid_box(mesh.get_for_tri(tri)))))
        .collect()
}

#[test]
pub fn test_suzanne_8() {
    let mesh = load_suzanne();
    assert_eq!(mesh.tris.len(), 16 * 24 * 2);

    for _ in 0..1 {
        let tree = GlslBVH::build_buckets_8(triangles(&mesh)).unwrap();
        assert_eq!(tree.nodes().len(), 2 * mesh.tris.len() - 1);
        assert_eq!(tree.nodes().iter().filter(|n| n.is_leaf()).count(), mesh.tris.len());
    }
}

#[test]
pub fn test_suzanne_16() {
    let mesh = load_suzanne();
    assert_eq!(mesh.tris.len(), 16 * 24 * 2);

    for _ in 0..1 {
        let tree = GlslBVH::build_buckets_16(triangles(&mesh)).unwrap();
        assert_eq!(tree.nodes().len(), 2 * mesh.tris.len() - 1);
        assert_eq!(tree.nodes().iter().filter(|n| n.is_leaf()).count(), mesh.tris.len());
    }
}
