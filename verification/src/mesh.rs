//! Triangle meshes on the grid, and the tree over a mesh's triangles.

use vstd::prelude::*;
use crate::aabb::{AABB, IndexedAABB};
use crate::bvh::{BVH, InputKind};
use crate::glsl_bvh::GlslBVH;
use crate::split::Strategy;

verus! {

/// A vertex: its grid position, padded to four components.
#[derive(Copy, Clone, Debug, PartialEq, Eq)]
pub struct Vert {
    pub pos: [i32; 4],
}

impl Vert {
    /// The position without the padding.
    pub open spec fn point(self) -> [i32; 3] {
        [self.pos[0], self.pos[1], self.pos[2]]
    }
}

/// The box of the triangle with the corners `a`, `b` and `c`.
pub open spec fn triangle_box(a: Vert, b: Vert, c: Vert) -> AABB {
    AABB::point(a.point()).spec_grow(AABB::point(b.point())).spec_grow(AABB::point(c.point()))
}

impl From<[Vert; 3]> for AABB {
    fn from(src: [Vert; 3]) -> (r: Self) {
        let v1 = src[0].pos;
        let v2 = src[1].pos;
        let v3 = src[2].pos;
        let a = AABB { min: [v1[0], v1[1], v1[2]], max: [v1[0], v1[1], v1[2]] };
        let b = AABB { min: [v2[0], v2[1], v2[2]], max: [v2[0], v2[1], v2[2]] };
        let c = AABB { min: [v3[0], v3[1], v3[2]], max: [v3[0], v3[1], v3[2]] };
        proof {
            assert(a.min =~= src[0].point());
            assert(b.min =~= src[1].point());
            assert(c.min =~= src[2].point());
        }
        a.grow(b).grow(c)
    }
}

impl vstd::std_specs::convert::FromSpecImpl<[Vert; 3]> for AABB {
    open spec fn obeys_from_spec() -> bool {
        true
    }

    open spec fn from_spec(src: [Vert; 3]) -> Self {
        triangle_box(src[0], src[1], src[2])
    }
}

/// The four bytes of `w`, the lowest first.
pub open spec fn low_first(w: u32) -> Seq<u8> {
    seq![
        (w % 0x100) as u8,
        (w / 0x100 % 0x100) as u8,
        (w / 0x1_0000 % 0x100) as u8,
        (w / 0x100_0000) as u8,
    ]
}

/// The four bytes of `w`, the highest first.
pub open spec fn high_first(w: u32) -> Seq<u8> {
    seq![
        (w / 0x100_0000) as u8,
        (w / 0x1_0000 % 0x100) as u8,
        (w / 0x100 % 0x100) as u8,
        (w % 0x100) as u8,
    ]
}

/// Whether `bytes` holds the words of `words` one after the other, four bytes
/// each, all in the one byte order or all in the other.
pub open spec fn holds_words(bytes: Seq<u8>, words: Seq<u32>) -> bool {
    &&& bytes.len() == 4 * words.len()
    &&& {
        ||| forall|i: int|
            0 <= i < words.len() ==> bytes.subrange(4 * i, 4 * i + 4) == low_first(#[trigger] words[i])
        ||| forall|i: int|
            0 <= i < words.len() ==> bytes.subrange(4 * i, 4 * i + 4) == high_first(#[trigger] words[i])
    }
}

/// `bytemuck::cast_slice` from `u32` to `u8`: the words seen as the bytes that
/// they occupy in memory. The contract claims that there are four bytes for
/// each word, in the byte order of the machine, which is one of the two. For
/// these two types the cast cannot fail: a byte needs no alignment, and any
/// number of bytes is a whole number of bytes.
#[verifier::external_body]
fn words_as_bytes(words: &[u32]) -> (r: &[u8])
    ensures
        holds_words(r@, words@),
{
    bytemuck::cast_slice(words)
}

/// A triangle mesh: vertices, and three vertex indices for each triangle.
pub struct Mesh {
    pub verts: Vec<Vert>,
    pub indices: Vec<u32>,
}

impl Mesh {
    /// Whether every index names a vertex, and every position in `indices`
    /// fits into a leaf's four-byte index.
    pub open spec fn wf(&self) -> bool {
        &&& self.indices.len() <= 0xFFFF_FFFF
        &&& forall|i: int| 0 <= i < self.indices.len() ==> (#[trigger] self.indices@[i]) < self.verts.len()
    }

    /// The number of whole triangles.
    pub open spec fn triangle_count(&self) -> nat {
        (self.indices.len() / 3) as nat
    }

    /// The triangle whose first index stands at `index` in `indices`.
    pub open spec fn spec_tri(&self, index: int) -> [Vert; 3] {
        [
            self.verts@[self.indices@[index] as int],
            self.verts@[self.indices@[index + 1] as int],
            self.verts@[self.indices@[index + 2] as int],
        ]
    }

    /// The mesh's triangles as the builders take them: triangle `i` is named
    /// by the position `3 * i` of its first index.
    pub open spec fn triangle_items(&self) -> Seq<IndexedAABB<u32>> {
        Seq::new(
            self.triangle_count(),
            |i: int|
                IndexedAABB {
                    index: (3 * i) as u32,
                    aabb: triangle_box(
                        self.spec_tri(3 * i)[0],
                        self.spec_tri(3 * i)[1],
                        self.spec_tri(3 * i)[2],
                    ),
                },
        )
    }

    pub fn get_tri(&self, index: usize) -> (r: [Vert; 3])
        requires
            index + 2 < self.indices.len(),
            forall|k: int| index <= k <= index + 2 ==> (#[trigger] self.indices@[k]) < self.verts.len(),
        ensures
            r == self.spec_tri(index as int),
    {
        let r = [
            self.verts[self.indices[index] as usize],
            self.verts[self.indices[index + 1] as usize],
            self.verts[self.indices[index + 2] as usize],
        ];
        assert(r =~= self.spec_tri(index as int));
        r
    }

    pub fn get_for_tri(&self, indices: &[usize; 3]) -> (r: [Vert; 3])
        requires
            forall|k: int| 0 <= k < 3 ==> indices[k] < self.verts.len(),
        ensures
            forall|k: int| 0 <= k < 3 ==> r[k] == self.verts@[indices[k] as int],
    {
        [self.verts[indices[0]], self.verts[indices[1]], self.verts[indices[2]]]
    }

    /// The indices as the bytes of an index buffer.
    pub fn index_bytes(&self) -> (r: &[u8])
        ensures
            holds_words(r@, self.indices@),
    {
        words_as_bytes(self.indices.as_slice())
    }

    /// Builds the tree over the mesh's triangles, with 16 buckets.
    pub fn create_bvh_glsl(&self) -> (r: Result<GlslBVH, InputKind>)
        requires
            self.wf(),
        ensures
            match r {
                Ok(tree) => self.triangle_count() > 0 && tree.is_built(
                    Strategy::Buckets(16),
                    self.triangle_items(),
                ),
                Err(InputKind::Empty) => self.triangle_count() == 0,
                Err(InputKind::TooLarge) => false,
            },
    {
        let count = self.indices.len() / 3;
        let mut items: Vec<IndexedAABB<u32>> = Vec::new();
        let mut i: usize = 0;
        while i < count
            invariant
                i <= count,
                count == self.indices.len() / 3,
                self.wf(),
                items.len() == i,
                forall|j: int| 0 <= j < i ==> #[trigger] items@[j] == self.triangle_items()[j],
            decreases count - i,
        {
            let tri = self.get_tri(i * 3);
            let aabb: AABB = AABB::from(tri);
            items.push(IndexedAABB { index: (i * 3) as u32, aabb });
            i += 1;
        }
        proof {
            assert(items@ =~= self.triangle_items());
        }
        BVH::build_buckets_16(items)
    }
}

} // verus!
