//! Axis-aligned boxes on an integer grid.
//!
//! Coordinates are `i32` grid positions, so that every operation on a box is
//! exact: unions, extents, centroids and surface areas are plain integer
//! arithmetic, and the facts proved about them hold without any tolerance.

use vstd::prelude::*;

verus! {

/// One of the three coordinate axes.
#[derive(Clone, Copy, Debug, PartialEq, Eq, Structural)]
pub enum Axis {
    X,
    Y,
    Z,
}

impl Axis {
    /// The position of the axis in a coordinate triple.
    pub open spec fn index(self) -> int {
        match self {
            Axis::X => 0,
            Axis::Y => 1,
            Axis::Z => 2,
        }
    }
}

impl From<Axis> for usize {
    #[inline]
    fn from(src: Axis) -> (r: usize) {
        match src {
            Axis::X => 0,
            Axis::Y => 1,
            Axis::Z => 2,
        }
    }
}

impl vstd::std_specs::convert::FromSpecImpl<Axis> for usize {
    open spec fn obeys_from_spec() -> bool {
        true
    }

    open spec fn from_spec(src: Axis) -> usize {
        match src {
            Axis::X => 0,
            Axis::Y => 1,
            Axis::Z => 2,
        }
    }
}

/// The smaller of two grid coordinates.
pub open spec fn lesser(a: i32, b: i32) -> i32 {
    if a <= b {
        a
    } else {
        b
    }
}

/// The larger of two grid coordinates.
pub open spec fn greater(a: i32, b: i32) -> i32 {
    if a >= b {
        a
    } else {
        b
    }
}

/// The midpoint of two grid coordinates, rounded towards negative infinity.
pub open spec fn midpoint(a: i32, b: i32) -> i32 {
    ((a + b) / 2) as i32
}

/// An axis-aligned box, given by its smallest and its largest corner.
///
/// A box that holds at least one grid point has `min[k] <= max[k]` on every
/// axis. The box of nothing, [`AABB::empty`], has the largest coordinate as its
/// minimum and the smallest as its maximum, which makes it the identity of
/// [`AABB::grow`].
#[derive(Copy, Clone, Debug, PartialEq, Eq)]
pub struct AABB {
    pub min: [i32; 3],
    pub max: [i32; 3],
}

/// A box together with the caller's name for the primitive that it bounds.
/// The builders carry the index through and never look at it.
#[derive(Copy, Clone, Debug)]
pub struct IndexedAABB<I> {
    pub index: I,
    pub aabb: AABB,
}

impl<I> From<(I, AABB)> for IndexedAABB<I> {
    fn from(src: (I, AABB)) -> (r: Self) {
        IndexedAABB { index: src.0, aabb: src.1 }
    }
}

impl<I> vstd::std_specs::convert::FromSpecImpl<(I, AABB)> for IndexedAABB<I> {
    open spec fn obeys_from_spec() -> bool {
        true
    }

    open spec fn from_spec(src: (I, AABB)) -> Self {
        IndexedAABB { index: src.0, aabb: src.1 }
    }
}

impl From<[i32; 3]> for AABB {
    /// The box that holds the single point `src`.
    #[inline]
    fn from(src: [i32; 3]) -> (r: Self) {
        AABB { min: src, max: src }
    }
}

impl vstd::std_specs::convert::FromSpecImpl<[i32; 3]> for AABB {
    open spec fn obeys_from_spec() -> bool {
        true
    }

    open spec fn from_spec(src: [i32; 3]) -> Self {
        AABB { min: src, max: src }
    }
}

impl Default for AABB {
    /// The box that holds only the origin.
    fn default() -> (r: Self)
        ensures
            r == (AABB { min: [0i32, 0i32, 0i32], max: [0i32, 0i32, 0i32] }),
    {
        AABB { min: [0, 0, 0], max: [0, 0, 0] }
    }
}

impl AABB {
    /// The box of nothing.
    pub open spec fn spec_empty() -> AABB {
        AABB {
            min: [i32::MAX, i32::MAX, i32::MAX],
            max: [i32::MIN, i32::MIN, i32::MIN],
        }
    }

    /// The box that holds the single point `p`.
    pub open spec fn point(p: [i32; 3]) -> AABB {
        AABB { min: p, max: p }
    }

    /// Whether the box holds at least one grid point.
    pub open spec fn is_valid(self) -> bool {
        forall|k: int| 0 <= k < 3 ==> self.min[k] <= self.max[k]
    }

    /// The smallest box that holds both `self` and `other`.
    pub open spec fn spec_grow(self, other: AABB) -> AABB {
        AABB {
            min: [
                lesser(self.min[0], other.min[0]),
                lesser(self.min[1], other.min[1]),
                lesser(self.min[2], other.min[2]),
            ],
            max: [
                greater(self.max[0], other.max[0]),
                greater(self.max[1], other.max[1]),
                greater(self.max[2], other.max[2]),
            ],
        }
    }

    /// The length of the box along axis `k`.
    pub open spec fn extent(self, k: int) -> int {
        self.max[k] - self.min[k]
    }

    /// The axis along which the box is longest. Of several longest axes the
    /// first in the order X, Y, Z is taken.
    pub open spec fn spec_largest_axis(self) -> Axis {
        if self.extent(0) >= self.extent(1) && self.extent(0) >= self.extent(2) {
            Axis::X
        } else if self.extent(1) >= self.extent(2) {
            Axis::Y
        } else {
            Axis::Z
        }
    }

    /// The middle of the box, each coordinate rounded towards negative infinity.
    pub open spec fn spec_centroid(self) -> [i32; 3] {
        [
            midpoint(self.min[0], self.max[0]),
            midpoint(self.min[1], self.max[1]),
            midpoint(self.min[2], self.max[2]),
        ]
    }

    /// The surface area of the box: twice the sum of the areas of its three
    /// distinct faces.
    pub open spec fn area(self) -> int {
        2 * (self.extent(0) * self.extent(1) + self.extent(1) * self.extent(2) + self.extent(0)
            * self.extent(2))
    }

    pub fn empty() -> (r: Self)
        ensures
            r == AABB::spec_empty(),
    {
        let r = AABB {
            min: [i32::MAX, i32::MAX, i32::MAX],
            max: [i32::MIN, i32::MIN, i32::MIN],
        };
        assert(r.min =~= AABB::spec_empty().min);
        assert(r.max =~= AABB::spec_empty().max);
        r
    }

    pub fn grow(self, other: AABB) -> (r: AABB)
        ensures
            r == self.spec_grow(other),
    {
        let r = AABB {
            min: [
                smaller_of(self.min[0], other.min[0]),
                smaller_of(self.min[1], other.min[1]),
                smaller_of(self.min[2], other.min[2]),
            ],
            max: [
                larger_of(self.max[0], other.max[0]),
                larger_of(self.max[1], other.max[1]),
                larger_of(self.max[2], other.max[2]),
            ],
        };
        assert(r.min =~= self.spec_grow(other).min);
        assert(r.max =~= self.spec_grow(other).max);
        r
    }

    pub fn largest_axis(&self) -> (r: Axis)
        ensures
            r == self.spec_largest_axis(),
    {
        self.largest_axis_with_size().0
    }

    pub fn largest_axis_with_size(&self) -> (r: (Axis, i64))
        ensures
            r.0 == self.spec_largest_axis(),
            r.1 == self.extent(r.0.index()),
            forall|k: int| 0 <= k < 3 ==> self.extent(k) <= r.1,
    {
        let x_size: i64 = self.max[0] as i64 - self.min[0] as i64;
        let y_size: i64 = self.max[1] as i64 - self.min[1] as i64;
        let z_size: i64 = self.max[2] as i64 - self.min[2] as i64;
        if x_size >= y_size && x_size >= z_size {
            (Axis::X, x_size)
        } else if y_size >= z_size {
            (Axis::Y, y_size)
        } else {
            (Axis::Z, z_size)
        }
    }

    pub fn centroid(&self) -> (r: [i32; 3])
        ensures
            r == self.spec_centroid(),
    {
        let r = [
            halfway(self.min[0], self.max[0]),
            halfway(self.min[1], self.max[1]),
            halfway(self.min[2], self.max[2]),
        ];
        assert(r =~= self.spec_centroid());
        r
    }

    /// Surface area of the box.
    pub fn surface_area(&self) -> (r: i128)
        ensures
            r == self.area(),
            -0x8_0000_0000_0000_0000 <= r <= 0x8_0000_0000_0000_0000,
    {
        let dx: i128 = self.max[0] as i128 - self.min[0] as i128;
        let dy: i128 = self.max[1] as i128 - self.min[1] as i128;
        let dz: i128 = self.max[2] as i128 - self.min[2] as i128;
        proof {
            lemma_product_bound(dx as int, dy as int);
            lemma_product_bound(dy as int, dz as int);
            lemma_product_bound(dx as int, dz as int);
        }
        2 * (dx * dy + dy * dz + dx * dz)
    }
}

fn smaller_of(a: i32, b: i32) -> (r: i32)
    ensures
        r == lesser(a, b),
{
    if a <= b {
        a
    } else {
        b
    }
}

fn larger_of(a: i32, b: i32) -> (r: i32)
    ensures
        r == greater(a, b),
{
    if a >= b {
        a
    } else {
        b
    }
}

fn halfway(a: i32, b: i32) -> (r: i32)
    ensures
        r == midpoint(a, b),
{
    let s: i64 = a as i64 + b as i64;
    if s >= 0 {
        (s / 2) as i32
    } else {
        (-((1 - s) / 2)) as i32
    }
}

proof fn lemma_product_bound(a: int, b: int)
    requires
        -0x1_0000_0000 < a < 0x1_0000_0000,
        -0x1_0000_0000 < b < 0x1_0000_0000,
    ensures
        -0x1_0000_0000_0000_0000 <= a * b <= 0x1_0000_0000_0000_0000,
{
    assert(-0x1_0000_0000_0000_0000 <= a * b <= 0x1_0000_0000_0000_0000) by (nonlinear_arith)
        requires
            -0x1_0000_0000 < a < 0x1_0000_0000,
            -0x1_0000_0000 < b < 0x1_0000_0000,
    ;
}

/// Growing is commutative.
pub proof fn lemma_grow_commutative(a: AABB, b: AABB)
    ensures
        a.spec_grow(b) == b.spec_grow(a),
{
    assert(a.spec_grow(b).min =~= b.spec_grow(a).min);
    assert(a.spec_grow(b).max =~= b.spec_grow(a).max);
}

/// Growing is associative.
pub proof fn lemma_grow_associative(a: AABB, b: AABB, c: AABB)
    ensures
        a.spec_grow(b).spec_grow(c) == a.spec_grow(b.spec_grow(c)),
{
    assert(a.spec_grow(b).spec_grow(c).min =~= a.spec_grow(b.spec_grow(c)).min);
    assert(a.spec_grow(b).spec_grow(c).max =~= a.spec_grow(b.spec_grow(c)).max);
}

/// The box of nothing is the identity of growing, on either side.
pub proof fn lemma_grow_empty(a: AABB)
    ensures
        a.spec_grow(AABB::spec_empty()) == a,
        AABB::spec_empty().spec_grow(a) == a,
{
    assert(a.spec_grow(AABB::spec_empty()).min =~= a.min);
    assert(a.spec_grow(AABB::spec_empty()).max =~= a.max);
    assert(AABB::spec_empty().spec_grow(a).min =~= a.min);
    assert(AABB::spec_empty().spec_grow(a).max =~= a.max);
}

/// The union of the boxes of `items`, taken from the left; the box of nothing
/// where there are none.
pub open spec fn union_of<I>(items: Seq<IndexedAABB<I>>) -> AABB
    decreases items.len(),
{
    if items.len() == 0 {
        AABB::spec_empty()
    } else {
        union_of(items.drop_last()).spec_grow(items.last().aabb)
    }
}

/// The union of one item is its own box.
pub proof fn lemma_union_single<I>(items: Seq<IndexedAABB<I>>)
    requires
        items.len() == 1,
    ensures
        union_of(items) == items[0].aabb,
{
    assert(union_of(items.drop_last()) == AABB::spec_empty());
    lemma_grow_empty(items[0].aabb);
}

/// The union of a concatenation is the union of the two unions.
pub proof fn lemma_union_concat<I>(a: Seq<IndexedAABB<I>>, b: Seq<IndexedAABB<I>>)
    ensures
        union_of(a + b) == union_of(a).spec_grow(union_of(b)),
    decreases b.len(),
{
    if b.len() == 0 {
        assert(a + b =~= a);
        lemma_grow_empty(union_of(a));
    } else {
        assert((a + b).drop_last() =~= a + b.drop_last());
        assert((a + b).last() == b.last());
        lemma_union_concat(a, b.drop_last());
        lemma_grow_associative(union_of(a), union_of(b.drop_last()), b.last().aabb);
    }
}

/// The union of the boxes of `items[from..to]`.
pub fn union_range<I>(items: &Vec<IndexedAABB<I>>, from: usize, to: usize) -> (r: AABB)
    requires
        from <= to <= items.len(),
    ensures
        r == union_of(items@.subrange(from as int, to as int)),
{
    let mut acc = AABB::empty();
    let mut i: usize = from;
    while i < to
        invariant
            from <= i <= to <= items.len(),
            acc == union_of(items@.subrange(from as int, i as int)),
        decreases to - i,
    {
        proof {
            let next = items@.subrange(from as int, i + 1);
            assert(next.drop_last() =~= items@.subrange(from as int, i as int));
            assert(next.last() == items@[i as int]);
        }
        acc = acc.grow(items[i].aabb);
        i += 1;
    }
    acc
}

} // verus!
