//! Vertices, bounding boxes and the decoded mesh.
use vstd::prelude::*;
use crate::float_bits::{
    float_le, is_nan, max_bits, max_of_bits, min_bits, min_of_bits, NEG_INFINITY, POS_INFINITY,
};

verus! {

/// The three coordinates of a point, as the bit patterns of single-precision floats.
pub type Coords = (u32, u32, u32);

/// A point in space. Two vertices are equal exactly when their coordinates
/// are bit-for-bit equal.
#[derive(Debug, Clone, Copy)]
pub struct Vertex {
    pub pos: [u32; 3],
}

impl View for Vertex {
    type V = Coords;

    open spec fn view(&self) -> Coords {
        (self.pos@[0], self.pos@[1], self.pos@[2])
    }
}

impl Vertex {
    /// A vertex with the given coordinate bit patterns.
    pub fn new(x: u32, y: u32, z: u32) -> (r: Vertex)
        ensures
            r@ == (x, y, z),
    {
        Vertex { pos: [x, y, z] }
    }

    /// The coordinates as a triple of bit patterns.
    pub fn coords(&self) -> (r: Coords)
        ensures
            r == self@,
    {
        (self.pos[0], self.pos[1], self.pos[2])
    }
}

impl PartialEq for Vertex {
    fn eq(&self, other: &Vertex) -> (r: bool) {
        self.pos[0] == other.pos[0] && self.pos[1] == other.pos[1] && self.pos[2] == other.pos[2]
    }
}

impl vstd::std_specs::cmp::PartialEqSpecImpl for Vertex {
    open spec fn obeys_eq_spec() -> bool {
        true
    }

    open spec fn eq_spec(&self, other: &Vertex) -> bool {
        self@ == other@
    }
}

impl Eq for Vertex {
}


/// Closed interval per axis, `(min, max)`, as bit patterns.
pub type Range = (u32, u32);

/// Axis-aligned bounding box. The empty box has `min = +inf` and `max = -inf`
/// on every axis, so that the first point folded in sets both ends.
#[derive(Debug, Clone, Copy)]
pub struct ModelBounds {
    pub x: Range,
    pub y: Range,
    pub z: Range,
}

/// The empty box.
pub open spec fn empty_bounds() -> ModelBounds {
    ModelBounds {
        x: (POS_INFINITY, NEG_INFINITY),
        y: (POS_INFINITY, NEG_INFINITY),
        z: (POS_INFINITY, NEG_INFINITY),
    }
}

/// An interval widened to take in the coordinate `c`.
pub open spec fn widen(r: Range, c: u32) -> Range {
    (min_bits(r.0, c), max_bits(r.1, c))
}

/// The smallest interval holding two intervals.
pub open spec fn join(r: Range, s: Range) -> Range {
    (min_bits(r.0, s.0), max_bits(r.1, s.1))
}

/// A box widened to take in the point `v`.
pub open spec fn updated(b: ModelBounds, v: Coords) -> ModelBounds {
    ModelBounds { x: widen(b.x, v.0), y: widen(b.y, v.1), z: widen(b.z, v.2) }
}

/// The smallest box holding two boxes.
pub open spec fn merged(a: ModelBounds, b: ModelBounds) -> ModelBounds {
    ModelBounds { x: join(a.x, b.x), y: join(a.y, b.y), z: join(a.z, b.z) }
}

/// The box of a sequence of points: the empty box with each point folded in, in order.
pub open spec fn bounds_of(vs: Seq<Coords>) -> ModelBounds
    decreases vs.len(),
{
    if vs.len() == 0 {
        empty_bounds()
    } else {
        updated(bounds_of(vs.drop_last()), vs.last())
    }
}

/// No end of any axis is a NaN.
pub open spec fn nan_free(b: ModelBounds) -> bool {
    !is_nan(b.x.0) && !is_nan(b.x.1) && !is_nan(b.y.0) && !is_nan(b.y.1) && !is_nan(b.z.0)
        && !is_nan(b.z.1)
}

/// The coordinate `c` lies in the interval `r`, or is a NaN.
pub open spec fn covers(r: Range, c: u32) -> bool {
    is_nan(c) || (float_le(r.0, c) && float_le(c, r.1))
}

/// Every non-NaN coordinate of `v` lies within `b` on its axis.
pub open spec fn contains(b: ModelBounds, v: Coords) -> bool {
    covers(b.x, v.0) && covers(b.y, v.1) && covers(b.z, v.2)
}

impl ModelBounds {
    /// Folds one point into the box.
    pub fn update(&mut self, vertex: &Vertex)
        ensures
            *final(self) == updated(*old(self), vertex@),
    {
        let (px, py, pz) = vertex.coords();
        self.x = (min_of_bits(self.x.0, px), max_of_bits(self.x.1, px));
        self.y = (min_of_bits(self.y.0, py), max_of_bits(self.y.1, py));
        self.z = (min_of_bits(self.z.0, pz), max_of_bits(self.z.1, pz));
    }

    /// Folds another box into this one, axis by axis.
    pub fn merge_bounds(&mut self, other: &ModelBounds)
        ensures
            *final(self) == merged(*old(self), *other),
    {
        self.x = (min_of_bits(self.x.0, other.x.0), max_of_bits(self.x.1, other.x.1));
        self.y = (min_of_bits(self.y.0, other.y.0), max_of_bits(self.y.1, other.y.1));
        self.z = (min_of_bits(self.z.0, other.z.0), max_of_bits(self.z.1, other.z.1));
    }
}

impl Default for ModelBounds {
    fn default() -> (r: ModelBounds)
        ensures
            r == empty_bounds(),
    {
        ModelBounds {
            x: (POS_INFINITY, NEG_INFINITY),
            y: (POS_INFINITY, NEG_INFINITY),
            z: (POS_INFINITY, NEG_INFINITY),
        }
    }
}

/// Folding a point into a NaN-free box keeps it NaN-free and makes it contain
/// the point, and everything it contained before.
pub proof fn lemma_update_contains(b: ModelBounds, v: Coords, w: Coords)
    requires
        nan_free(b),
    ensures
        nan_free(updated(b, v)),
        contains(updated(b, v), v),
        contains(b, w) ==> contains(updated(b, v), w),
{
}

/// The box of a sequence of points holds no NaN and contains every point.
pub proof fn lemma_bounds_of_contains(vs: Seq<Coords>)
    ensures
        nan_free(bounds_of(vs)),
        forall|i: int| 0 <= i < vs.len() ==> contains(bounds_of(vs), #[trigger] vs[i]),
    decreases vs.len(),
{
    if vs.len() > 0 {
        let init = vs.drop_last();
        lemma_bounds_of_contains(init);
        assert forall|i: int| 0 <= i < vs.len() implies contains(bounds_of(vs), #[trigger] vs[i]) by {
            lemma_update_contains(bounds_of(init), vs.last(), vs[i]);
            if i < vs.len() - 1 {
                assert(vs[i] == init[i]);
            }
        }
        lemma_update_contains(bounds_of(init), vs.last(), vs.last());
    }
}

/// The empty box is neutral for merging, on either side, with any NaN-free box.
pub proof fn lemma_merge_empty(b: ModelBounds)
    requires
        nan_free(b),
    ensures
        merged(empty_bounds(), b) == b,
        merged(b, empty_bounds()) == b,
{
}

/// The box of two sequences put end to end is the merge of their boxes.
pub proof fn lemma_bounds_of_concat(a: Seq<Coords>, b: Seq<Coords>)
    ensures
        bounds_of(a + b) == merged(bounds_of(a), bounds_of(b)),
    decreases b.len(),
{
    lemma_bounds_of_contains(a);
    if b.len() == 0 {
        assert(a + b =~= a);
        lemma_merge_empty(bounds_of(a));
    } else {
        let init = b.drop_last();
        lemma_bounds_of_concat(a, init);
        lemma_bounds_of_contains(init);
        assert((a + b).drop_last() =~= a + init);
        assert((a + b).last() == b.last());
    }
}


/// The coordinates of each vertex of a list, in order.
pub open spec fn coords_of(vs: Seq<Vertex>) -> Seq<Coords> {
    vs.map_values(|v: Vertex| v@)
}

/// An indexed mesh: a vertex list, a triangle index list (three per triangle)
/// and the bounding box.
pub struct ModelData {
    pub vertices: Vec<Vertex>,
    pub indices: Vec<u32>,
    pub bounds: ModelBounds,
}

/// The mathematical value of a [`ModelData`].
pub struct MeshView {
    pub vertices: Seq<Coords>,
    pub indices: Seq<u32>,
    pub bounds: ModelBounds,
}

impl View for ModelData {
    type V = MeshView;

    open spec fn view(&self) -> MeshView {
        MeshView {
            vertices: coords_of(self.vertices@),
            indices: self.indices@,
            bounds: self.bounds,
        }
    }
}

/// Every index names a vertex of the mesh.
pub open spec fn indices_valid(m: MeshView) -> bool {
    forall|i: int| 0 <= i < m.indices.len() ==> (#[trigger] m.indices[i]) < m.vertices.len()
}

/// The triangle soup a mesh stands for: the vertex each index names, in index order.
pub open spec fn resolved(m: MeshView) -> Seq<Coords> {
    m.indices.map_values(|i: u32| m.vertices[i as int])
}

} // verus!
