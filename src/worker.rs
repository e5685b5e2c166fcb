//! Decoding of one partition: its vertices, deduplicated within the partition,
//! its triangles as local indices, and its bounding box.
use vstd::prelude::*;
use ahash::AHashMap;
use crate::mesh_types::{
    bounds_of, coords_of, empty_bounds, Coords, MeshView, ModelBounds, ModelData, Vertex,
};
use crate::stl_format::{
    ascii_coords, binary_coords, read_ascii_vertex, read_binary_vertex, BYTES_PER_TRIANGLE,
    FLOATS_PER_TRIANGLE,
};

verus! {

/// ahash's hash map, opaque here: what it holds is told by `table_entries`.
#[verifier::external_type_specification]
#[verifier::external_body]
#[verifier::reject_recursive_types(K)]
#[verifier::reject_recursive_types(V)]
#[verifier::reject_recursive_types(S)]
pub struct ExAHashMap<K, V, S>(AHashMap<K, V, S>);

/// ahash's hasher builder, the map's default third parameter; opaque here.
#[verifier::external_type_specification]
#[verifier::external_body]
pub struct ExRandomState(ahash::RandomState);

/// A table from each vertex seen in a partition to its local index.
pub type VertexTable = AHashMap<Coords, u32>;

/// The entries of a vertex table: each vertex seen so far and its local index.
pub uninterp spec fn table_entries(m: AHashMap<(u32, u32, u32), u32>) -> Map<(u32, u32, u32), u32>;

/// Relies on `ahash::AHashMap::new`: a map with no entries.
#[verifier::external_body]
fn table_new() -> (r: VertexTable)
    ensures
        table_entries(r).dom().is_empty(),
{
    AHashMap::new()
}

/// Relies on `ahash::AHashMap::get`, which forwards to std's `HashMap::get`:
/// the value stored under the key, if there is one.
#[verifier::external_body]
fn table_get(m: &VertexTable, key: &Coords) -> (r: Option<u32>)
    ensures
        r == (if table_entries(*m).contains_key(*key) {
            Some(table_entries(*m)[*key])
        } else {
            None
        }),
{
    m.get(key).copied()
}

/// Relies on `ahash::AHashMap::insert`, which forwards to std's `HashMap::insert`:
/// the key now maps to the value, and the other entries stay.
#[verifier::external_body]
fn table_insert(m: &mut VertexTable, key: Coords, value: u32)
    ensures
        table_entries(*final(m)) == table_entries(*old(m)).insert(key, value),
{
    m.insert(key, value);
}

/// The distinct vertices of a sequence, each where it first occurs.
pub open spec fn dedup(s: Seq<Coords>) -> Seq<Coords>
    decreases s.len(),
{
    if s.len() == 0 {
        Seq::empty()
    } else {
        let d = dedup(s.drop_last());
        if d.contains(s.last()) {
            d
        } else {
            d.push(s.last())
        }
    }
}

/// For each vertex of a sequence, its position in the deduplicated list.
pub open spec fn local_indices(s: Seq<Coords>) -> Seq<u32> {
    s.map_values(|v: Coords| dedup(s).index_of(v) as u32)
}

/// What a worker makes of the vertex sequence of its partition, when it indexes.
pub open spec fn indexed_part(s: Seq<Coords>) -> MeshView {
    MeshView { vertices: dedup(s), indices: local_indices(s), bounds: bounds_of(s) }
}

/// What a worker makes of the vertex sequence of its partition, when it does not
/// index: every vertex kept, the indices counting up from zero.
pub open spec fn unindexed_part(s: Seq<Coords>) -> MeshView {
    MeshView { vertices: s, indices: Seq::new(s.len(), |i: int| i as u32), bounds: bounds_of(s) }
}

/// A table maps exactly the vertices of `d` to their positions in `d`.
pub open spec fn indexes(m: Map<Coords, u32>, d: Seq<Coords>) -> bool {
    &&& forall|v: Coords| #[trigger] m.contains_key(v) <==> d.contains(v)
    &&& forall|v: Coords| #[trigger]
        m.contains_key(v) ==> m[v] < d.len() && d[m[v] as int] == v
}

/// The deduplicated list holds no vertex twice, holds just the vertices of the
/// sequence, and is no longer than it.
pub proof fn lemma_dedup(s: Seq<Coords>)
    ensures
        dedup(s).no_duplicates(),
        forall|v: Coords| #[trigger] dedup(s).contains(v) <==> s.contains(v),
        dedup(s).len() <= s.len(),
    decreases s.len(),
{
    if s.len() > 0 {
        let init = s.drop_last();
        lemma_dedup(init);
        let d0 = dedup(init);
        let last = s.last();
        assert forall|v: Coords| #[trigger] dedup(s).contains(v) <==> s.contains(v) by {
            let in_init = init.contains(v);
            if in_init {
                let i = choose|i: int| 0 <= i < init.len() && init[i] == v;
                assert(s[i] == v);
            }
            if s.contains(v) && v != last {
                let i = choose|i: int| 0 <= i < s.len() && s[i] == v;
                assert(init[i] == v);
            }
            if v == last {
                assert(s[s.len() - 1] == v);
            }
            if !d0.contains(last) {
                let d = d0.push(last);
                if d0.contains(v) {
                    let j = choose|j: int| 0 <= j < d0.len() && d0[j] == v;
                    assert(d[j] == v);
                }
                if d.contains(v) && v != last {
                    let j = choose|j: int| 0 <= j < d.len() && d[j] == v;
                    assert(d0[j] == v);
                }
                if v == last {
                    assert(d[d0.len() as int] == v);
                }
            }
        }
    }
}

/// In a list without duplicates, the position of the element at `j` is `j`.
pub proof fn lemma_index_of_unique(d: Seq<Coords>, j: int)
    requires
        d.no_duplicates(),
        0 <= j < d.len(),
    ensures
        d.index_of(d[j]) == j,
{
    assert(d.contains(d[j]));
}

/// The partial output of a worker that has folded in the vertices `seen`.
pub open spec fn folded(table: Map<Coords, u32>, out: ModelData, seen: Seq<Coords>) -> bool {
    let d = dedup(seen);
    &&& coords_of(out.vertices@) == d
    &&& indexes(table, d)
    &&& out.indices@.len() == seen.len()
    &&& forall|i: int|
        0 <= i < seen.len() ==> (#[trigger] out.indices@[i]) < d.len() && d[out.indices@[i] as int]
            == seen[i]
    &&& out.bounds == bounds_of(seen)
}


/// Once every vertex of the partition is folded in, the output is the indexed
/// decoding of the partition.
proof fn lemma_folded_complete(table: Map<Coords, u32>, out: ModelData, seen: Seq<Coords>)
    requires
        folded(table, out, seen),
    ensures
        out@ == indexed_part(seen),
{
    lemma_dedup(seen);
    let d = dedup(seen);
    assert forall|i: int| 0 <= i < seen.len() implies out.indices@[i] == local_indices(seen)[i] by {
        let j = out.indices@[i] as int;
        lemma_index_of_unique(d, j);
    }
    assert(out@.indices =~= local_indices(seen));
}

/// Three vertices per triangle: the vertex `i` of a stream belongs to triangle `i / 3`.
proof fn lemma_vertex_in_record(i: int, count: int)
    requires
        0 <= i < 3 * count,
    ensures
        i / 3 < count,
        i % 3 < 3,
{
}

/// An empty partial output.
fn empty_output(capacity: u32) -> (r: ModelData)
    ensures
        r.vertices@.len() == 0,
        r.indices@.len() == 0,
        r.bounds == empty_bounds(),
{
    ModelData {
        vertices: Vec::with_capacity(capacity as usize),
        indices: Vec::with_capacity(capacity as usize),
        bounds: ModelBounds::default(),
    }
}

/// A worker: decodes one partition on its own, deduplicating the vertices it
/// meets within that partition.
pub struct Worker {
    vertex_map: VertexTable,
    id: u32,
    triangles_per_worker: u32,
}

impl Worker {
    /// The worker's identifier.
    pub closed spec fn spec_id(&self) -> u32 {
        self.id
    }

    /// The nominal triangle count of the worker's partition.
    pub closed spec fn spec_triangles(&self) -> u32 {
        self.triangles_per_worker
    }

    /// A worker with the given identifier and nominal partition size.
    pub fn new(id: u32, triangles_per_worker: u32) -> (r: Worker)
        ensures
            r.spec_id() == id,
            r.spec_triangles() == triangles_per_worker,
    {
        Worker { vertex_map: table_new(), id, triangles_per_worker }
    }

    /// Decodes a binary triangle stream, deduplicating vertices within it.
    /// `n` is the expected number of indices, a capacity hint.
    pub fn run_binary(&mut self, bytes: &[u8], n: u32) -> (r: ModelData)
        requires
            bytes@.len() as int % BYTES_PER_TRIANGLE as int == 0,
            3 * (bytes@.len() as int / BYTES_PER_TRIANGLE as int) <= u32::MAX,
        ensures
            r@ == indexed_part(binary_coords(bytes@)),
            final(self).spec_id() == old(self).spec_id(),
            final(self).spec_triangles() == old(self).spec_triangles(),
    {
        self.get_binary_vertices_indexed(bytes, n)
    }

    /// Decodes an ASCII float stream, deduplicating vertices within it.
    pub fn run_ascii(&mut self, floats: &[u32]) -> (r: ModelData)
        requires
            floats@.len() as int % FLOATS_PER_TRIANGLE as int == 0,
            3 * (floats@.len() as int / FLOATS_PER_TRIANGLE as int) <= u32::MAX,
        ensures
            r@ == indexed_part(ascii_coords(floats@)),
            final(self).spec_id() == old(self).spec_id(),
            final(self).spec_triangles() == old(self).spec_triangles(),
    {
        self.get_ascii_vertices_indexed(floats)
    }

    /// Decodes a binary triangle stream keeping every vertex occurrence.
    pub fn get_binary_vertices_unindexed(&self, bytes: &[u8], n: u32) -> (r: ModelData)
        requires
            bytes@.len() as int % BYTES_PER_TRIANGLE as int == 0,
            3 * (bytes@.len() as int / BYTES_PER_TRIANGLE as int) <= u32::MAX,
        ensures
            r@ == unindexed_part(binary_coords(bytes@)),
    {
        let ghost keys = binary_coords(bytes@);
        let count = bytes.len() / BYTES_PER_TRIANGLE;
        let total = 3 * count;
        let mut out = empty_output(n);
        let mut i: usize = 0;
        while i < total
            invariant
                total == keys.len(),
                total <= u32::MAX,
                count == bytes@.len() as int / BYTES_PER_TRIANGLE as int,
                total == 3 * count,
                keys == binary_coords(bytes@),
                i <= total,
                coords_of(out.vertices@) == keys.subrange(0, i as int),
                out.indices@ == Seq::new(i as nat, |j: int| j as u32),
                out.bounds == bounds_of(keys.subrange(0, i as int)),
            decreases total - i,
        {
            proof {
                lemma_vertex_in_record(i as int, count as int);
            }
            let (x, y, z) = read_binary_vertex(bytes, i / 3, i % 3);
            let vertex = Vertex::new(x, y, z);
            let ghost before = keys.subrange(0, i as int);
            out.bounds.update(&vertex);
            out.vertices.push(vertex);
            out.indices.push(i as u32);
            proof {
                let after = keys.subrange(0, i + 1);
                assert(after =~= before.push(vertex@));
                assert(after.drop_last() =~= before);
                assert(coords_of(out.vertices@) =~= after);
                assert(out.indices@ =~= Seq::new((i + 1) as nat, |j: int| j as u32));
            }
            i = i + 1;
        }
        proof {
            assert(keys.subrange(0, total as int) =~= keys);
            assert(coords_of(out.vertices@) =~= keys);
        }
        out
    }

    /// Decodes a binary triangle stream, deduplicating vertices within it.
    pub fn get_binary_vertices_indexed(&mut self, bytes: &[u8], n: u32) -> (r: ModelData)
        requires
            bytes@.len() as int % BYTES_PER_TRIANGLE as int == 0,
            3 * (bytes@.len() as int / BYTES_PER_TRIANGLE as int) <= u32::MAX,
        ensures
            r@ == indexed_part(binary_coords(bytes@)),
            final(self).spec_id() == old(self).spec_id(),
            final(self).spec_triangles() == old(self).spec_triangles(),
    {
        let ghost keys = binary_coords(bytes@);
        self.vertex_map = table_new();
        let count = bytes.len() / BYTES_PER_TRIANGLE;
        let total = 3 * count;
        let mut out = empty_output(n);
        proof {
            assert(keys.subrange(0, 0) =~= Seq::<Coords>::empty());
            assert(coords_of(out.vertices@) =~= Seq::<Coords>::empty());
        }
        let mut i: usize = 0;
        while i < total
            invariant
                total == keys.len(),
                total <= u32::MAX,
                count == bytes@.len() as int / BYTES_PER_TRIANGLE as int,
                total == 3 * count,
                keys == binary_coords(bytes@),
                i <= total,
                self.id == old(self).id,
                self.triangles_per_worker == old(self).triangles_per_worker,
                folded(table_entries(self.vertex_map), out, keys.subrange(0, i as int)),
            decreases total - i,
        {
            proof {
                lemma_vertex_in_record(i as int, count as int);
            }
            let (x, y, z) = read_binary_vertex(bytes, i / 3, i % 3);
            let vertex = Vertex::new(x, y, z);
            self.fold_vertex(vertex, &mut out, Ghost(keys.subrange(0, i as int)));
            assert(keys.subrange(0, i + 1) =~= keys.subrange(0, i as int).push(vertex@));
            i = i + 1;
        }
        proof {
            assert(keys.subrange(0, total as int) =~= keys);
            lemma_folded_complete(table_entries(self.vertex_map), out, keys);
        }
        out
    }

    /// Decodes an ASCII float stream keeping every vertex occurrence.
    pub fn get_ascii_vertices_unindexed(&self, floats: &[u32]) -> (r: ModelData)
        requires
            floats@.len() as int % FLOATS_PER_TRIANGLE as int == 0,
            3 * (floats@.len() as int / FLOATS_PER_TRIANGLE as int) <= u32::MAX,
        ensures
            r@ == unindexed_part(ascii_coords(floats@)),
    {
        let ghost keys = ascii_coords(floats@);
        let count = floats.len() / FLOATS_PER_TRIANGLE;
        let total = 3 * count;
        let mut out = empty_output(total as u32);
        let mut i: usize = 0;
        while i < total
            invariant
                total == keys.len(),
                total <= u32::MAX,
                count == floats@.len() as int / FLOATS_PER_TRIANGLE as int,
                total == 3 * count,
                keys == ascii_coords(floats@),
                i <= total,
                coords_of(out.vertices@) == keys.subrange(0, i as int),
                out.indices@ == Seq::new(i as nat, |j: int| j as u32),
                out.bounds == bounds_of(keys.subrange(0, i as int)),
            decreases total - i,
        {
            proof {
                lemma_vertex_in_record(i as int, count as int);
            }
            let (x, y, z) = read_ascii_vertex(floats, i / 3, i % 3);
            let vertex = Vertex::new(x, y, z);
            let ghost before = keys.subrange(0, i as int);
            out.bounds.update(&vertex);
            out.vertices.push(vertex);
            out.indices.push(i as u32);
            proof {
                let after = keys.subrange(0, i + 1);
                assert(after =~= before.push(vertex@));
                assert(after.drop_last() =~= before);
                assert(coords_of(out.vertices@) =~= after);
                assert(out.indices@ =~= Seq::new((i + 1) as nat, |j: int| j as u32));
            }
            i = i + 1;
        }
        proof {
            assert(keys.subrange(0, total as int) =~= keys);
            assert(coords_of(out.vertices@) =~= keys);
        }
        out
    }

    /// Decodes an ASCII float stream, deduplicating vertices within it.
    pub fn get_ascii_vertices_indexed(&mut self, floats: &[u32]) -> (r: ModelData)
        requires
            floats@.len() as int % FLOATS_PER_TRIANGLE as int == 0,
            3 * (floats@.len() as int / FLOATS_PER_TRIANGLE as int) <= u32::MAX,
        ensures
            r@ == indexed_part(ascii_coords(floats@)),
            final(self).spec_id() == old(self).spec_id(),
            final(self).spec_triangles() == old(self).spec_triangles(),
    {
        let ghost keys = ascii_coords(floats@);
        self.vertex_map = table_new();
        let count = floats.len() / FLOATS_PER_TRIANGLE;
        let total = 3 * count;
        let mut out = empty_output(total as u32);
        proof {
            assert(keys.subrange(0, 0) =~= Seq::<Coords>::empty());
            assert(coords_of(out.vertices@) =~= Seq::<Coords>::empty());
        }
        let mut i: usize = 0;
        while i < total
            invariant
                total == keys.len(),
                total <= u32::MAX,
                count == floats@.len() as int / FLOATS_PER_TRIANGLE as int,
                total == 3 * count,
                keys == ascii_coords(floats@),
                i <= total,
                self.id == old(self).id,
                self.triangles_per_worker == old(self).triangles_per_worker,
                folded(table_entries(self.vertex_map), out, keys.subrange(0, i as int)),
            decreases total - i,
        {
            proof {
                lemma_vertex_in_record(i as int, count as int);
            }
            let (x, y, z) = read_ascii_vertex(floats, i / 3, i % 3);
            let vertex = Vertex::new(x, y, z);
            self.fold_vertex(vertex, &mut out, Ghost(keys.subrange(0, i as int)));
            assert(keys.subrange(0, i + 1) =~= keys.subrange(0, i as int).push(vertex@));
            i = i + 1;
        }
        proof {
            assert(keys.subrange(0, total as int) =~= keys);
            lemma_folded_complete(table_entries(self.vertex_map), out, keys);
        }
        out
    }

    /// `idx` moved past the vertices of the partitions before this worker's,
    /// counting each of them as holding its nominal number of triangles
    /// with three distinct vertices each.
    pub fn calculate_index(&self, idx: u32) -> (r: u32)
        requires
            idx + 3 * self.spec_id() * self.spec_triangles() <= u32::MAX,
        ensures
            r == idx + 3 * self.spec_id() * self.spec_triangles(),
    {
        proof {
            assert(self.id * self.triangles_per_worker * 3 == 3 * self.id * self.triangles_per_worker)
                by (nonlinear_arith);
            assert(0 <= self.id * self.triangles_per_worker * 3) by (nonlinear_arith);
        }
        idx + self.id * self.triangles_per_worker * 3
    }

    /// Where this worker's indices would start among all the partitions'.
    pub fn calculate_starting_index(&self) -> (r: u32)
        requires
            3 * self.spec_id() * self.spec_triangles() <= u32::MAX,
        ensures
            r == 3 * self.spec_id() * self.spec_triangles(),
    {
        self.calculate_index(0)
    }

    /// Returns the local index of `vertex`, appending it to `vector` first if
    /// it has not been seen in this partition.
    fn get_vertex_index(&mut self, vertex: Vertex, vector: &mut Vec<Vertex>) -> (idx: u32)
        requires
            indexes(table_entries(old(self).vertex_map), coords_of(old(vector)@)),
            old(vector)@.len() < u32::MAX,
        ensures
            final(self).id == old(self).id,
            final(self).triangles_per_worker == old(self).triangles_per_worker,
            indexes(table_entries(final(self).vertex_map), coords_of(final(vector)@)),
            final(vector)@ == (if coords_of(old(vector)@).contains(vertex@) {
                old(vector)@
            } else {
                old(vector)@.push(vertex)
            }),
            idx < final(vector)@.len(),
            coords_of(final(vector)@)[idx as int] == vertex@,
    {
        let key = vertex.coords();
        match table_get(&self.vertex_map, &key) {
            Some(idx) => idx,
            None => {
                let ghost before = coords_of(vector@);
                vector.push(vertex);
                let idx = (vector.len() - 1) as u32;
                table_insert(&mut self.vertex_map, key, idx);
                proof {
                    let after = coords_of(vector@);
                    assert(after =~= before.push(key));
                    let m = table_entries(self.vertex_map);
                    assert forall|v: Coords| #[trigger] m.contains_key(v) <==> after.contains(v) by {
                        if after.contains(v) && v != key {
                            let i = choose|i: int| 0 <= i < after.len() && after[i] == v;
                            assert(before[i] == v);
                        }
                        if before.contains(v) {
                            let i = choose|i: int| 0 <= i < before.len() && before[i] == v;
                            assert(after[i] == v);
                        }
                        assert(after[after.len() - 1] == key);
                    }
                }
                idx
            },
        }
    }

    /// Folds the next vertex of the partition into the partial output.
    fn fold_vertex(&mut self, vertex: Vertex, out: &mut ModelData, Ghost(seen): Ghost<Seq<Coords>>)
        requires
            folded(table_entries(old(self).vertex_map), *old(out), seen),
            seen.len() < u32::MAX,
        ensures
            final(self).id == old(self).id,
            final(self).triangles_per_worker == old(self).triangles_per_worker,
            folded(table_entries(final(self).vertex_map), *final(out), seen.push(vertex@)),
    {
        proof {
            lemma_dedup(seen);
        }
        out.bounds.update(&vertex);
        let idx = self.get_vertex_index(vertex, &mut out.vertices);
        out.indices.push(idx);
        proof {
            let s2 = seen.push(vertex@);
            assert(s2.drop_last() =~= seen);
            assert(s2.last() == vertex@);
            let d = dedup(s2);
            assert(coords_of(out.vertices@) =~= d);
            assert forall|i: int| 0 <= i < s2.len() implies (#[trigger] out.indices@[i]) < d.len()
                && d[out.indices@[i] as int] == s2[i] by {
                if i < seen.len() {
                    assert(out.indices@[i] == old(out).indices@[i]);
                    assert(dedup(seen).len() <= d.len());
                    assert(d[old(out).indices@[i] as int] == dedup(seen)[old(out).indices@[i] as int]);
                }
            }
        }
    }
}

} // verus!
