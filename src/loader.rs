//! Partitioning of the triangle stream, the ordered merge of partial results,
//! and whole-file decoding.
use vstd::prelude::*;
use crate::mesh_types::{
    bounds_of, coords_of, empty_bounds, indices_valid, merged, resolved, Coords, MeshView,
    ModelBounds, ModelData, Vertex,
};
use crate::stl_format::{
    ascii_coords, binary_coords, format_of, header_count, read_triangle_count, sniff_format,
    StlFormat, BYTES_PER_TRIANGLE, FLOATS_PER_TRIANGLE, HEADER_BYTES,
};
use crate::worker::{dedup, indexed_part, lemma_dedup, local_indices, Worker};
use std::time::SystemTime;

verus! {

/// The first and one-past-last triangle of partition `n` when `count` triangles
/// are split over `threads` partitions: each gets `count / threads`, and the
/// last one also takes the remainder.
pub open spec fn part_range(count: nat, threads: nat, n: nat) -> (nat, nat) {
    let per = count / threads;
    (per * n, if n + 1 == threads { count } else { per * (n + 1) })
}

/// The partitions tile `[0, count)`: each is ordered, the first starts at 0,
/// each starts where the previous one ends, and the last ends at `count`.
pub proof fn lemma_part_range(count: nat, threads: nat, n: nat)
    requires
        threads >= 1,
        n < threads,
    ensures
        part_range(count, threads, n).0 <= part_range(count, threads, n).1 <= count,
        n == 0 ==> part_range(count, threads, n).0 == 0,
        n + 1 < threads ==> part_range(count, threads, n).1 == part_range(count, threads, n + 1).0,
        n + 1 == threads ==> part_range(count, threads, n).1 == count,
{
    let per = count / threads;
    assert(per * threads <= count) by (nonlinear_arith)
        requires
            per == count / threads,
            threads >= 1,
    ;
    assert(per * n <= per * (n + 1) <= per * threads) by (nonlinear_arith)
        requires
            n < threads,
    ;
}

/// The triangle range of partition `n`.
pub fn partition(count: u32, threads: u32, n: u32) -> (r: (u32, u32))
    requires
        threads >= 1,
        n < threads,
    ensures
        r.0 == part_range(count as nat, threads as nat, n as nat).0,
        r.1 == part_range(count as nat, threads as nat, n as nat).1,
{
    proof {
        lemma_part_range(count as nat, threads as nat, n as nat);
    }
    let per = count / threads;
    let start = per * n;
    if n + 1 == threads {
        (start, count)
    } else {
        (start, per * (n + 1))
    }
}

/// The mesh with nothing in it.
pub open spec fn empty_mesh() -> MeshView {
    MeshView { vertices: Seq::empty(), indices: Seq::empty(), bounds: empty_bounds() }
}

/// Indices moved up by `offset`.
pub open spec fn shifted(indices: Seq<u32>, offset: nat) -> Seq<u32> {
    indices.map_values(|i: u32| (i + offset) as u32)
}

/// `part` appended to `acc`: its vertices after those of `acc`, its indices
/// moved past them, and the two boxes merged.
pub open spec fn append_mesh(acc: MeshView, part: MeshView) -> MeshView {
    MeshView {
        vertices: acc.vertices + part.vertices,
        indices: acc.indices + shifted(part.indices, acc.vertices.len()),
        bounds: merged(acc.bounds, part.bounds),
    }
}

/// The partial meshes appended in order.
pub open spec fn merge_all(parts: Seq<MeshView>) -> MeshView
    decreases parts.len(),
{
    if parts.len() == 0 {
        empty_mesh()
    } else {
        append_mesh(merge_all(parts.drop_last()), parts.last())
    }
}

/// The vertex sequences of the partitions put end to end.
pub open spec fn joined(parts: Seq<Seq<Coords>>) -> Seq<Coords>
    decreases parts.len(),
{
    if parts.len() == 0 {
        Seq::empty()
    } else {
        joined(parts.drop_last()) + parts.last()
    }
}

/// The indexed decoding of each partition.
pub open spec fn indexed_parts(parts: Seq<Seq<Coords>>) -> Seq<MeshView> {
    parts.map_values(|p: Seq<Coords>| indexed_part(p))
}

/// Facts about the indexed decoding of one partition: an index per vertex
/// occurrence, each naming a vertex equal to that occurrence.
proof fn lemma_indexed_part(s: Seq<Coords>)
    requires
        s.len() <= u32::MAX,
    ensures
        indexed_part(s).indices.len() == s.len(),
        indexed_part(s).vertices.len() <= s.len(),
        indices_valid(indexed_part(s)),
        resolved(indexed_part(s)) == s,
{
    lemma_dedup(s);
    let d = dedup(s);
    assert forall|i: int| 0 <= i < s.len() implies (#[trigger] local_indices(s)[i]) < d.len()
        && d[local_indices(s)[i] as int] == s[i] by {
        assert(s.contains(s[i]));
        assert(d.contains(s[i]));
        let j = choose|j: int| 0 <= j < d.len() && d[j] == s[i];
        crate::worker::lemma_index_of_unique(d, j);
    }
    assert(resolved(indexed_part(s)) =~= s);
}

/// Merging the indexed decodings of partitions gives one index per vertex
/// occurrence of the whole stream, each naming a vertex equal to that
/// occurrence, and the box of the whole stream.
pub proof fn lemma_merge_parts(parts: Seq<Seq<Coords>>)
    requires
        joined(parts).len() <= u32::MAX,
    ensures
        merge_all(indexed_parts(parts)).indices.len() == joined(parts).len(),
        merge_all(indexed_parts(parts)).vertices.len() <= joined(parts).len(),
        indices_valid(merge_all(indexed_parts(parts))),
        resolved(merge_all(indexed_parts(parts))) == joined(parts),
        merge_all(indexed_parts(parts)).bounds == bounds_of(joined(parts)),
    decreases parts.len(),
{
    if parts.len() == 0 {
        assert(resolved(empty_mesh()) =~= Seq::<Coords>::empty());
    } else {
        let init = parts.drop_last();
        let p = parts.last();
        assert(indexed_parts(parts).drop_last() =~= indexed_parts(init));
        assert(indexed_parts(parts).last() == indexed_part(p));
        lemma_merge_parts(init);
        lemma_indexed_part(p);
        crate::mesh_types::lemma_bounds_of_concat(joined(init), p);
        let acc = merge_all(indexed_parts(init));
        let q = indexed_part(p);
        let m = merge_all(indexed_parts(parts));
        let off = acc.vertices.len();
        assert forall|i: int| 0 <= i < m.indices.len() implies (#[trigger] m.indices[i])
            < m.vertices.len() && m.vertices[m.indices[i] as int] == joined(parts)[i] by {
            if i < acc.indices.len() {
                assert(m.indices[i] == acc.indices[i]);
                assert(resolved(acc)[i] == joined(init)[i]);
            } else {
                let j = i - acc.indices.len();
                assert(m.indices[i] == (q.indices[j] + off) as u32);
                assert(resolved(q)[j] == p[j]);
            }
        }
        assert(resolved(m) =~= joined(parts));
    }
}

/// Merging a prefix never yields more indices than merging the whole list.
pub proof fn lemma_merge_indices_prefix(parts: Seq<MeshView>, k: int)
    requires
        0 <= k <= parts.len(),
    ensures
        merge_all(parts.subrange(0, k)).indices.len() <= merge_all(parts).indices.len(),
    decreases parts.len(),
{
    if k < parts.len() {
        assert(parts.drop_last().subrange(0, k) =~= parts.subrange(0, k));
        lemma_merge_indices_prefix(parts.drop_last(), k);
    } else {
        assert(parts.subrange(0, k) =~= parts);
    }
}

/// In a merge, the indices of part `n` stand right after those of the parts
/// before it, moved past their vertices.
pub proof fn lemma_merge_block(parts: Seq<MeshView>, n: int, a: int)
    requires
        0 <= n < parts.len(),
        0 <= a < parts[n].indices.len(),
    ensures
        merge_all(parts).indices[merge_all(parts.subrange(0, n)).indices.len() + a] == (
        parts[n].indices[a] + merge_all(parts.subrange(0, n)).vertices.len()) as u32,
    decreases parts.len(),
{
    let init = parts.drop_last();
    if n == parts.len() - 1 {
        assert(init =~= parts.subrange(0, n));
    } else {
        assert(init.subrange(0, n) =~= parts.subrange(0, n));
        assert(init.subrange(0, n + 1) =~= parts.subrange(0, n + 1));
        assert(parts.subrange(0, n + 1).drop_last() =~= parts.subrange(0, n));
        lemma_merge_indices_prefix(init, n + 1);
        lemma_merge_block(init, n, a);
    }
}

/// The views of a list of meshes.
pub open spec fn views(parts: Seq<ModelData>) -> Seq<MeshView> {
    parts.map_values(|d: ModelData| d@)
}

/// Merging a prefix never yields more vertices than merging the whole list.
pub proof fn lemma_merge_len_prefix(parts: Seq<MeshView>, k: int)
    requires
        0 <= k <= parts.len(),
    ensures
        merge_all(parts.subrange(0, k)).vertices.len() <= merge_all(parts).vertices.len(),
    decreases parts.len(),
{
    if k < parts.len() {
        assert(parts.drop_last().subrange(0, k) =~= parts.subrange(0, k));
        lemma_merge_len_prefix(parts.drop_last(), k);
    } else {
        assert(parts.subrange(0, k) =~= parts);
    }
}

/// The vertex sequence of partition `n`: three vertices per triangle of its range.
pub open spec fn part_keys(keys: Seq<Coords>, count: nat, threads: nat, n: nat) -> Seq<Coords> {
    let (s, e) = part_range(count, threads, n);
    keys.subrange(3 * s as int, 3 * e as int)
}

/// The vertex sequences of the first `k` partitions.
pub open spec fn partitioned(keys: Seq<Coords>, count: nat, threads: nat, k: nat) -> Seq<
    Seq<Coords>,
> {
    Seq::new(k, |n: int| part_keys(keys, count, threads, n as nat))
}

/// The mesh that `threads` workers make of a stream of `count` triangles with
/// vertex sequence `keys`: each partition indexed on its own, the results
/// appended in partition order.
pub open spec fn decoded_mesh(keys: Seq<Coords>, count: nat, threads: nat) -> MeshView {
    merge_all(indexed_parts(partitioned(keys, count, threads, threads)))
}

/// Where the first `k` partitions end, in triangles.
pub open spec fn covered(count: nat, threads: nat, k: nat) -> nat {
    if k == 0 {
        0
    } else {
        part_range(count, threads, (k - 1) as nat).1
    }
}

/// The first `k` partitions put end to end are the stream up to where they end.
pub proof fn lemma_joined_prefix(keys: Seq<Coords>, count: nat, threads: nat, k: nat)
    requires
        keys.len() == 3 * count,
        threads >= 1,
        k <= threads,
    ensures
        covered(count, threads, k) <= count,
        k < threads ==> covered(count, threads, k) == part_range(count, threads, k).0,
        joined(partitioned(keys, count, threads, k)) == keys.subrange(
            0,
            (3 * covered(count, threads, k)) as int,
        ),
    decreases k,
{
    if k == 0 {
        lemma_part_range(count, threads, 0);
        assert(joined(partitioned(keys, count, threads, 0)) =~= keys.subrange(0, 0));
    } else {
        let prev = (k - 1) as nat;
        lemma_joined_prefix(keys, count, threads, prev);
        lemma_part_range(count, threads, prev);
        if k < threads {
            lemma_part_range(count, threads, k);
        }
        assert(partitioned(keys, count, threads, k).drop_last() =~= partitioned(
            keys,
            count,
            threads,
            prev,
        ));
        assert(joined(partitioned(keys, count, threads, k)) =~= keys.subrange(
            0,
            (3 * covered(count, threads, k)) as int,
        ));
    }
}

/// All partitions put end to end are the whole stream.
pub proof fn lemma_partitions_join(keys: Seq<Coords>, count: nat, threads: nat)
    requires
        keys.len() == 3 * count,
        threads >= 1,
    ensures
        joined(partitioned(keys, count, threads, threads)) == keys,
{
    lemma_joined_prefix(keys, count, threads, threads);
    lemma_part_range(count, threads, (threads - 1) as nat);
    assert(keys.subrange(0, 3 * count as int) =~= keys);
}

/// The vertices of a run of whole records of a binary stream are the
/// corresponding run of the vertices of the stream.
pub proof fn lemma_binary_coords_sub(body: Seq<u8>, s: nat, e: nat)
    requires
        s <= e,
        BYTES_PER_TRIANGLE * e <= body.len(),
    ensures
        binary_coords(body.subrange(BYTES_PER_TRIANGLE * s as int, BYTES_PER_TRIANGLE * e as int))
            == binary_coords(body).subrange(3 * s as int, 3 * e as int),
{
    let sub = body.subrange(BYTES_PER_TRIANGLE * s as int, BYTES_PER_TRIANGLE * e as int);
    assert(sub.len() as int / BYTES_PER_TRIANGLE as int == e - s);
    assert(body.len() as int / BYTES_PER_TRIANGLE as int >= e);
    let lhs = binary_coords(sub);
    let rhs = binary_coords(body).subrange(3 * s as int, 3 * e as int);
    assert forall|i: int| 0 <= i < lhs.len() implies lhs[i] == rhs[i] by {
        assert((3 * s + i) / 3 == s + i / 3);
        assert((3 * s + i) % 3 == i % 3);
    }
    assert(lhs =~= rhs);
}

/// The vertices of a run of whole records of an ASCII float stream are the
/// corresponding run of the vertices of the stream.
pub proof fn lemma_ascii_coords_sub(floats: Seq<u32>, s: nat, e: nat)
    requires
        s <= e,
        FLOATS_PER_TRIANGLE * e <= floats.len(),
    ensures
        ascii_coords(
            floats.subrange(FLOATS_PER_TRIANGLE * s as int, FLOATS_PER_TRIANGLE * e as int),
        ) == ascii_coords(floats).subrange(3 * s as int, 3 * e as int),
{
    let sub = floats.subrange(FLOATS_PER_TRIANGLE * s as int, FLOATS_PER_TRIANGLE * e as int);
    assert(sub.len() as int / FLOATS_PER_TRIANGLE as int == e - s);
    assert(floats.len() as int / FLOATS_PER_TRIANGLE as int >= e);
    let lhs = ascii_coords(sub);
    let rhs = ascii_coords(floats).subrange(3 * s as int, 3 * e as int);
    assert forall|i: int| 0 <= i < lhs.len() implies lhs[i] == rhs[i] by {
        assert((3 * s + i) / 3 == s + i / 3);
        assert((3 * s + i) % 3 == i % 3);
    }
    assert(lhs =~= rhs);
}

/// Why a file could not be decoded.
#[derive(Debug, Clone, Copy, PartialEq, Eq, Structural)]
pub enum LoadError {
    /// Under 84 bytes: too short even for a binary header.
    TooSmall,
    /// The binary header announces more triangle records than the file holds.
    Truncated,
    /// More than `u32::MAX / 3` triangles: the 32-bit indices cannot address them.
    TooManyTriangles,
}

/// The encoding of a file, or `TooSmall` when it is under 84 bytes.
pub open spec fn classify_spec(b: Seq<u8>) -> Result<StlFormat, LoadError> {
    if b.len() < HEADER_BYTES {
        Err(LoadError::TooSmall)
    } else {
        Ok(format_of(b))
    }
}

/// Whether `count` triangles have more vertices than 32-bit indices can address.
pub open spec fn too_many(count: nat) -> bool {
    3 * count > u32::MAX
}

/// The triangle count of a binary file, or why it cannot be decoded.
pub open spec fn binary_count_spec(b: Seq<u8>) -> Result<u32, LoadError> {
    if b.len() < HEADER_BYTES {
        Err(LoadError::TooSmall)
    } else if b.len() - HEADER_BYTES < BYTES_PER_TRIANGLE * header_count(b) {
        Err(LoadError::Truncated)
    } else if too_many(header_count(b) as nat) {
        Err(LoadError::TooManyTriangles)
    } else {
        Ok(header_count(b))
    }
}

/// The vertex sequence of the first `count` records of a binary file.
pub open spec fn binary_keys(b: Seq<u8>, count: nat) -> Seq<Coords> {
    binary_coords(b.subrange(HEADER_BYTES as int, HEADER_BYTES + BYTES_PER_TRIANGLE * count))
}

/// What decoding a binary file with `threads` workers gives.
pub open spec fn binary_outcome(b: Seq<u8>, threads: nat) -> Result<MeshView, LoadError> {
    match binary_count_spec(b) {
        Ok(count) => Ok(decoded_mesh(binary_keys(b, count as nat), count as nat, threads)),
        Err(e) => Err(e),
    }
}

/// What decoding an ASCII float stream with `threads` workers gives; floats
/// after the last whole record are ignored.
pub open spec fn ascii_outcome(floats: Seq<u32>, threads: nat) -> Result<MeshView, LoadError> {
    let count = floats.len() / FLOATS_PER_TRIANGLE as nat;
    if too_many(count) {
        Err(LoadError::TooManyTriangles)
    } else {
        Ok(decoded_mesh(ascii_coords(floats), count, threads))
    }
}

/// The view of a decoding result.
pub open spec fn outcome_view(r: Result<ModelData, LoadError>) -> Result<MeshView, LoadError> {
    match r {
        Ok(d) => Ok(d@),
        Err(e) => Err(e),
    }
}

/// The number of workers: the available parallelism, capped by the configured
/// maximum if there is one, and by `u32::MAX`.
pub open spec fn worker_count_spec(max_workers: Option<usize>, available: usize) -> u32 {
    let cap = match max_workers {
        Some(m) => if m < available {
            m
        } else {
            available
        },
        None => available,
    };
    if cap > u32::MAX {
        u32::MAX
    } else {
        cap as u32
    }
}

/// The encoding of a file, or `TooSmall` when it cannot hold a binary header.
pub fn classify(bytes: &[u8]) -> (r: Result<StlFormat, LoadError>)
    ensures
        r == classify_spec(bytes@),
{
    if bytes.len() < HEADER_BYTES {
        Err(LoadError::TooSmall)
    } else {
        Ok(sniff_format(bytes))
    }
}

/// Reads and checks the triangle count of a binary file.
pub fn binary_triangle_count(bytes: &[u8]) -> (r: Result<u32, LoadError>)
    ensures
        r == binary_count_spec(bytes@),
{
    let len = bytes.len();
    if len < HEADER_BYTES {
        return Err(LoadError::TooSmall);
    }
    let count = read_triangle_count(bytes);
    if ((len - HEADER_BYTES) as u64) < 50 * (count as u64) {
        Err(LoadError::Truncated)
    } else if count > u32::MAX / 3 {
        Err(LoadError::TooManyTriangles)
    } else {
        Ok(count)
    }
}

/// std's wall-clock timestamp, carried through opaquely.
#[verifier::external_type_specification]
#[verifier::external_body]
pub struct ExSystemTime(SystemTime);

/// Decoding configuration: the file, when loading started, and an optional
/// cap on the number of workers.
pub struct Loader {
    pub filename: String,
    pub start_time: SystemTime,
    pub max_workers: Option<usize>,
}

impl Loader {
    /// A loader for the given file.
    pub fn new(filename: String, start_time: SystemTime, max_workers: Option<usize>) -> (r: Loader)
        ensures
            r.filename@ == filename@,
            r.start_time == start_time,
            r.max_workers == max_workers,
    {
        Loader { filename, start_time, max_workers }
    }

    /// The number of workers to use when `available` threads can run at once.
    pub fn worker_count(&self, available: usize) -> (r: u32)
        requires
            available >= 1,
            self.max_workers != Some(0usize),
        ensures
            r == worker_count_spec(self.max_workers, available),
            r >= 1,
    {
        let cap = match self.max_workers {
            Some(m) => if m < available {
                m
            } else {
                available
            },
            None => available,
        };
        if cap > u32::MAX as usize {
            u32::MAX
        } else {
            cap as u32
        }
    }

    /// Decodes a binary file with as many workers as `worker_count` gives,
    /// one partition each, and merges their results in partition order.
    pub fn parse_binary(&self, bytestream: &[u8], available: usize) -> (r: Result<ModelData, LoadError>)
        requires
            available >= 1,
            self.max_workers != Some(0usize),
        ensures
            outcome_view(r) == binary_outcome(
                bytestream@,
                worker_count_spec(self.max_workers, available) as nat,
            ),
    {
        let num_threads = self.worker_count(available);
        let num_triangles = match binary_triangle_count(bytestream) {
            Ok(c) => c,
            Err(e) => {
                return Err(e);
            },
        };
        let ghost count = num_triangles as nat;
        let ghost threads = num_threads as nat;
        let ghost body = bytestream@.subrange(
            HEADER_BYTES as int,
            HEADER_BYTES + BYTES_PER_TRIANGLE * count,
        );
        let ghost keys = binary_coords(body);
        let ghost all = partitioned(keys, count, threads, threads);
        proof {
            assert(body.len() as int / BYTES_PER_TRIANGLE as int == count);
            assert(keys.len() == 3 * count);
            lemma_partitions_join(keys, count, threads);
            lemma_merge_parts(all);
        }
        let blen = bytestream.len();
        let triangles_per_thread = num_triangles / num_threads;
        let mut parts: Vec<ModelData> = Vec::new();
        let mut n: u32 = 0;
        while n < num_threads
            invariant
                n <= num_threads,
                threads == num_threads,
                count == num_triangles,
                3 * count <= u32::MAX,
                blen == bytestream@.len(),
                bytestream@.len() >= HEADER_BYTES + BYTES_PER_TRIANGLE * count,
                body == bytestream@.subrange(
                    HEADER_BYTES as int,
                    HEADER_BYTES + BYTES_PER_TRIANGLE * count,
                ),
                keys == binary_coords(body),
                all == partitioned(keys, count, threads, threads),
                parts@.len() == n,
                all.len() == threads,
                views(parts@) == indexed_parts(all).subrange(0, n as int),
                forall|k: int| 0 <= k < parts@.len() ==> indices_valid(#[trigger] parts@[k]@),
            decreases num_threads - n,
        {
            proof {
                lemma_part_range(count, threads, n as nat);
            }
            let (start, end) = partition(num_triangles, num_threads, n);
            let lo = HEADER_BYTES + BYTES_PER_TRIANGLE * (start as usize);
            let hi = HEADER_BYTES + BYTES_PER_TRIANGLE * (end as usize);
            let slice = &bytestream[lo..hi];
            proof {
                assert(slice@ =~= body.subrange(
                    BYTES_PER_TRIANGLE * start as int,
                    BYTES_PER_TRIANGLE * end as int,
                ));
                lemma_binary_coords_sub(body, start as nat, end as nat);
                assert(slice@.len() as int / BYTES_PER_TRIANGLE as int == end - start);
            }
            let mut worker = Worker::new(n, triangles_per_thread);
            let data = worker.run_binary(slice, (end - start) * 3);
            proof {
                assert(data@ == indexed_part(all[n as int]));
                lemma_indexed_part(all[n as int]);
            }
            let ghost before = parts@;
            parts.push(data);
            proof {
                assert(all.len() == threads);
                assert(indexed_parts(all)[n as int] == indexed_part(all[n as int]));
                assert forall|k: int| 0 <= k < n + 1 implies #[trigger] views(parts@)[k]
                    == indexed_parts(all).subrange(0, n + 1)[k] by {
                    if k < n {
                        assert(parts@[k] == before[k]);
                        assert(views(before)[k] == indexed_parts(all).subrange(0, n as int)[k]);
                    }
                }
                assert(views(parts@) =~= indexed_parts(all).subrange(0, n + 1));
            }
            n = n + 1;
        }
        proof {
            assert(views(parts@) =~= indexed_parts(all));
        }
        Ok(Loader::process_workers(parts))
    }

    /// Decodes an ASCII float stream (the bit patterns of the floats of the
    /// file, in order) with as many workers as `worker_count` gives.
    pub fn parse_ascii(&self, floats: &[u32], available: usize) -> (r: Result<ModelData, LoadError>)
        requires
            available >= 1,
            self.max_workers != Some(0usize),
        ensures
            outcome_view(r) == ascii_outcome(
                floats@,
                worker_count_spec(self.max_workers, available) as nat,
            ),
    {
        let num_threads = self.worker_count(available);
        let len = floats.len();
        let num = len / FLOATS_PER_TRIANGLE;
        if num > (u32::MAX / 3) as usize {
            return Err(LoadError::TooManyTriangles);
        }
        let num_triangles = num as u32;
        let ghost count = num_triangles as nat;
        let ghost threads = num_threads as nat;
        let ghost keys = ascii_coords(floats@);
        let ghost all = partitioned(keys, count, threads, threads);
        proof {
            assert(keys.len() == 3 * count);
            lemma_partitions_join(keys, count, threads);
            lemma_merge_parts(all);
            assert(FLOATS_PER_TRIANGLE * count <= len) by (nonlinear_arith)
                requires
                    count == len / 12,
            ;
        }
        let triangles_per_thread = num_triangles / num_threads;
        let mut parts: Vec<ModelData> = Vec::new();
        let mut n: u32 = 0;
        while n < num_threads
            invariant
                n <= num_threads,
                threads == num_threads,
                count == num_triangles,
                3 * count <= u32::MAX,
                len == floats@.len(),
                floats@.len() >= FLOATS_PER_TRIANGLE * count,
                keys == ascii_coords(floats@),
                all == partitioned(keys, count, threads, threads),
                parts@.len() == n,
                all.len() == threads,
                views(parts@) == indexed_parts(all).subrange(0, n as int),
                forall|k: int| 0 <= k < parts@.len() ==> indices_valid(#[trigger] parts@[k]@),
            decreases num_threads - n,
        {
            proof {
                lemma_part_range(count, threads, n as nat);
            }
            let (start, end) = partition(num_triangles, num_threads, n);
            let lo = FLOATS_PER_TRIANGLE * (start as usize);
            let hi = FLOATS_PER_TRIANGLE * (end as usize);
            let slice = &floats[lo..hi];
            proof {
                lemma_ascii_coords_sub(floats@, start as nat, end as nat);
                assert(slice@.len() as int / FLOATS_PER_TRIANGLE as int == end - start);
            }
            let mut worker = Worker::new(n, triangles_per_thread);
            let data = worker.run_ascii(slice);
            proof {
                assert(data@ == indexed_part(all[n as int]));
                lemma_indexed_part(all[n as int]);
            }
            let ghost before = parts@;
            parts.push(data);
            proof {
                assert(all.len() == threads);
                assert(indexed_parts(all)[n as int] == indexed_part(all[n as int]));
                assert forall|k: int| 0 <= k < n + 1 implies #[trigger] views(parts@)[k]
                    == indexed_parts(all).subrange(0, n + 1)[k] by {
                    if k < n {
                        assert(parts@[k] == before[k]);
                        assert(views(before)[k] == indexed_parts(all).subrange(0, n as int)[k]);
                    }
                }
                assert(views(parts@) =~= indexed_parts(all).subrange(0, n + 1));
            }
            n = n + 1;
        }
        proof {
            assert(views(parts@) =~= indexed_parts(all));
        }
        Ok(Loader::process_workers(parts))
    }

    /// Appends the partial results in partition order into one mesh, moving each
    /// partition's local indices past the vertices of the partitions before it.
    pub fn process_workers(parts: Vec<ModelData>) -> (r: ModelData)
        requires
            forall|k: int| 0 <= k < parts@.len() ==> indices_valid(#[trigger] parts@[k]@),
            merge_all(views(parts@)).vertices.len() <= u32::MAX,
        ensures
            r@ == merge_all(views(parts@)),
    {
        let ghost all = views(parts@);
        let mut vertices: Vec<Vertex> = Vec::new();
        let mut indices: Vec<u32> = Vec::new();
        let mut bounds = ModelBounds::default();
        let mut current_index: u32 = 0;
        let mut k: usize = 0;
        proof {
            assert(all.subrange(0, 0) =~= Seq::<MeshView>::empty());
            assert(coords_of(vertices@) =~= Seq::<Coords>::empty());
        }
        while k < parts.len()
            invariant
                all == views(parts@),
                merge_all(all).vertices.len() <= u32::MAX,
                forall|j: int| 0 <= j < parts@.len() ==> indices_valid(#[trigger] parts@[j]@),
                k <= parts@.len(),
                coords_of(vertices@) == merge_all(all.subrange(0, k as int)).vertices,
                indices@ == merge_all(all.subrange(0, k as int)).indices,
                bounds == merge_all(all.subrange(0, k as int)).bounds,
                current_index == vertices@.len(),
            decreases parts@.len() - k,
        {
            let data = &parts[k];
            let ghost acc = merge_all(all.subrange(0, k as int));
            let ghost part = all[k as int];
            proof {
                assert(all.subrange(0, k + 1).drop_last() =~= all.subrange(0, k as int));
                assert(all.subrange(0, k + 1).last() == part);
                lemma_merge_len_prefix(all, k + 1);
                assert(part == data@);
            }
            let ghost verts0 = vertices@;
            let mut j: usize = 0;
            while j < data.vertices.len()
                invariant
                    j <= data.vertices@.len(),
                    vertices@ == verts0 + data.vertices@.subrange(0, j as int),
                decreases data.vertices@.len() - j,
            {
                vertices.push(data.vertices[j]);
                assert(data.vertices@.subrange(0, j + 1) =~= data.vertices@.subrange(0, j as int).push(
                    data.vertices[j as int],
                ));
                j = j + 1;
            }
            proof {
                assert(data.vertices@.subrange(0, j as int) =~= data.vertices@);
                assert(coords_of(vertices@) =~= acc.vertices + part.vertices);
            }
            let ghost idx0 = indices@;
            let mut j: usize = 0;
            while j < data.indices.len()
                invariant
                    j <= data.indices@.len(),
                    indices@ == idx0 + shifted(data.indices@.subrange(0, j as int), acc.vertices.len()),
                    current_index == acc.vertices.len(),
                    acc.vertices.len() + part.vertices.len() <= u32::MAX,
                    indices_valid(part),
                    part.indices == data.indices@,
                decreases data.indices@.len() - j,
            {
                let idx = data.indices[j] + current_index;
                indices.push(idx);
                assert(shifted(data.indices@.subrange(0, j + 1), acc.vertices.len()) =~= shifted(
                    data.indices@.subrange(0, j as int),
                    acc.vertices.len(),
                ).push(idx));
                j = j + 1;
            }
            proof {
                assert(data.indices@.subrange(0, j as int) =~= data.indices@);
            }
            bounds.merge_bounds(&data.bounds);
            current_index = vertices.len() as u32;
            k = k + 1;
        }
        proof {
            assert(all.subrange(0, k as int) =~= all);
        }
        ModelData { vertices, indices, bounds }
    }
}

} // verus!
