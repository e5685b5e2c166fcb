//! What holds of every decoding, stated over the specifications of the decoders.
use vstd::prelude::*;
use crate::loader::{
    binary_count_spec, binary_keys, binary_outcome, decoded_mesh, indexed_parts,
    lemma_joined_prefix, lemma_merge_block, lemma_merge_len_prefix, lemma_merge_parts,
    lemma_part_range, lemma_partitions_join, merge_all, part_range, partitioned, too_many,
};
use crate::mesh_types::{
    bounds_of, contains, empty_bounds, indices_valid, lemma_bounds_of_contains, lemma_merge_empty,
    merged, nan_free, resolved, Coords,
};
use crate::stl_format::{header_count, BYTES_PER_TRIANGLE, HEADER_BYTES};
use crate::worker::{dedup, indexed_part, lemma_dedup, lemma_index_of_unique, local_indices};

verus! {

/// The decoding of a stream of `count` triangles by any number of workers:
/// one index per vertex occurrence, every index naming a vertex, the
/// triangles it describes being exactly those of the stream, and its box
/// being the box of the stream.
pub proof fn lemma_decoded_mesh(keys: Seq<Coords>, count: nat, threads: nat)
    requires
        keys.len() == 3 * count,
        !too_many(count),
        threads >= 1,
    ensures
        decoded_mesh(keys, count, threads).indices.len() == 3 * count,
        decoded_mesh(keys, count, threads).vertices.len() <= 3 * count,
        indices_valid(decoded_mesh(keys, count, threads)),
        resolved(decoded_mesh(keys, count, threads)) == keys,
        decoded_mesh(keys, count, threads).bounds == bounds_of(keys),
{
    lemma_partitions_join(keys, count, threads);
    lemma_merge_parts(partitioned(keys, count, threads, threads));
}

/// A valid binary file decodes, whatever the number of workers, to three
/// indices per triangle its header announces.
pub proof fn lemma_binary_triangle_count(b: Seq<u8>, threads: nat)
    requires
        binary_count_spec(b) is Ok,
        threads >= 1,
    ensures
        binary_outcome(b, threads) is Ok,
        binary_outcome(b, threads)->Ok_0.indices.len() == 3 * header_count(b),
{
    let count = header_count(b) as nat;
    let body = b.subrange(HEADER_BYTES as int, HEADER_BYTES + BYTES_PER_TRIANGLE * count);
    assert(body.len() as int / BYTES_PER_TRIANGLE as int == count);
    lemma_decoded_mesh(binary_keys(b, count), count, threads);
}

/// Decoding with one number of workers or another describes the same
/// triangles, with the same box and as many indices; only the vertex list may
/// differ, as deduplication stays within each partition.
pub proof fn lemma_worker_count_invariance(keys: Seq<Coords>, count: nat, t1: nat, t2: nat)
    requires
        keys.len() == 3 * count,
        !too_many(count),
        t1 >= 1,
        t2 >= 1,
    ensures
        resolved(decoded_mesh(keys, count, t1)) == resolved(decoded_mesh(keys, count, t2)),
        decoded_mesh(keys, count, t1).bounds == decoded_mesh(keys, count, t2).bounds,
        decoded_mesh(keys, count, t1).indices.len() == decoded_mesh(keys, count, t2).indices.len(),
{
    lemma_decoded_mesh(keys, count, t1);
    lemma_decoded_mesh(keys, count, t2);
}

/// The same, for a valid binary file.
pub proof fn lemma_binary_worker_count_invariance(b: Seq<u8>, t1: nat, t2: nat)
    requires
        binary_count_spec(b) is Ok,
        t1 >= 1,
        t2 >= 1,
    ensures
        binary_outcome(b, t1) is Ok,
        binary_outcome(b, t2) is Ok,
        resolved(binary_outcome(b, t1)->Ok_0) == resolved(binary_outcome(b, t2)->Ok_0),
        binary_outcome(b, t1)->Ok_0.bounds == binary_outcome(b, t2)->Ok_0.bounds,
{
    let count = header_count(b) as nat;
    let body = b.subrange(HEADER_BYTES as int, HEADER_BYTES + BYTES_PER_TRIANGLE * count);
    assert(body.len() as int / BYTES_PER_TRIANGLE as int == count);
    lemma_worker_count_invariance(binary_keys(b, count), count, t1, t2);
}

/// With a single worker, deduplication covers the whole stream: the vertex
/// list is the stream's distinct vertices in first-seen order.
pub proof fn lemma_single_worker_dedups_globally(keys: Seq<Coords>, count: nat)
    requires
        keys.len() == 3 * count,
        !too_many(count),
    ensures
        decoded_mesh(keys, count, 1).vertices == dedup(keys),
        decoded_mesh(keys, count, 1).indices == local_indices(keys),
{
    lemma_partitions_join(keys, count, 1);
    let parts = partitioned(keys, count, 1, 1);
    assert(parts[0] == keys) by {
        assert(parts.drop_last().len() == 0);
        assert(crate::loader::joined(parts.drop_last()) =~= Seq::<Coords>::empty());
        assert(Seq::<Coords>::empty() + parts.last() =~= parts.last());
    }
    let ip = crate::loader::indexed_parts(parts);
    assert(ip.drop_last().len() == 0);
    assert(ip.last() == indexed_part(keys));
    assert(crate::loader::merge_all(ip.drop_last()) == crate::loader::empty_mesh());
    let m = decoded_mesh(keys, count, 1);
    assert(m == crate::loader::append_mesh(crate::loader::empty_mesh(), indexed_part(keys)));
    assert(m.vertices =~= dedup(keys));
    assert forall|i: int| 0 <= i < keys.len() implies m.indices[i] == local_indices(keys)[i] by {
        assert(local_indices(keys)[i] <= u32::MAX);
    }
    assert(m.indices =~= local_indices(keys));
}

/// Every vertex read from the stream lies within the decoded box on each
/// axis (as IEEE floats, NaN coordinates aside), whatever the number of workers.
pub proof fn lemma_bounds_cover(keys: Seq<Coords>, count: nat, threads: nat)
    requires
        keys.len() == 3 * count,
        !too_many(count),
        threads >= 1,
    ensures
        nan_free(decoded_mesh(keys, count, threads).bounds),
        forall|i: int|
            0 <= i < keys.len() ==> contains(decoded_mesh(keys, count, threads).bounds, #[trigger] keys[i]),
{
    lemma_decoded_mesh(keys, count, threads);
    lemma_bounds_of_contains(keys);
}

/// A partition with no triangles has the empty box, which leaves any box of a
/// non-empty partition unchanged when merged with it, on either side.
pub proof fn lemma_empty_partition_bounds(other: Seq<Coords>)
    ensures
        indexed_part(Seq::empty()).bounds == empty_bounds(),
        merged(empty_bounds(), bounds_of(other)) == bounds_of(other),
        merged(bounds_of(other), empty_bounds()) == bounds_of(other),
{
    lemma_bounds_of_contains(other);
    lemma_merge_empty(bounds_of(other));
}

/// Within one partition, two vertex occurrences get the same index exactly
/// when their coordinates are bit-for-bit equal.
pub proof fn lemma_exact_dedup(s: Seq<Coords>, i: int, j: int)
    requires
        s.len() <= u32::MAX,
        0 <= i < s.len(),
        0 <= j < s.len(),
    ensures
        local_indices(s)[i] == local_indices(s)[j] <==> s[i] == s[j],
{
    lemma_dedup(s);
    let d = dedup(s);
    assert(s.contains(s[i]) && s.contains(s[j]));
    assert(d.contains(s[i]) && d.contains(s[j]));
    let a = choose|a: int| 0 <= a < d.len() && d[a] == s[i];
    let b = choose|b: int| 0 <= b < d.len() && d[b] == s[j];
    lemma_index_of_unique(d, a);
    lemma_index_of_unique(d, b);
}

/// In a decoded mesh, two vertex occurrences of the same partition get the
/// same index exactly when their coordinates are bit-for-bit equal.
pub proof fn lemma_exact_dedup_in_partition(
    keys: Seq<Coords>,
    count: nat,
    threads: nat,
    n: nat,
    i: int,
    j: int,
)
    requires
        keys.len() == 3 * count,
        !too_many(count),
        threads >= 1,
        n < threads,
        3 * part_range(count, threads, n).0 <= i < 3 * part_range(count, threads, n).1,
        3 * part_range(count, threads, n).0 <= j < 3 * part_range(count, threads, n).1,
    ensures
        decoded_mesh(keys, count, threads).indices[i] == decoded_mesh(keys, count, threads).indices[j]
            <==> keys[i] == keys[j],
{
    let all = partitioned(keys, count, threads, threads);
    let parts = indexed_parts(all);
    let m = decoded_mesh(keys, count, threads);
    let (s, e) = part_range(count, threads, n);
    let p = all[n as int];
    lemma_part_range(count, threads, n);
    lemma_partitions_join(keys, count, threads);
    lemma_merge_parts(all);
    // the parts before `n` hold the first `3 * s` vertex occurrences
    lemma_joined_prefix(keys, count, threads, n);
    let before = partitioned(keys, count, threads, n);
    assert(indexed_parts(before) =~= parts.subrange(0, n as int));
    lemma_merge_parts(before);
    let pre = merge_all(parts.subrange(0, n as int));
    assert(pre.indices.len() == 3 * s);
    // the vertices of the parts up to `n` fit in the whole list
    let upto = partitioned(keys, count, threads, n + 1);
    assert(indexed_parts(upto) =~= parts.subrange(0, n + 1 as int));
    assert(parts.subrange(0, n + 1 as int).drop_last() =~= parts.subrange(0, n as int));
    lemma_merge_len_prefix(parts, n + 1 as int);
    assert(parts[n as int] == indexed_part(p));
    let off = pre.vertices.len();
    assert(off + dedup(p).len() <= m.vertices.len());
    assert(m.vertices.len() <= 3 * count);
    // position within the partition
    let a = i - 3 * s;
    let b = j - 3 * s;
    assert(p.len() == 3 * e - 3 * s);
    assert(p[a] == keys[i]);
    assert(p[b] == keys[j]);
    lemma_merge_block(parts, n as int, a);
    lemma_merge_block(parts, n as int, b);
    lemma_dedup(p);
    assert(p.contains(p[a]) && p.contains(p[b]));
    assert(dedup(p).contains(p[a]) && dedup(p).contains(p[b]));
    let wa = choose|w: int| 0 <= w < dedup(p).len() && dedup(p)[w] == p[a];
    let wb = choose|w: int| 0 <= w < dedup(p).len() && dedup(p)[w] == p[b];
    lemma_index_of_unique(dedup(p), wa);
    lemma_index_of_unique(dedup(p), wb);
    lemma_exact_dedup(p, a, b);
}

/// Every index of a decoded mesh names one of its vertices.
pub proof fn lemma_index_validity(keys: Seq<Coords>, count: nat, threads: nat)
    requires
        keys.len() == 3 * count,
        !too_many(count),
        threads >= 1,
    ensures
        forall|i: int|
            0 <= i < decoded_mesh(keys, count, threads).indices.len() ==> (#[trigger] decoded_mesh(
                keys,
                count,
                threads,
            ).indices[i]) < decoded_mesh(keys, count, threads).vertices.len(),
{
    lemma_decoded_mesh(keys, count, threads);
}

} // verus!
