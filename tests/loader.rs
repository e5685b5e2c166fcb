use std::time::SystemTime;

use hustl::loader::{classify, partition, LoadError, Loader};
use hustl::mesh_types::{ModelData, Vertex};
use hustl::stl_format::{token_spans, StlFormat, BYTES_PER_TRIANGLE};
use hustl::worker::Worker;

fn vx(x: f32, y: f32, z: f32) -> Vertex {
    Vertex { pos: [x.to_bits(), y.to_bits(), z.to_bits()] }
}

fn cube_vertices() -> Vec<Vertex> {
    vec![
        vx(-35.0, 60.0, 20.0),
        vx(-55.0, 60.0, 20.0),
        vx(-35.0, 40.0, 20.0),
        vx(-35.0, 40.0, 20.0),
        vx(-55.0, 60.0, 20.0),
        vx(-55.0, 40.0, 20.0),
        vx(-35.0, 40.0, 0.0),
        vx(-55.0, 40.0, 0.0),
        vx(-35.0, 60.0, 0.0),
        vx(-35.0, 60.0, 0.0),
        vx(-55.0, 40.0, 0.0),
        vx(-55.0, 60.0, 0.0),
        vx(-55.0, 40.0, 20.0),
        vx(-55.0, 40.0, 0.0),
        vx(-35.0, 40.0, 20.0),
        vx(-35.0, 40.0, 20.0),
        vx(-55.0, 40.0, 0.0),
        vx(-35.0, 40.0, 0.0),
        vx(-55.0, 60.0, 20.0),
        vx(-55.0, 60.0, 0.0),
        vx(-55.0, 40.0, 20.0),
        vx(-55.0, 40.0, 20.0),
        vx(-55.0, 60.0, 0.0),
        vx(-55.0, 40.0, 0.0),
        vx(-35.0, 60.0, 20.0),
        vx(-35.0, 60.0, 0.0),
        vx(-55.0, 60.0, 20.0),
        vx(-55.0, 60.0, 20.0),
        vx(-35.0, 60.0, 0.0),
        vx(-55.0, 60.0, 0.0),
        vx(-35.0, 40.0, 20.0),
        vx(-35.0, 40.0, 0.0),
        vx(-35.0, 60.0, 20.0),
        vx(-35.0, 60.0, 20.0),
        vx(-35.0, 40.0, 0.0),
        vx(-35.0, 60.0, 0.0),
    ]
}

fn ascii_cube_vertices() -> Vec<Vertex> {
    vec![
        vx(0.0, 0.0, 10.0),
        vx(10.0, 0.0, 10.0),
        vx(0.0, 10.0, 10.0),
        vx(10.0, 10.0, 10.0),
        vx(0.0, 10.0, 10.0),
        vx(10.0, 0.0, 10.0),
        vx(10.0, 0.0, 10.0),
        vx(10.0, 0.0, 0.0),
        vx(10.0, 10.0, 10.0),
        vx(10.0, 10.0, 0.0),
        vx(10.0, 10.0, 10.0),
        vx(10.0, 0.0, 0.0),
        vx(10.0, 0.0, 0.0),
        vx(0.0, 0.0, 0.0),
        vx(10.0, 10.0, 0.0),
        vx(0.0, 10.0, 0.0),
        vx(10.0, 10.0, 0.0),
        vx(0.0, 0.0, 0.0),
        vx(0.0, 0.0, 0.0),
        vx(0.0, 0.0, 10.0),
        vx(0.0, 10.0, 0.0),
        vx(0.0, 10.0, 10.0),
        vx(0.0, 10.0, 0.0),
        vx(0.0, 0.0, 10.0),
        vx(0.0, 10.0, 10.0),
        vx(10.0, 10.0, 10.0),
        vx(0.0, 10.0, 0.0),
        vx(10.0, 10.0, 0.0),
        vx(0.0, 10.0, 0.0),
        vx(10.0, 10.0, 10.0),
        vx(10.0, 0.0, 10.0),
        vx(0.0, 0.0, 10.0),
        vx(10.0, 0.0, 0.0),
        vx(0.0, 0.0, 0.0),
        vx(10.0, 0.0, 0.0),
        vx(0.0, 0.0, 10.0),
    ]
}

fn cube_vertices_deduplicated() -> Vec<Vertex> {
    vec![
        vx(-35.0, 60.0, 20.0),
        vx(-55.0, 60.0, 20.0),
        vx(-35.0, 40.0, 20.0),
        vx(-55.0, 40.0, 20.0),
        vx(-35.0, 40.0, 0.0),
        vx(-55.0, 40.0, 0.0),
        vx(-35.0, 60.0, 0.0),
        vx(-55.0, 60.0, 0.0),
    ]
}

const CUBE_INDICES: [u32; 36] = [
    0, 1, 2, 2, 1, 3, 4, 5, 6, 6, 5, 7, 3, 5, 2, 2, 5, 4, 1, 7, 3, 3, 7, 5, 0, 6, 1, 1, 6, 7,
    2, 4, 0, 0, 4, 6,
];

fn ascii_cube_vertices_deduplicated() -> Vec<Vertex> {
    vec![
        vx(0.0, 0.0, 10.0),
        vx(10.0, 0.0, 10.0),
        vx(0.0, 10.0, 10.0),
        vx(10.0, 10.0, 10.0),
        vx(10.0, 0.0, 0.0),
        vx(10.0, 10.0, 0.0),
        vx(0.0, 0.0, 0.0),
        vx(0.0, 10.0, 0.0),
    ]
}

const ASCII_CUBE_INDICES: [u32; 36] = [
    0, 1, 2, 3, 2, 1, 1, 4, 3, 5, 3, 4, 4, 6, 5, 7, 5, 6, 6, 0, 7, 2, 7, 0, 2, 3, 7, 5, 7, 3,
    1, 0, 4, 6, 4, 0,
];

/// A binary STL file holding the given triangles (three vertices each), with a
/// zero normal and a zero attribute count per record.
fn binary_stl(vertices: &[Vertex]) -> Vec<u8> {
    let mut bytes = vec![0u8; 80];
    bytes.extend_from_slice(&((vertices.len() / 3) as u32).to_le_bytes());
    for tri in vertices.chunks(3) {
        bytes.extend_from_slice(&[0u8; 12]);
        for v in tri {
            for c in v.pos {
                bytes.extend_from_slice(&c.to_le_bytes());
            }
        }
        bytes.extend_from_slice(&[0u8; 2]);
    }
    bytes
}

/// An ASCII STL text holding the given triangles.
fn ascii_stl(vertices: &[Vertex]) -> String {
    let mut text = String::from("solid cube\n");
    for tri in vertices.chunks(3) {
        text.push_str("  facet normal 0 0 0\n    outer loop\n");
        for v in tri {
            text.push_str(&format!(
                "      vertex {:e} {:e} {:e}\n",
                f32::from_bits(v.pos[0]),
                f32::from_bits(v.pos[1]),
                f32::from_bits(v.pos[2])
            ));
        }
        text.push_str("    endloop\n  endfacet\n");
    }
    text.push_str("endsolid cube\n");
    text
}

/// The floats of an ASCII text, as bit patterns; tokens that are not floats are skipped.
fn ascii_floats(text: &str) -> Vec<u32> {
    let bytes = text.as_bytes();
    token_spans(bytes)
        .into_iter()
        .filter_map(|(s, e)| std::str::from_utf8(&bytes[s..e]).ok()?.parse::<f32>().ok())
        .map(f32::to_bits)
        .collect()
}

fn loader(workers: Option<usize>) -> Loader {
    Loader::new("cube.stl".to_string(), SystemTime::now(), workers)
}

fn resolved(data: &ModelData) -> Vec<Vertex> {
    data.indices.iter().map(|&i| data.vertices[i as usize]).collect()
}

#[test]
fn test_binary_load() {
    let bytestream = binary_stl(&cube_vertices());
    let data = loader(Some(1)).parse_binary(&bytestream, 8).unwrap();
    assert_eq!(data.vertices, cube_vertices_deduplicated());
    assert_eq!(data.indices, &CUBE_INDICES[..]);
}

#[test]
fn test_ascii_load() {
    let stream = ascii_stl(&ascii_cube_vertices());
    let floats = ascii_floats(&stream);
    let data = loader(Some(1)).parse_ascii(&floats, 8).unwrap();
    assert_eq!(data.vertices, ascii_cube_vertices_deduplicated());
    assert_eq!(data.indices, &ASCII_CUBE_INDICES[..]);
}

#[test]
fn test_loader_run() {
    let bytestream = binary_stl(&cube_vertices());
    let loader = loader(Some(1));
    assert_eq!(classify(&bytestream), Ok(StlFormat::Binary));
    let data = loader.parse_binary(&bytestream, 4).unwrap();
    assert_eq!(data.vertices, cube_vertices_deduplicated());
    assert_eq!(data.indices, &CUBE_INDICES[..]);
}

#[test]
fn test_binary_unindexed_worker() {
    let bytestream = binary_stl(&cube_vertices());
    let bytes = &bytestream[84..];
    let num_triangles = (bytes.len() / BYTES_PER_TRIANGLE) as u32;
    let worker = Worker::new(0, num_triangles);
    let data = worker.get_binary_vertices_unindexed(bytes, num_triangles * 3);
    assert_eq!(data.vertices, cube_vertices());
}

#[test]
fn test_binary_indexed_worker() {
    let bytestream = binary_stl(&cube_vertices());
    let bytes = &bytestream[84..];
    let num_triangles = (bytes.len() / BYTES_PER_TRIANGLE) as u32;
    let mut worker = Worker::new(0, num_triangles);
    let data = worker.get_binary_vertices_indexed(bytes, num_triangles * 3);
    assert_eq!(data.vertices, cube_vertices_deduplicated());
    assert_eq!(data.indices, &CUBE_INDICES[..]);
}

#[test]
fn test_ascii_unindexed_worker() {
    let stream = ascii_stl(&ascii_cube_vertices());
    let floats = ascii_floats(&stream);
    let num_triangles = (floats.len() / 12) as u32;
    let worker = Worker::new(0, num_triangles);
    let data = worker.get_ascii_vertices_unindexed(floats.as_slice());
    assert_eq!(data.vertices, ascii_cube_vertices());
}

#[test]
fn test_ascii_indexed_worker() {
    let stream = ascii_stl(&ascii_cube_vertices());
    let floats = ascii_floats(&stream);
    let num_triangles = (floats.len() / 12) as u32;
    let mut worker = Worker::new(0, num_triangles);
    let data = worker.get_ascii_vertices_indexed(floats.as_slice());
    assert_eq!(data.vertices, ascii_cube_vertices_deduplicated());
    assert_eq!(data.indices, &ASCII_CUBE_INDICES[..]);
}

#[test]
fn ascii_cube_decodes_whatever_the_spacing() {
    let stream = ascii_stl(&ascii_cube_vertices());
    let spaced = stream.replace(' ', " \t ").replace('\n', "\r\n\n");
    assert_eq!(classify(spaced.as_bytes()), Ok(StlFormat::Ascii));
    let data = loader(Some(1)).parse_ascii(&ascii_floats(&spaced), 8).unwrap();
    assert_eq!(data.vertices, ascii_cube_vertices_deduplicated());
    assert_eq!(data.indices, &ASCII_CUBE_INDICES[..]);
}

#[test]
fn run_worker_methods_match_the_indexed_decoders() {
    let bytestream = binary_stl(&cube_vertices());
    let mut worker = Worker::new(0, 12);
    let data = worker.run_binary(&bytestream[84..], 36);
    assert_eq!(data.vertices, cube_vertices_deduplicated());
    assert_eq!(data.indices, &CUBE_INDICES[..]);
    // a second run starts a fresh deduplication scope
    let again = worker.run_binary(&bytestream[84..], 36);
    assert_eq!(again.indices, &CUBE_INDICES[..]);

    let floats = ascii_floats(&ascii_stl(&ascii_cube_vertices()));
    let mut worker = Worker::new(1, 12);
    let data = worker.run_ascii(&floats);
    assert_eq!(data.vertices, ascii_cube_vertices_deduplicated());
    assert_eq!(data.indices, &ASCII_CUBE_INDICES[..]);
}

#[test]
fn zero_triangle_file_decodes_to_an_empty_mesh() {
    let bytestream = binary_stl(&[]);
    assert_eq!(bytestream.len(), 84);
    for workers in [1usize, 3] {
        let data = loader(Some(workers)).parse_binary(&bytestream, 4).unwrap();
        assert!(data.vertices.is_empty());
        assert!(data.indices.is_empty());
        assert_eq!(data.bounds.x, (f32::INFINITY.to_bits(), f32::NEG_INFINITY.to_bits()));
        assert_eq!(data.bounds.y, (f32::INFINITY.to_bits(), f32::NEG_INFINITY.to_bits()));
        assert_eq!(data.bounds.z, (f32::INFINITY.to_bits(), f32::NEG_INFINITY.to_bits()));
    }
}

#[test]
fn file_under_84_bytes_is_too_small() {
    let bytes = vec![0u8; 83];
    assert_eq!(classify(&bytes), Err(LoadError::TooSmall));
    assert_eq!(loader(None).parse_binary(&bytes, 2).err(), Some(LoadError::TooSmall));
}

#[test]
fn missing_records_are_a_truncation() {
    let mut bytestream = binary_stl(&cube_vertices());
    bytestream.truncate(84 + 50 * 11 + 49);
    assert_eq!(loader(Some(2)).parse_binary(&bytestream, 4).err(), Some(LoadError::Truncated));
}

#[test]
fn bytes_after_the_announced_records_are_ignored() {
    let mut bytestream = binary_stl(&cube_vertices());
    bytestream.extend_from_slice(&[7u8; 30]);
    let data = loader(Some(1)).parse_binary(&bytestream, 1).unwrap();
    assert_eq!(data.vertices, cube_vertices_deduplicated());
    assert_eq!(data.indices, &CUBE_INDICES[..]);
}

#[test]
fn header_opening_with_solid_is_read_as_ascii() {
    let mut bytestream = binary_stl(&cube_vertices());
    bytestream[..5].copy_from_slice(b"solid");
    assert_eq!(classify(&bytestream), Ok(StlFormat::Ascii));
    bytestream[4] = b'D';
    assert_eq!(classify(&bytestream), Ok(StlFormat::Binary));
}

#[test]
fn triangle_count_is_three_indices_per_triangle_for_any_worker_count() {
    let bytestream = binary_stl(&cube_vertices());
    for workers in 1..=16usize {
        let data = loader(Some(workers)).parse_binary(&bytestream, 16).unwrap();
        assert_eq!(data.indices.len(), 3 * 12);
    }
}

#[test]
fn worker_count_changes_vertices_but_not_triangles() {
    let bytestream = binary_stl(&cube_vertices());
    let one = loader(Some(1)).parse_binary(&bytestream, 8).unwrap();
    let four = loader(Some(4)).parse_binary(&bytestream, 8).unwrap();
    assert_eq!(resolved(&one), cube_vertices());
    assert_eq!(resolved(&four), cube_vertices());
    assert_eq!(one.vertices.len(), 8);
    // three triangles per partition: each partition keeps its own copies
    assert_eq!(four.vertices.len(), 7 + 6 + 6 + 6);
    assert_eq!(one.bounds.x, four.bounds.x);
    assert_eq!(one.bounds.y, four.bounds.y);
    assert_eq!(one.bounds.z, four.bounds.z);
}

#[test]
fn bounds_hold_every_vertex_even_with_empty_partitions() {
    let bytestream = binary_stl(&cube_vertices());
    // sixteen workers for twelve triangles: fifteen empty partitions
    for workers in [1usize, 5, 16] {
        let data = loader(Some(workers)).parse_binary(&bytestream, 16).unwrap();
        assert_eq!(data.bounds.x, ((-55.0f32).to_bits(), (-35.0f32).to_bits()));
        assert_eq!(data.bounds.y, (40.0f32.to_bits(), 60.0f32.to_bits()));
        assert_eq!(data.bounds.z, (0.0f32.to_bits(), 20.0f32.to_bits()));
        for v in &data.vertices {
            let x = f32::from_bits(v.pos[0]);
            assert!(f32::from_bits(data.bounds.x.0) <= x && x <= f32::from_bits(data.bounds.x.1));
        }
    }
}

#[test]
fn dedup_is_bit_exact() {
    let a = vx(1.0, 2.0, 3.0);
    let b = Vertex { pos: [a.pos[0], a.pos[1], a.pos[2] ^ 1] };
    let tris = vec![a, b, a, b, a, vx(4.0, 5.0, 6.0)];
    let bytestream = binary_stl(&tris);
    let data = loader(Some(1)).parse_binary(&bytestream, 1).unwrap();
    assert_eq!(data.indices, vec![0, 1, 0, 1, 0, 2]);
    assert_eq!(data.vertices, vec![a, b, vx(4.0, 5.0, 6.0)]);
    // +0 and -0 compare equal as floats but are distinct vertices
    let tris = vec![vx(0.0, 0.0, 0.0), vx(-0.0, 0.0, 0.0), vx(0.0, 0.0, 0.0)];
    let data = loader(Some(1)).parse_binary(&binary_stl(&tris), 1).unwrap();
    assert_eq!(data.indices, vec![0, 1, 0]);
}

#[test]
fn every_index_names_a_vertex() {
    let bytestream = binary_stl(&cube_vertices());
    for workers in 1..=13usize {
        let data = loader(Some(workers)).parse_binary(&bytestream, 16).unwrap();
        assert!(data.indices.iter().all(|&i| (i as usize) < data.vertices.len()));
    }
}

#[test]
fn worker_count_is_capped_by_the_configured_maximum() {
    assert_eq!(loader(None).worker_count(8), 8);
    assert_eq!(loader(Some(2)).worker_count(8), 2);
    assert_eq!(loader(Some(16)).worker_count(8), 8);
}

#[test]
fn partitions_tile_the_triangles_and_the_last_takes_the_rest() {
    let ranges: Vec<(u32, u32)> = (0..4).map(|n| partition(12, 4, n)).collect();
    assert_eq!(ranges, vec![(0, 3), (3, 6), (6, 9), (9, 12)]);
    let ranges: Vec<(u32, u32)> = (0..3).map(|n| partition(10, 3, n)).collect();
    assert_eq!(ranges, vec![(0, 3), (3, 6), (6, 10)]);
    assert_eq!(partition(2, 5, 0), (0, 0));
    assert_eq!(partition(2, 5, 4), (0, 2));
}

#[test]
fn merge_moves_indices_past_earlier_partitions() {
    let bytestream = binary_stl(&cube_vertices());
    let body = &bytestream[84..];
    let first = Worker::new(0, 6).run_binary(&body[..300], 18);
    let second = Worker::new(1, 6).run_binary(&body[300..], 18);
    let offset = first.vertices.len() as u32;
    let expected: Vec<u32> = first
        .indices
        .iter()
        .copied()
        .chain(second.indices.iter().map(|i| i + offset))
        .collect();
    let merged = Loader::process_workers(vec![first, second]);
    assert_eq!(merged.indices, expected);
    assert_eq!(resolved(&merged), cube_vertices());
}

#[test]
fn tokens_are_the_runs_between_ascii_whitespace() {
    assert_eq!(token_spans(b"  ab\tc\r\n\x0cxyz"), vec![(2, 4), (5, 6), (9, 12)]);
    assert_eq!(token_spans(b""), vec![]);
    assert_eq!(token_spans(b" \n\t "), vec![]);
    assert_eq!(token_spans(b"one"), vec![(0, 3)]);
}

#[test]
fn ascii_floats_after_the_last_whole_record_are_ignored() {
    let mut floats = ascii_floats(&ascii_stl(&ascii_cube_vertices()));
    floats.extend_from_slice(&[1.0f32.to_bits(); 7]);
    let data = loader(Some(3)).parse_ascii(&floats, 8).unwrap();
    assert_eq!(data.indices.len(), 36);
    assert_eq!(resolved(&data), ascii_cube_vertices());
}
