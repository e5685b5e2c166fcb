use hustl::float_bits::{bits_is_nan, max_of_bits, min_of_bits};
use hustl::mesh_types::{ModelBounds, Vertex};
use hustl::parser::Parser;
use hustl::stl_format::{read_triangle_count, sniff_format, StlFormat};
use hustl::theme::Theme;
use hustl::worker::Worker;

#[test]
fn triangle_count_is_read_little_endian() {
    let mut header = vec![0u8; 84];
    header[80..84].copy_from_slice(&[0x04, 0x03, 0x02, 0x01]);
    assert_eq!(read_triangle_count(&header), 0x0102_0304);
}

#[test]
fn float_min_and_max_follow_ieee_order_and_skip_nan() {
    let nan = f32::NAN.to_bits();
    let one = 1.0f32.to_bits();
    let minus_two = (-2.0f32).to_bits();
    assert!(bits_is_nan(nan));
    assert!(!bits_is_nan(f32::INFINITY.to_bits()));
    assert_eq!(min_of_bits(one, minus_two), minus_two);
    assert_eq!(max_of_bits(one, minus_two), one);
    assert_eq!(min_of_bits(nan, one), one);
    assert_eq!(max_of_bits(one, nan), one);
    assert_eq!(min_of_bits((-1.0f32).to_bits(), (-3.0f32).to_bits()), (-3.0f32).to_bits());
    assert_eq!(max_of_bits(f32::NEG_INFINITY.to_bits(), minus_two), minus_two);
}

#[test]
fn bounds_update_and_merge() {
    let mut b = ModelBounds::default();
    b.update(&Vertex::new(1.0f32.to_bits(), (-1.0f32).to_bits(), 0.5f32.to_bits()));
    b.update(&Vertex::new((-3.0f32).to_bits(), 2.0f32.to_bits(), 0.5f32.to_bits()));
    assert_eq!(b.x, ((-3.0f32).to_bits(), 1.0f32.to_bits()));
    assert_eq!(b.y, ((-1.0f32).to_bits(), 2.0f32.to_bits()));
    assert_eq!(b.z, (0.5f32.to_bits(), 0.5f32.to_bits()));
    let mut merged = ModelBounds::default();
    merged.merge_bounds(&b);
    assert_eq!((merged.x, merged.y, merged.z), (b.x, b.y, b.z));
    let mut c = b;
    c.merge_bounds(&ModelBounds::default());
    assert_eq!((c.x, c.y, c.z), (b.x, b.y, b.z));
}

#[test]
fn vertex_equality_is_bitwise() {
    let a = Vertex::new(0.0f32.to_bits(), 1, 2);
    assert_eq!(a, Vertex { pos: [0, 1, 2] });
    assert_ne!(a, Vertex::new((-0.0f32).to_bits(), 1, 2));
    assert_eq!(a.coords(), (0, 1, 2));
}

#[test]
fn sniff_needs_the_whole_tag() {
    assert_eq!(sniff_format(b"solid cube"), StlFormat::Ascii);
    assert_eq!(sniff_format(b"soli"), StlFormat::Binary);
    assert_eq!(sniff_format(b"Solid"), StlFormat::Binary);
}

#[test]
fn parser_reads_twelve_words_per_record() {
    let mut bytes = vec![0u8; 84];
    for t in 0..2u32 {
        for w in 0..12u32 {
            bytes.extend_from_slice(&(100 * t + w).to_le_bytes());
        }
        bytes.extend_from_slice(&[9, 9]);
    }
    let parser = Parser { filename: "two.stl".to_string() };
    parser.run();
    let triangles = parser.parse_binary(&bytes);
    assert_eq!(triangles.len(), 2);
    assert_eq!(triangles[0], [0, 1, 2, 3, 4, 5, 6, 7, 8, 9, 10, 11]);
    assert_eq!(triangles[1], [100, 101, 102, 103, 104, 105, 106, 107, 108, 109, 110, 111]);
}

#[test]
fn worker_index_arithmetic() {
    let worker = Worker::new(2, 4);
    assert_eq!(worker.calculate_index(5), 29);
    assert_eq!(worker.calculate_starting_index(), 24);
}

#[test]
fn themes_are_distinct() {
    assert_ne!(Theme::Light, Theme::Dark);
    assert_ne!(Theme::Dark, Theme::Solarized);
}
