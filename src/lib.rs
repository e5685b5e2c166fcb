//! Decoding of STL triangle-mesh files into an indexed, partition-deduplicated
//! vertex/triangle mesh with axis-aligned bounds.
//!
//! Coordinates are carried as the bit patterns of IEEE-754 single-precision
//! floats, so equality is exact bit equality and ordering follows IEEE rules.

pub mod float_bits;
pub mod mesh_types;
pub mod stl_format;
pub mod worker;
pub mod loader;
pub mod theorems;
pub mod parser;
pub mod theme;
