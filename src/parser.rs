//! A single-threaded reader of binary STL records, word by word.
use vstd::prelude::*;
use crate::stl_format::{le_u32, read_u32_le, BYTES_PER_TRIANGLE, HEADER_BYTES};

verus! {

/// One binary record: the normal and the three vertices, twelve 32-bit
/// little-endian words holding the bit patterns of floats.
pub type Triangle = [u32; 12];

/// The twelve words of record `t` of a binary triangle stream.
pub open spec fn record_words(body: Seq<u8>, t: int) -> Seq<u32> {
    Seq::new(12, |w: int| le_u32(body, BYTES_PER_TRIANGLE * t + 4 * w))
}

/// Reads the records of a binary STL file one after the other.
pub struct Parser {
    pub filename: String,
}

impl Parser {
    /// Does nothing: decoding is driven through [`Parser::parse_binary`].
    pub fn run(&self) {
    }

    /// The records of a binary STL file, in file order, each as its twelve words.
    /// The triangle count of the header is not consulted: every 50-byte record
    /// after the header is read.
    pub fn parse_binary(&self, bytestream: &[u8]) -> (r: Vec<Triangle>)
        requires
            bytestream@.len() >= HEADER_BYTES,
            (bytestream@.len() - HEADER_BYTES) % BYTES_PER_TRIANGLE as int == 0,
        ensures
            r@.len() == (bytestream@.len() - HEADER_BYTES) / BYTES_PER_TRIANGLE as int,
            forall|t: int|
                0 <= t < r@.len() ==> (#[trigger] r@[t])@ == record_words(
                    bytestream@.subrange(HEADER_BYTES as int, bytestream@.len() as int),
                    t,
                ),
    {
        let len = bytestream.len();
        let body = &bytestream[HEADER_BYTES..len];
        let blen = body.len();
        let count = blen / BYTES_PER_TRIANGLE;
        let mut triangle_data: Vec<Triangle> = Vec::with_capacity(count);
        let mut t: usize = 0;
        while t < count
            invariant
                blen == body@.len(),
                count == body@.len() as int / BYTES_PER_TRIANGLE as int,
                bytestream@.len() >= HEADER_BYTES,
                body@ == bytestream@.subrange(HEADER_BYTES as int, bytestream@.len() as int),
                t <= count,
                triangle_data@.len() == t,
                forall|k: int|
                    0 <= k < t ==> (#[trigger] triangle_data@[k])@ == record_words(body@, k),
            decreases count - t,
        {
            proof {
                crate::stl_format::lemma_record_in_bounds(body@.len() as int, t as int);
            }
            let at = BYTES_PER_TRIANGLE * t;
            let triangle: Triangle = [
                read_u32_le(body, at),
                read_u32_le(body, at + 4),
                read_u32_le(body, at + 8),
                read_u32_le(body, at + 12),
                read_u32_le(body, at + 16),
                read_u32_le(body, at + 20),
                read_u32_le(body, at + 24),
                read_u32_le(body, at + 28),
                read_u32_le(body, at + 32),
                read_u32_le(body, at + 36),
                read_u32_le(body, at + 40),
                read_u32_le(body, at + 44),
            ];
            assert(triangle@ =~= record_words(body@, t as int));
            triangle_data.push(triangle);
            t = t + 1;
        }
        triangle_data
    }
}

} // verus!
