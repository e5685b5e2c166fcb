//! Layout of STL files: the binary header and records, the ASCII float stream,
//! and the format sniff.
use vstd::prelude::*;
use byteorder::ByteOrder;
use crate::mesh_types::Coords;

verus! {

/// Bytes in the binary header: 80 free bytes and the triangle count.
pub const HEADER_BYTES: usize = 84;

/// Offset of the little-endian triangle count in the binary header.
pub const COUNT_OFFSET: usize = 80;

/// Bytes in one binary triangle record.
pub const BYTES_PER_TRIANGLE: usize = 50;

/// Bytes of the normal vector that opens a binary record.
pub const NORMAL_BYTES: usize = 12;

/// Floats in one ASCII triangle record: a normal and three vertices.
pub const FLOATS_PER_TRIANGLE: usize = 12;

/// Floats of the normal vector that opens an ASCII record.
pub const NORMAL_FLOATS: usize = 3;

/// The unsigned 32-bit integer stored little-endian at `b[at..at + 4]`.
pub open spec fn le_u32(b: Seq<u8>, at: int) -> u32 {
    (b[at] + 256 * b[at + 1] + 65536 * b[at + 2] + 16777216 * b[at + 3]) as u32
}

/// The `k`-th vertex (0, 1 or 2) of the `t`-th record of a binary triangle stream.
pub open spec fn binary_vertex(body: Seq<u8>, t: int, k: int) -> Coords {
    let at = BYTES_PER_TRIANGLE * t + NORMAL_BYTES + 12 * k;
    (le_u32(body, at), le_u32(body, at + 4), le_u32(body, at + 8))
}

/// The vertices of a binary triangle stream, three per whole record, in file order.
pub open spec fn binary_coords(body: Seq<u8>) -> Seq<Coords> {
    Seq::new(
        (3 * (body.len() as int / BYTES_PER_TRIANGLE as int)) as nat,
        |i: int| binary_vertex(body, i / 3, i % 3),
    )
}

/// The `k`-th vertex of the `t`-th record of an ASCII float stream.
pub open spec fn ascii_vertex(floats: Seq<u32>, t: int, k: int) -> Coords {
    let at = FLOATS_PER_TRIANGLE * t + NORMAL_FLOATS + 3 * k;
    (floats[at], floats[at + 1], floats[at + 2])
}

/// The vertices of an ASCII float stream, three per whole record, in order.
pub open spec fn ascii_coords(floats: Seq<u32>) -> Seq<Coords> {
    Seq::new(
        (3 * (floats.len() as int / FLOATS_PER_TRIANGLE as int)) as nat,
        |i: int| ascii_vertex(floats, i / 3, i % 3),
    )
}

/// Relies on byteorder's `LittleEndian::read_u32`: the integer stored
/// little-endian in the first four bytes of `buf[at..]`.
#[verifier::external_body]
pub(crate) fn read_u32_le(buf: &[u8], at: usize) -> (r: u32)
    requires
        at + 4 <= buf@.len(),
    ensures
        r == le_u32(buf@, at as int),
{
    byteorder::LittleEndian::read_u32(&buf[at..])
}

/// A record whose index is below the number of whole records ends inside the stream.
pub proof fn lemma_record_in_bounds(len: int, t: int)
    requires
        0 <= t < len / BYTES_PER_TRIANGLE as int,
    ensures
        BYTES_PER_TRIANGLE * t + BYTES_PER_TRIANGLE <= len,
{
    assert(BYTES_PER_TRIANGLE * t + BYTES_PER_TRIANGLE <= len) by (nonlinear_arith)
        requires
            0 <= t < len / 50,
    ;
}

/// The `k`-th vertex of the `t`-th record of a binary triangle stream.
pub fn read_binary_vertex(body: &[u8], t: usize, k: usize) -> (r: Coords)
    requires
        t < body@.len() as int / BYTES_PER_TRIANGLE as int,
        k < 3,
    ensures
        r == binary_vertex(body@, t as int, k as int),
{
    let len = body.len();
    proof {
        lemma_record_in_bounds(len as int, t as int);
    }
    let at = BYTES_PER_TRIANGLE * t + NORMAL_BYTES + 12 * k;
    (read_u32_le(body, at), read_u32_le(body, at + 4), read_u32_le(body, at + 8))
}


/// A record whose index is below the number of whole records ends inside the float stream.
pub proof fn lemma_float_record_in_bounds(len: int, t: int)
    requires
        0 <= t < len / FLOATS_PER_TRIANGLE as int,
    ensures
        FLOATS_PER_TRIANGLE * t + FLOATS_PER_TRIANGLE <= len,
{
    assert(FLOATS_PER_TRIANGLE * t + FLOATS_PER_TRIANGLE <= len) by (nonlinear_arith)
        requires
            0 <= t < len / 12,
    ;
}

/// The `k`-th vertex of the `t`-th record of an ASCII float stream.
pub fn read_ascii_vertex(floats: &[u32], t: usize, k: usize) -> (r: Coords)
    requires
        t < floats@.len() as int / FLOATS_PER_TRIANGLE as int,
        k < 3,
    ensures
        r == ascii_vertex(floats@, t as int, k as int),
{
    let len = floats.len();
    proof {
        lemma_float_record_in_bounds(len as int, t as int);
    }
    let at = FLOATS_PER_TRIANGLE * t + NORMAL_FLOATS + 3 * k;
    (floats[at], floats[at + 1], floats[at + 2])
}

/// The triangle count stored in a binary header.
pub open spec fn header_count(bytes: Seq<u8>) -> u32 {
    le_u32(bytes, COUNT_OFFSET as int)
}

/// Reads the triangle count of a binary header.
pub fn read_triangle_count(bytes: &[u8]) -> (r: u32)
    requires
        bytes@.len() >= HEADER_BYTES,
    ensures
        r == header_count(bytes@),
{
    read_u32_le(bytes, COUNT_OFFSET)
}


/// The two encodings of an STL file.
#[derive(Debug, Clone, Copy, PartialEq, Eq, Structural)]
pub enum StlFormat {
    Ascii,
    Binary,
}

/// The five bytes of the ASCII tag `solid`.
pub open spec fn solid_tag() -> Seq<u8> {
    seq![115u8, 111u8, 108u8, 105u8, 100u8]
}

/// Whether the file opens with the ASCII tag `solid`.
pub open spec fn starts_with_solid(b: Seq<u8>) -> bool {
    b.len() >= 5 && b.subrange(0, 5) == solid_tag()
}

/// The encoding a file is read as: ASCII when it opens with `solid`, binary otherwise.
pub open spec fn format_of(b: Seq<u8>) -> StlFormat {
    if starts_with_solid(b) {
        StlFormat::Ascii
    } else {
        StlFormat::Binary
    }
}

/// Sniffs the encoding from the first five bytes. This is a heuristic: a binary
/// file whose free header happens to open with `solid` is read as ASCII.
pub fn sniff_format(bytes: &[u8]) -> (r: StlFormat)
    ensures
        r == format_of(bytes@),
{
    let len = bytes.len();
    if len >= 5 && bytes[0] == 115u8 && bytes[1] == 111u8 && bytes[2] == 108u8 && bytes[3] == 105u8
        && bytes[4] == 100u8 {
        assert(bytes@.subrange(0, 5) =~= solid_tag());
        StlFormat::Ascii
    } else {
        assert(len >= 5 ==> bytes@.subrange(0, 5)[0] == bytes@[0]);
        assert(len >= 5 ==> bytes@.subrange(0, 5)[1] == bytes@[1]);
        assert(len >= 5 ==> bytes@.subrange(0, 5)[2] == bytes@[2]);
        assert(len >= 5 ==> bytes@.subrange(0, 5)[3] == bytes@[3]);
        assert(len >= 5 ==> bytes@.subrange(0, 5)[4] == bytes@[4]);
        StlFormat::Binary
    }
}

/// ASCII whitespace: space, tab, line feed, form feed and carriage return.
pub open spec fn is_ascii_ws(b: u8) -> bool {
    b == 0x20 || b == 0x09 || b == 0x0a || b == 0x0c || b == 0x0d
}

fn byte_is_ws(b: u8) -> (r: bool)
    ensures
        r == is_ascii_ws(b),
{
    b == 0x20 || b == 0x09 || b == 0x0a || b == 0x0c || b == 0x0d
}

/// Position `i` ends a run of non-whitespace: it is the end of the text or whitespace.
pub open spec fn run_ends_at(text: Seq<u8>, i: int) -> bool {
    i == text.len() || is_ascii_ws(text[i])
}

/// Position `i` starts a run of non-whitespace only if nothing but whitespace precedes it.
pub open spec fn run_starts_at(text: Seq<u8>, i: int) -> bool {
    i == 0 || is_ascii_ws(text[i - 1])
}

/// `spans` lists, in order, every maximal run of non-whitespace bytes of `text`
/// as a half-open range `(start, end)`: the tokens of the text.
pub open spec fn are_tokens(text: Seq<u8>, spans: Seq<(usize, usize)>) -> bool {
    &&& forall|k: int|
        0 <= k < spans.len() ==> {
            let (s, e) = #[trigger] spans[k];
            &&& s < e <= text.len()
            &&& run_starts_at(text, s as int)
            &&& run_ends_at(text, e as int)
            &&& forall|j: int| s <= j < e ==> !is_ascii_ws(#[trigger] text[j])
        }
    &&& forall|k: int| 0 <= k < spans.len() - 1 ==> (#[trigger] spans[k]).1 < spans[k + 1].0
    &&& forall|j: int|
        0 <= j < text.len() && !is_ascii_ws(#[trigger] text[j]) ==> exists|k: int|
            0 <= k < spans.len() && (#[trigger] spans[k]).0 <= j < spans[k].1
}

/// Splits ASCII text into its whitespace-separated tokens, given as byte ranges.
pub fn token_spans(text: &[u8]) -> (spans: Vec<(usize, usize)>)
    ensures
        are_tokens(text@, spans@),
{
    let n = text.len();
    let mut spans: Vec<(usize, usize)> = Vec::new();
    let mut i: usize = 0;
    while i < n
        invariant
            n == text@.len(),
            i <= n,
            i == 0 || is_ascii_ws(text@[i - 1]) || run_ends_at(text@, i as int),
            forall|k: int|
                0 <= k < spans@.len() ==> {
                    let (s, e) = #[trigger] spans@[k];
                    &&& s < e <= i
                    &&& run_starts_at(text@, s as int)
                    &&& run_ends_at(text@, e as int)
                    &&& forall|j: int| s <= j < e ==> !is_ascii_ws(#[trigger] text@[j])
                },
            forall|k: int| 0 <= k < spans@.len() - 1 ==> (#[trigger] spans@[k]).1 < spans@[k + 1].0,
            forall|j: int|
                0 <= j < i && !is_ascii_ws(#[trigger] text@[j]) ==> exists|k: int|
                    0 <= k < spans@.len() && (#[trigger] spans@[k]).0 <= j < spans@[k].1,
        decreases n - i,
    {
        if byte_is_ws(text[i]) {
            i = i + 1;
        } else {
            let start = i;
            while i < n && !byte_is_ws(text[i])
                invariant
                    n == text@.len(),
                    start <= i <= n,
                    forall|j: int| start <= j < i ==> !is_ascii_ws(#[trigger] text@[j]),
                decreases n - i,
            {
                i = i + 1;
            }
            let ghost old_spans = spans@;
            proof {
                if spans@.len() > 0 {
                    let last = spans@.len() - 1;
                    let (s, e) = spans@[last];
                    assert(e <= start);
                    assert(e != start);
                }
            }
            spans.push((start, i));
            assert forall|j: int|
                0 <= j < i && !is_ascii_ws(#[trigger] text@[j]) implies exists|k: int|
                0 <= k < spans@.len() && (#[trigger] spans@[k]).0 <= j < spans@[k].1 by {
                if j < start {
                    let k = choose|k: int|
                        0 <= k < old_spans.len() && (#[trigger] old_spans[k]).0 <= j
                            < old_spans[k].1;
                    assert(spans@[k] == old_spans[k]);
                } else {
                    assert(spans@[spans@.len() - 1] == (start, i));
                }
            }
        }
    }
    spans
}

} // verus!
