//! The points of a node, as its bytes hold them.
//!
//! The bytes of a node are one Brotli stream. What comes out of it holds
//! the attributes one after the other, in the order of the metadata, each
//! with one value per point: a position is a 128-bit Morton code, a colour a
//! 64-bit one, and any other attribute is passed over.

use vstd::prelude::*;
use vstd::slice::slice_subrange;
use vstd::string::StringExecFns;
use std::io::Read;
use crate::metadata::AttributeMetadata;
use crate::morton::{morton_128_at, morton_64_at, read_morton_128, read_morton_64};

verus! {

/// A point as it is stored: its position in steps of the cloud's scale, and
/// its colour.
#[derive(Clone, Copy, Debug, Default, PartialEq, Eq)]
pub struct QuantizedPoint {
    pub position: (u32, u32, u32),
    pub color: (u8, u8, u8),
}

/// The point before any attribute was read: at the origin, and black.
pub open spec fn blank_point() -> QuantizedPoint {
    QuantizedPoint { position: (0, 0, 0), color: (0, 0, 0) }
}

/// What the reader does with an attribute.
#[derive(Clone, Copy, Debug, PartialEq, Eq, Structural)]
pub enum AttributeKind {
    Position,
    Color,
    Other,
}

/// What the reader does with the attribute of a given name.
pub open spec fn attribute_kind(name: Seq<char>) -> AttributeKind {
    if name == "POSITION_CARTESIAN"@ || name == "position"@ {
        AttributeKind::Position
    } else if name == "RGBA"@ || name == "rgba"@ || name == "RGB"@ || name == "rgb"@ {
        AttributeKind::Color
    } else {
        AttributeKind::Other
    }
}

/// Bytes that one point takes in an attribute: 16 for a position, 8 for a
/// colour, and what the metadata says for any other.
pub open spec fn attribute_width(attribute: AttributeMetadata) -> int {
    match attribute_kind(attribute.name@) {
        AttributeKind::Position => 16,
        AttributeKind::Color => 8,
        AttributeKind::Other => attribute.size as int,
    }
}

/// Where attribute `index` starts in the bytes of a node of `num_points`
/// points: behind all values of the attributes before it.
pub open spec fn attribute_offset(
    attributes: Seq<AttributeMetadata>,
    index: int,
    num_points: int,
) -> int
    decreases index,
{
    if index <= 0 {
        0
    } else {
        attribute_offset(attributes, index - 1, num_points) + num_points * attribute_width(
            attributes[index - 1],
        )
    }
}

/// A 16-bit colour channel in 8 bits: its high byte where it has one, else
/// its low byte.
pub open spec fn color8(channel: u16) -> u8 {
    if channel > 255 {
        (channel / 256) as u8
    } else {
        channel as u8
    }
}

/// The colour of a decoded 64-bit code.
pub open spec fn color_of(channels: (u16, u16, u16)) -> (u8, u8, u8) {
    (color8(channels.0), color8(channels.1), color8(channels.2))
}

/// Point `index` after one attribute, whose values start at `offset`, was
/// read into it.
pub open spec fn with_attribute(
    point: QuantizedPoint,
    index: int,
    attribute: AttributeMetadata,
    offset: int,
    bytes: Seq<u8>,
) -> QuantizedPoint {
    match attribute_kind(attribute.name@) {
        AttributeKind::Position => QuantizedPoint {
            position: morton_128_at(bytes, offset + 16 * index),
            ..point
        },
        AttributeKind::Color => QuantizedPoint {
            color: color_of(morton_64_at(bytes, offset + 8 * index)),
            ..point
        },
        AttributeKind::Other => point,
    }
}

/// Point `index` of a node after the first `count` attributes were read.
pub open spec fn point_after(
    attributes: Seq<AttributeMetadata>,
    count: int,
    num_points: int,
    bytes: Seq<u8>,
    index: int,
) -> QuantizedPoint
    decreases count,
{
    if count <= 0 {
        blank_point()
    } else {
        with_attribute(
            point_after(attributes, count - 1, num_points, bytes, index),
            index,
            attributes[count - 1],
            attribute_offset(attributes, count - 1, num_points),
            bytes,
        )
    }
}

/// The points of a node of `num_points` points whose decompressed bytes are
/// `bytes`.
pub open spec fn decoded_points(
    attributes: Seq<AttributeMetadata>,
    num_points: int,
    bytes: Seq<u8>,
) -> Seq<QuantizedPoint> {
    Seq::new(
        num_points as nat,
        |index: int| point_after(attributes, attributes.len() as int, num_points, bytes, index),
    )
}

/// Whether the decompressed bytes of a node hold every value of every
/// attribute.
pub open spec fn holds_all_attributes(
    attributes: Seq<AttributeMetadata>,
    num_points: int,
    bytes: Seq<u8>,
) -> bool {
    attribute_offset(attributes, attributes.len() as int, num_points) <= bytes.len()
}

/// Why the points of a node could not be loaded.
#[derive(Debug)]
pub enum LoadPointsError {
    /// The octree holds no node under the key.
    NodeNotFound,
    /// The node's bytes could not be had.
    Resource(crate::resource::ResourceError),
    /// The cloud's points are packed in a way that the reader does not
    /// decode; the field names it.
    EncodingUnimplemented(String),
    /// The node's bytes are no Brotli stream.
    Io(std::io::Error),
    /// The decompressed bytes end before the last value of the last
    /// attribute.
    Truncated,
}

/// What the Brotli stream `stream` decompresses to; `None` for bytes that
/// are no Brotli stream.
pub uninterp spec fn brotli_decoded(stream: Seq<u8>) -> Option<Seq<u8>>;

/// `brotli_decompressor::Decompressor` over the bytes, read to its end: what
/// the stream decompresses to, or the error with which the bytes were
/// refused.
#[verifier::external_body]
fn brotli_decompress(stream: &[u8]) -> (r: Result<Vec<u8>, std::io::Error>)
    ensures
        match r {
            Ok(bytes) => brotli_decoded(stream@) == Some(bytes@),
            Err(_) => brotli_decoded(stream@) is None,
        },
{
    let mut cursor = std::io::Cursor::new(stream);
    let mut input = brotli_decompressor::Decompressor::new(&mut cursor, 4096);
    let mut bytes = Vec::new();
    match input.read_to_end(&mut bytes) {
        Ok(_) => Ok(bytes),
        Err(error) => Err(error),
    }
}

/// Decompresses the bytes of a node.
pub fn decompress(stream: &[u8]) -> (r: Result<Vec<u8>, LoadPointsError>)
    ensures
        match r {
            Ok(bytes) => brotli_decoded(stream@) == Some(bytes@),
            Err(error) => brotli_decoded(stream@) is None && error is Io,
        },
{
    match brotli_decompress(stream) {
        Ok(bytes) => Ok(bytes),
        Err(error) => Err(LoadPointsError::Io(error)),
    }
}

/// A 16-bit colour channel in 8 bits.
pub fn color_channel(channel: u16) -> (r: u8)
    ensures
        r == color8(channel),
{
    if channel > 255 {
        (channel / 256) as u8
    } else {
        channel as u8
    }
}

/// What the reader does with the attribute of a given name.
pub fn kind_of_attribute(name: &String) -> (kind: AttributeKind)
    ensures
        kind == attribute_kind(name@),
{
    if *name == String::from_str("POSITION_CARTESIAN") || *name == String::from_str("position") {
        AttributeKind::Position
    } else if *name == String::from_str("RGBA") || *name == String::from_str("rgba") || *name
        == String::from_str("RGB") || *name == String::from_str("rgb") {
        AttributeKind::Color
    } else {
        AttributeKind::Other
    }
}

/// Reads the points of a node of `num_points` points out of its
/// decompressed bytes. Bytes that end too early are refused.
pub fn decode_points(num_points: u32, attributes: &Vec<AttributeMetadata>, bytes: &[u8]) -> (r:
    Result<Vec<QuantizedPoint>, LoadPointsError>)
    ensures
        match r {
            Ok(points) => {
                &&& holds_all_attributes(attributes@, num_points as int, bytes@)
                &&& points@ == decoded_points(attributes@, num_points as int, bytes@)
            },
            Err(error) => {
                &&& error is Truncated
                &&& !holds_all_attributes(attributes@, num_points as int, bytes@)
            },
        },
{
    let count: usize = attributes.len();
    // what to do with each attribute and where it starts; refuse bytes that end too early
    let mut kinds: Vec<AttributeKind> = Vec::new();
    let mut starts: Vec<usize> = Vec::new();
    let mut byte_offset: usize = 0;
    let mut k: usize = 0;
    while k < count
        invariant
            k <= count,
            count == attributes@.len(),
            starts@.len() == k,
            kinds@.len() == k,
            byte_offset == attribute_offset(attributes@, k as int, num_points as int),
            byte_offset <= bytes.len(),
            forall|j: int|
                0 <= j < k ==> #[trigger] starts@[j] == attribute_offset(
                    attributes@,
                    j,
                    num_points as int,
                ),
            forall|j: int|
                0 <= j < k ==> #[trigger] kinds@[j] == attribute_kind(attributes@[j].name@),
        decreases count - k,
    {
        let kind = kind_of_attribute(&attributes[k].name);
        let width: u64 = match kind {
            AttributeKind::Position => 16,
            AttributeKind::Color => 8,
            AttributeKind::Other => attributes[k].size as u64,
        };
        assert(width == attribute_width(attributes@[k as int]));
        assert(num_points * width <= 0xFFFF_FFFF * 0xFFFF) by (nonlinear_arith)
            requires
                num_points <= 0xFFFF_FFFF,
                0 <= width <= 0xFFFF,
        ;
        let need: u64 = num_points as u64 * width;
        if need > (bytes.len() - byte_offset) as u64 {
            proof {
                lemma_offsets_rise(attributes@, k as int + 1, count as int, num_points as int);
            }
            return Err(LoadPointsError::Truncated);
        }
        kinds.push(kind);
        starts.push(byte_offset);
        byte_offset = byte_offset + need as usize;
        k += 1;
    }
    let mut points: Vec<QuantizedPoint> = Vec::new();
    let mut index: u32 = 0;
    while index < num_points
        invariant
            index <= num_points,
            count == attributes@.len(),
            starts@.len() == count,
            kinds@.len() == count,
            holds_all_attributes(attributes@, num_points as int, bytes@),
            forall|j: int|
                0 <= j < count ==> #[trigger] starts@[j] == attribute_offset(
                    attributes@,
                    j,
                    num_points as int,
                ),
            forall|j: int|
                0 <= j < count ==> #[trigger] kinds@[j] == attribute_kind(attributes@[j].name@),
            points@.len() == index,
            forall|p: int|
                0 <= p < index ==> #[trigger] points@[p] == point_after(
                    attributes@,
                    count as int,
                    num_points as int,
                    bytes@,
                    p,
                ),
        decreases num_points - index,
    {
        let mut point = QuantizedPoint { position: (0, 0, 0), color: (0, 0, 0) };
        let mut k: usize = 0;
        while k < count
            invariant
                k <= count,
                index < num_points,
                count == attributes@.len(),
                starts@.len() == count,
                kinds@.len() == count,
                holds_all_attributes(attributes@, num_points as int, bytes@),
                forall|j: int|
                    0 <= j < count ==> #[trigger] starts@[j] == attribute_offset(
                        attributes@,
                        j,
                        num_points as int,
                    ),
                forall|j: int|
                    0 <= j < count ==> #[trigger] kinds@[j] == attribute_kind(
                        attributes@[j].name@,
                    ),
                point == point_after(
                    attributes@,
                    k as int,
                    num_points as int,
                    bytes@,
                    index as int,
                ),
            decreases count - k,
        {
            proof {
                lemma_offsets_rise(attributes@, k as int + 1, count as int, num_points as int);
                lemma_value_fits(
                    num_points as int,
                    index as int,
                    attribute_width(attributes@[k as int]),
                );
            }
            match kinds[k] {
                AttributeKind::Position => {
                    assert(attribute_offset(attributes@, k as int + 1, num_points as int)
                        == starts@[k as int] + num_points * 16);
                    assert(starts@[k as int] + 16 * index + 16 <= bytes.len());
                    let at: usize = starts[k] + 16 * (index as usize);
                    point.position = read_morton_128(slice_subrange(bytes, at, at + 16));
                },
                AttributeKind::Color => {
                    assert(attribute_offset(attributes@, k as int + 1, num_points as int)
                        == starts@[k as int] + num_points * 8);
                    assert(starts@[k as int] + 8 * index + 8 <= bytes.len());
                    let at: usize = starts[k] + 8 * (index as usize);
                    let (r, g, b) = read_morton_64(slice_subrange(bytes, at, at + 8));
                    point.color = (color_channel(r), color_channel(g), color_channel(b));
                },
                AttributeKind::Other => {},
            }
            k += 1;
        }
        points.push(point);
        index += 1;
    }
    assert(points@ =~= decoded_points(attributes@, num_points as int, bytes@));
    Ok(points)
}

/// A later attribute starts no earlier than an earlier one.
pub proof fn lemma_offsets_rise(
    attributes: Seq<AttributeMetadata>,
    from: int,
    to: int,
    num_points: int,
)
    requires
        0 <= from <= to,
        0 <= num_points,
    ensures
        0 <= attribute_offset(attributes, from, num_points) <= attribute_offset(
            attributes,
            to,
            num_points,
        ),
    decreases to,
{
    if to > 0 {
        if from < to {
            lemma_offsets_rise(attributes, from, to - 1, num_points);
        } else {
            lemma_offsets_rise(attributes, from - 1, to - 1, num_points);
        }
        assert(num_points * attribute_width(attributes[to - 1]) >= 0) by (nonlinear_arith)
            requires
                num_points >= 0,
                attribute_width(attributes[to - 1]) >= 0,
        ;
    }
}

/// The value of one point ends no later than the values of all points.
proof fn lemma_value_fits(num_points: int, index: int, width: int)
    requires
        0 <= index < num_points,
        0 <= width,
    ensures
        0 <= width * index,
        width * index + width <= num_points * width,
{
    assert(width * index >= 0 && width * index + width <= num_points * width)
        by (nonlinear_arith)
        requires
            0 <= index < num_points,
            0 <= width,
    ;
}

} // verus!
