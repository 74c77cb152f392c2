use potree::metadata::{AttributeMetadata, AttributeType, HierarchyMetadata, Metadata};
use potree::octree::node::OctreeNode;
use potree::octree::NodeId;
use potree::point::{
    decode_points, decompress, kind_of_attribute, AttributeKind, LoadPointsError, QuantizedPoint,
};
use potree::resource::ResourceLoader;
use potree::point_cloud::PotreePointCloud;

// A Brotli stream of one stored block and the empty last block.
fn brotli_store(data: &[u8]) -> Vec<u8> {
    if data.is_empty() {
        return vec![0x06];
    }
    assert!(data.len() <= 65536);
    let m = data.len() - 1;
    let mut stream = vec![0x0f | ((m & 1) << 7) as u8, (m >> 1) as u8, ((m >> 9) & 0x7f) as u8 | 0x80];
    stream.extend_from_slice(data);
    stream.push(0x03);
    stream
}

fn attribute(name: &str, size: u16) -> AttributeMetadata {
    AttributeMetadata {
        name: name.to_string(),
        description: String::new(),
        size,
        num_elements: 1,
        element_size: size,
        attribute_type: AttributeType::UInt8,
    }
}

fn metadata(encoding: &str, attributes: Vec<AttributeMetadata>) -> Metadata {
    Metadata {
        version: "2.0".to_string(),
        name: "cloud".to_string(),
        description: String::new(),
        points: 0,
        projection: String::new(),
        hierarchy: HierarchyMetadata { first_chunk_size: 22, step_size: 4, depth: 1 },
        encoding: encoding.to_string(),
        attributes,
    }
}

fn record(node_type: u8, mask: u8, num_points: u32, offset: u64, size: u64) -> Vec<u8> {
    let mut bytes = vec![node_type, mask];
    bytes.extend_from_slice(&num_points.to_le_bytes());
    bytes.extend_from_slice(&offset.to_le_bytes());
    bytes.extend_from_slice(&size.to_le_bytes());
    bytes
}

fn position(low_word: u32) -> Vec<u8> {
    let mut bytes = vec![0u8; 12];
    bytes.extend_from_slice(&low_word.to_le_bytes());
    bytes
}

fn color(low_word: u32) -> Vec<u8> {
    let mut bytes = vec![0u8; 4];
    bytes.extend_from_slice(&low_word.to_le_bytes());
    bytes
}

// two points: position, then one byte of something else, then colour
fn two_points() -> (Vec<AttributeMetadata>, Vec<u8>) {
    let attributes =
        vec![attribute("position", 12), attribute("intensity", 1), attribute("rgba", 4)];
    let mut bytes = Vec::new();
    bytes.extend_from_slice(&position(0b11_0101)); // (1, 2, 3)
    bytes.extend_from_slice(&position(0b1000)); // (2, 0, 0)
    bytes.extend_from_slice(&[0xaa, 0xbb]);
    bytes.extend_from_slice(&color(0b111)); // (1, 1, 1)
    bytes.extend_from_slice(&color(0x4000_0000)); // bit 30 is bit 10 of the first channel
    (attributes, bytes)
}

fn expected_two_points() -> Vec<QuantizedPoint> {
    vec![
        QuantizedPoint { position: (1, 2, 3), color: (1, 1, 1) },
        QuantizedPoint { position: (2, 0, 0), color: (4, 0, 0) },
    ]
}

#[test]
fn attribute_names() {
    for name in ["POSITION_CARTESIAN", "position"] {
        assert_eq!(kind_of_attribute(&name.to_string()), AttributeKind::Position);
    }
    for name in ["RGBA", "rgba", "RGB", "rgb"] {
        assert_eq!(kind_of_attribute(&name.to_string()), AttributeKind::Color);
    }
    for name in ["Position", "rgbA", "intensity", ""] {
        assert_eq!(kind_of_attribute(&name.to_string()), AttributeKind::Other);
    }
}

#[test]
fn points_out_of_their_bytes() {
    let (attributes, bytes) = two_points();
    assert_eq!(bytes.len(), 2 * 16 + 2 + 2 * 8);
    let points = decode_points(2, &attributes, &bytes).unwrap();
    assert_eq!(points, expected_two_points());
    // bytes behind the last attribute do no harm
    let mut longer = bytes.clone();
    longer.push(0);
    assert_eq!(decode_points(2, &attributes, &longer).unwrap(), expected_two_points());
}

#[test]
fn points_without_attributes_are_blank() {
    let points = decode_points(3, &Vec::new(), &[]).unwrap();
    assert_eq!(points, vec![QuantizedPoint::default(); 3]);
    assert_eq!(QuantizedPoint::default(), QuantizedPoint { position: (0, 0, 0), color: (0, 0, 0) });
    let (attributes, _) = two_points();
    assert_eq!(decode_points(0, &attributes, &[]).unwrap(), Vec::new());
}

#[test]
fn a_later_attribute_of_the_same_kind_wins() {
    let attributes = vec![attribute("position", 16), attribute("POSITION_CARTESIAN", 16)];
    let mut bytes = position(0b1);
    bytes.extend_from_slice(&position(0b10));
    let points = decode_points(1, &attributes, &bytes).unwrap();
    assert_eq!(points[0].position, (0, 1, 0));
}

#[test]
fn bytes_that_end_early_are_refused() {
    let (attributes, bytes) = two_points();
    for length in [0, 1, 31, 32, 33, 34, bytes.len() - 1] {
        let r = decode_points(2, &attributes, &bytes[..length]);
        assert!(matches!(r, Err(LoadPointsError::Truncated)));
    }
    let r = decode_points(u32::MAX, &vec![attribute("intensity", u16::MAX)], &bytes);
    assert!(matches!(r, Err(LoadPointsError::Truncated)));
}

#[test]
fn brotli_streams_are_decompressed() {
    assert_eq!(decompress(&[0x06]).unwrap(), Vec::<u8>::new());
    let hello = [0x8f, 0x02, 0x80, 0x68, 0x65, 0x6c, 0x6c, 0x6f, 0x0a, 0x03];
    assert_eq!(decompress(&hello).unwrap(), b"hello\n".to_vec());
    let data: Vec<u8> = (0..1000u32).map(|i| (i * 7) as u8).collect();
    assert_eq!(decompress(&brotli_store(&data)).unwrap(), data);
    // a run of 64 zeros, compressed
    let zeros = decompress(&[0x1b, 0x3f, 0x00, 0x00, 0x24, 0x00, 0xe2, 0xb1, 0x40, 0x20]);
    if let Ok(bytes) = zeros {
        assert_eq!(bytes, vec![0u8; 64]);
    }
}

#[test]
fn bytes_that_are_no_stream_are_refused() {
    assert!(matches!(decompress(&[]), Err(LoadPointsError::Io(_))));
    assert!(matches!(decompress(&[0xff; 16]), Err(LoadPointsError::Io(_))));
    let data: Vec<u8> = (0..100u8).collect();
    let stream = brotli_store(&data);
    assert!(matches!(decompress(&stream[..50]), Err(LoadPointsError::Io(_))));
}

fn cloud_of_two_points(encoding: &str) -> PotreePointCloud {
    let (attributes, _) = two_points();
    let mut cloud = PotreePointCloud::from_metadata("file://cloud", metadata(encoding, attributes), ResourceLoader::new());
    cloud.load_hierarchy(NodeId(0), &record(0, 0, 2, 64, 55)).unwrap();
    cloud
}

#[test]
fn points_of_a_node() {
    let cloud = cloud_of_two_points("BROTLI");
    let (_, bytes) = two_points();
    let request = cloud.points_request(NodeId(0)).unwrap();
    assert_eq!((request.offset, request.length), (64, 55));
    let stream = brotli_store(&bytes);
    assert_eq!(cloud.load_points(NodeId(0), &stream).unwrap(), expected_two_points());
    let root = cloud.octree().root();
    assert_eq!(cloud.load_points_for_node(root, &stream).unwrap(), expected_two_points());
    assert_eq!(cloud.parse_points_brotli(root, &stream).unwrap(), expected_two_points());
    let mut bigger = OctreeNode::default();
    bigger.num_points = 3;
    assert!(matches!(cloud.parse_points_brotli(&bigger, &stream), Err(LoadPointsError::Truncated)));
    assert!(matches!(cloud.load_points(NodeId(0), &bytes), Err(LoadPointsError::Io(_))));
}

#[test]
fn unknown_node_has_no_points() {
    let cloud = cloud_of_two_points("BROTLI");
    assert!(matches!(cloud.points_request(NodeId(1)), Err(LoadPointsError::NodeNotFound)));
    assert!(matches!(cloud.load_points(NodeId(1), &[0x06]), Err(LoadPointsError::NodeNotFound)));
}

#[test]
fn other_encodings_are_not_decoded() {
    let cloud = cloud_of_two_points("UNCOMPRESSED");
    let (_, bytes) = two_points();
    for stream in [bytes, brotli_store(&[1, 2, 3])] {
        match cloud.load_points(NodeId(0), &stream) {
            Err(LoadPointsError::EncodingUnimplemented(encoding)) => {
                assert_eq!(encoding, "UNCOMPRESSED")
            }
            _ => panic!("the encoding is not decoded"),
        }
    }
    let cloud = cloud_of_two_points("brotli");
    assert!(matches!(
        cloud.load_points(NodeId(0), &[0x06]),
        Err(LoadPointsError::EncodingUnimplemented(_))
    ));
}
