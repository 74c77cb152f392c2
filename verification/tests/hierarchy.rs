use potree::hierarchy::{has_child, plan_chunk, HierarchyNodeEntry};
use potree::metadata::{HierarchyMetadata, Metadata};
use potree::octree::aabb::child_octant_halves;
use potree::octree::NodeId;
use potree::resource::ResourceLoader;
use potree::point_cloud::{HierarchyWalk, PotreePointCloud, ReadHierarchyError};

fn record(node_type: u8, mask: u8, num_points: u32, offset: u64, size: u64) -> Vec<u8> {
    let mut bytes = vec![node_type, mask];
    bytes.extend_from_slice(&num_points.to_le_bytes());
    bytes.extend_from_slice(&offset.to_le_bytes());
    bytes.extend_from_slice(&size.to_le_bytes());
    bytes
}

fn chunk(records: &[(u8, u8, u32, u64, u64)]) -> Vec<u8> {
    let mut bytes = Vec::new();
    for r in records {
        bytes.extend_from_slice(&record(r.0, r.1, r.2, r.3, r.4));
    }
    bytes
}

fn metadata(first_chunk_size: u64) -> Metadata {
    Metadata {
        version: "2.0".to_string(),
        name: "cloud".to_string(),
        description: String::new(),
        points: 0,
        projection: String::new(),
        hierarchy: HierarchyMetadata { first_chunk_size, step_size: 4, depth: 1 },
        encoding: "BROTLI".to_string(),
        attributes: Vec::new(),
    }
}

fn open(first_chunk: &[u8]) -> PotreePointCloud {
    let mut cloud =
        PotreePointCloud::from_metadata("file://cloud", metadata(first_chunk.len() as u64), ResourceLoader::new());
    let request = cloud.hierarchy_request(NodeId(0)).unwrap();
    assert_eq!(request.offset, 0);
    assert_eq!(request.length, first_chunk.len() as u64);
    cloud.load_hierarchy(NodeId(0), first_chunk).unwrap();
    cloud
}

#[test]
fn new_cloud_has_the_root_proxy() {
    let cloud = PotreePointCloud::from_metadata("http://host/cloud", metadata(4400), ResourceLoader::new());
    assert_eq!(cloud.hierarchy_url(), "http://host/cloud/hierarchy.bin");
    assert_eq!(cloud.octree_url(), "http://host/cloud/octree.bin");
    assert_eq!(cloud.metadata().hierarchy.first_chunk_size, 4400);
    let octree = cloud.octree();
    assert_eq!(octree.len(), 1);
    assert_eq!(octree.root_id(), NodeId(0));
    let root = octree.root();
    assert_eq!(root.name, "r");
    assert_eq!(root.level, 0);
    assert_eq!(root.node_type, 2);
    assert_eq!(root.hierarchy_byte_offset, 0);
    assert_eq!(root.hierarchy_byte_size, 4400);
    assert_eq!(root.id, Some(NodeId(0)));
    assert_eq!(root.parent, None);
    let snapshot = cloud.hierarchy_snapshot();
    assert_eq!(snapshot.len(), 1);
    assert_eq!(snapshot[0].node_type, 2);
}

#[test]
fn single_node_cloud() {
    let cloud = open(&record(1, 0, 100, 0, 5000));
    let snapshot = cloud.hierarchy_snapshot();
    assert_eq!(snapshot.len(), 1);
    assert_eq!(snapshot[0].name, "r");
    assert_eq!(snapshot[0].id, Some(NodeId(0)));
    assert_eq!(snapshot[0].index, 0);
    assert_eq!(snapshot[0].num_points, 100);
    assert_eq!(snapshot[0].byte_size, 5000);
    assert_eq!(snapshot[0].node_type, 1);
    assert_eq!(snapshot[0].children, [0; 8]);
    assert!(cloud.octree().node(NodeId(1)).is_none());
    assert!(cloud.hierarchy_request(NodeId(0)).is_none());
}

#[test]
fn chunk_of_no_records_is_refused() {
    let mut cloud = PotreePointCloud::from_metadata("file://cloud", metadata(0), ResourceLoader::new());
    let r = cloud.parse_hierarchy(NodeId(0), &[]);
    assert!(matches!(r, Err(ReadHierarchyError::InvalidBinaryData)));
    assert_eq!(cloud.octree().root().node_type, 2);
    assert_eq!(cloud.octree().len(), 1);
}

#[test]
fn chunk_with_a_broken_record_is_refused() {
    let mut bytes = record(1, 0, 100, 0, 5000);
    bytes.push(0);
    for length in [1usize, 21, 23] {
        let mut cloud = PotreePointCloud::from_metadata("file://cloud", metadata(23), ResourceLoader::new());
        let r = cloud.parse_hierarchy(NodeId(0), &bytes[..length]);
        assert!(matches!(r, Err(ReadHierarchyError::InvalidBinaryData)));
        assert_eq!(cloud.octree().root().node_type, 2);
        assert_eq!(cloud.octree().root().num_points, 0);
    }
}

#[test]
fn unknown_node_type_is_refused() {
    let mut cloud = PotreePointCloud::from_metadata("file://cloud", metadata(22), ResourceLoader::new());
    let r = cloud.parse_hierarchy(NodeId(0), &record(3, 0, 1, 0, 1));
    assert!(matches!(r, Err(ReadHierarchyError::InvalidBinaryData)));
    assert_eq!(cloud.octree().len(), 1);
}

#[test]
fn missing_and_surplus_records_are_refused() {
    // one child announced, none listed
    let mut cloud = PotreePointCloud::from_metadata("file://cloud", metadata(22), ResourceLoader::new());
    let r = cloud.parse_hierarchy(NodeId(0), &chunk(&[(1, 0b1, 1, 0, 1)]));
    assert!(matches!(r, Err(ReadHierarchyError::InvalidBinaryData)));
    // one child announced, two listed
    let r = cloud.parse_hierarchy(
        NodeId(0),
        &chunk(&[(1, 0b1, 1, 0, 1), (0, 0, 1, 1, 1), (0, 0, 1, 2, 1)]),
    );
    assert!(matches!(r, Err(ReadHierarchyError::InvalidBinaryData)));
    // a record that nobody announced, although the counts agree at the end
    let r = cloud.parse_hierarchy(NodeId(0), &chunk(&[(0, 0, 1, 0, 1), (1, 0b1, 1, 1, 1)]));
    assert!(matches!(r, Err(ReadHierarchyError::InvalidBinaryData)));
    assert_eq!(cloud.octree().len(), 1);
    assert_eq!(cloud.octree().root().node_type, 2);
    assert_eq!(cloud.hierarchy_snapshot().len(), 1);
}

#[test]
fn record_behind_a_proxy_root_is_refused() {
    // the first record leaves the root a proxy, so nothing announces the second
    let first_chunk = chunk(&[(2, 0, 0, 22, 22), (1, 0, 7, 0, 70)]);
    let mut cloud = PotreePointCloud::from_metadata("file://cloud", metadata(44), ResourceLoader::new());
    let r = cloud.load_hierarchy(NodeId(0), &first_chunk);
    assert!(matches!(r, Err(ReadHierarchyError::InvalidBinaryData)));
    let snapshot = cloud.hierarchy_snapshot();
    assert_eq!(snapshot.len(), 1);
    assert_eq!(snapshot[0].node_type, 2);
    assert_eq!(snapshot[0].hierarchy_byte_size, 44);
}

#[test]
fn proxy_chain() {
    // the root is an inner node with one child in octant 3, which is a proxy
    let cloud_chunk = chunk(&[(1, 0b1000, 10, 0, 100), (2, 0, 5, 44, 44)]);
    let mut cloud = open(&cloud_chunk);
    let snapshot = cloud.hierarchy_snapshot();
    assert_eq!(snapshot.len(), 2);
    assert_eq!(snapshot[1].name, "r3");
    assert_eq!(snapshot[1].node_type, 2);
    // a proxy has no bytes of its own yet, so it reports no points
    assert_eq!(snapshot[1].num_points, 0);
    assert_eq!(snapshot[1].byte_size, 0);
    assert_eq!(snapshot[1].hierarchy_byte_offset, 44);
    assert_eq!(snapshot[1].hierarchy_byte_size, 44);
    let proxy = snapshot[1].id.unwrap();
    assert_eq!(proxy, NodeId(1));

    // walk: root asks nothing, the proxy asks for its chunk
    let mut walk = HierarchyWalk::new();
    let first = walk.next().unwrap();
    assert_eq!(first, NodeId(0));
    assert!(cloud.hierarchy_request(first).is_none());
    cloud.load_hierarchy(first, &[]).unwrap();
    walk.descend(&cloud, first);
    let second = walk.next().unwrap();
    assert_eq!(second, proxy);
    let request = cloud.hierarchy_request(second).unwrap();
    assert_eq!((request.offset, request.length), (44, 44));
    let proxy_chunk = chunk(&[(1, 0b100, 5, 100, 50), (0, 0, 3, 150, 30)]);
    cloud.load_hierarchy(second, &proxy_chunk).unwrap();
    walk.descend(&cloud, second);
    let third = walk.next().unwrap();
    assert_eq!(third, NodeId(2));
    assert!(cloud.hierarchy_request(third).is_none());
    walk.descend(&cloud, third);
    assert!(walk.next().is_none());

    // the proxy keeps its key and is the real node now
    let snapshot = cloud.hierarchy_snapshot();
    assert_eq!(snapshot.len(), 3);
    assert_eq!(snapshot[1].id, Some(proxy));
    assert_eq!(snapshot[1].name, "r3");
    assert_eq!(snapshot[1].node_type, 1);
    assert_eq!(snapshot[1].num_points, 5);
    assert_eq!(snapshot[1].byte_offset, 100);
    assert_eq!(snapshot[1].byte_size, 50);
    assert_eq!(snapshot[1].hierarchy_byte_offset, 44);
    assert_eq!(snapshot[1].children, [0, 0, 2, 0, 0, 0, 0, 0]);
    assert_eq!(snapshot[2].name, "r32");
    assert_eq!(snapshot[2].level, 2);
    assert_eq!(snapshot[2].node_type, 0);
    assert_eq!(snapshot[2].num_points, 3);
    assert_eq!(cloud.octree().node(NodeId(2)).unwrap().parent, Some(proxy));
}

#[test]
fn loading_twice_changes_nothing() {
    let cloud_chunk = chunk(&[(1, 0b1000, 10, 0, 100), (2, 0, 5, 44, 44)]);
    let proxy_chunk = chunk(&[(1, 0b100, 5, 100, 50), (0, 0, 3, 150, 30)]);
    let mut cloud = open(&cloud_chunk);
    cloud.load_hierarchy(NodeId(1), &proxy_chunk).unwrap();
    let once = format!("{:?}", cloud.hierarchy_snapshot());
    let nodes = cloud.octree().len();
    cloud.load_hierarchy(NodeId(0), &cloud_chunk).unwrap();
    cloud.load_hierarchy(NodeId(1), &proxy_chunk).unwrap();
    cloud.load_hierarchy(NodeId(2), &proxy_chunk).unwrap();
    assert_eq!(format!("{:?}", cloud.hierarchy_snapshot()), once);
    assert_eq!(cloud.octree().len(), nodes);

    // a chunk whose one record is a proxy leaves the proxy, time after time
    let mut cloud = PotreePointCloud::from_metadata("file://cloud", metadata(22), ResourceLoader::new());
    let stub = record(2, 0, 9, 7, 8);
    cloud.load_hierarchy(NodeId(0), &stub).unwrap();
    let once = format!("{:?}", cloud.hierarchy_snapshot());
    cloud.load_hierarchy(NodeId(0), &stub).unwrap();
    assert_eq!(format!("{:?}", cloud.hierarchy_snapshot()), once);
    let root = cloud.octree().root();
    assert_eq!((root.node_type, root.byte_offset, root.byte_size, root.num_points), (2, 7, 8, 9));
    assert_eq!(root.hierarchy_byte_size, 22);
}

#[test]
fn child_mask_semantics() {
    let mask = 0b1010_0101u8;
    let cloud = open(&chunk(&[
        (1, mask, 10, 0, 100),
        (0, 0, 1, 100, 10),
        (0, 0, 2, 110, 20),
        (0, 0, 3, 130, 30),
        (0, 0, 4, 160, 40),
    ]));
    let root = cloud.octree().root();
    let octants: Vec<usize> = (0..8).filter(|o| root.children[*o].is_some()).collect();
    assert_eq!(octants, vec![0, 2, 5, 7]);
    assert_eq!(octants.len() as u32, mask.count_ones());
    for octant in 0..8u8 {
        assert_eq!(has_child(mask, octant), root.children[octant as usize].is_some());
    }
    // children take the next records in rising octant order
    let expected = [(0, "r0", 1), (2, "r2", 2), (5, "r5", 3), (7, "r7", 4)];
    for (rank, (octant, name, points)) in expected.iter().enumerate() {
        let id = root.children[*octant].unwrap();
        assert_eq!(id, NodeId(rank + 1));
        let child = cloud.octree().node(id).unwrap();
        assert_eq!(child.name, *name);
        assert_eq!(child.num_points, *points);
        assert_eq!(child.level, 1);
        assert_eq!(child.parent, Some(NodeId(0)));
        assert_eq!(child.id, Some(id));
    }
    // octant 2 is the upper half along y and the lower half along x and z
    let halves = child_octant_halves(2);
    assert!(halves.upper_y);
    assert!(!halves.upper_x);
    assert!(!halves.upper_z);
}

#[test]
fn octants_take_different_halves() {
    let mut seen = Vec::new();
    for index in 0..8usize {
        let halves = child_octant_halves(index);
        assert_eq!(halves.upper_z, index & 1 != 0);
        assert_eq!(halves.upper_y, index & 2 != 0);
        assert_eq!(halves.upper_x, index & 4 != 0);
        assert!(!seen.contains(&halves));
        seen.push(halves);
    }
    assert_eq!(seen.len(), 8);
    assert_eq!(child_octant_halves(8 + 5), child_octant_halves(5));
}

#[test]
fn node_without_bytes_has_no_points() {
    let cloud = open(&chunk(&[(1, 0b1, 37, 0, 0), (0, 0, 12, 0, 0)]));
    let snapshot = cloud.hierarchy_snapshot();
    assert_eq!(snapshot.len(), 2);
    for entry in &snapshot {
        assert_eq!(entry.byte_size, 0);
        assert_eq!(entry.num_points, 0);
    }
}

#[test]
fn snapshot_lists_parents_before_children() {
    // r has children in octants 1 and 6; r1 has children in octants 0 and 7
    let cloud = open(&chunk(&[
        (1, 0b0100_0010, 10, 0, 100),
        (1, 0b1000_0001, 11, 100, 10),
        (0, 0, 12, 110, 20),
        (0, 0, 13, 130, 30),
        (0, 0, 14, 160, 40),
    ]));
    let snapshot = cloud.hierarchy_snapshot();
    let names: Vec<&str> = snapshot.iter().map(|e| e.name.as_str()).collect();
    // depth first, the child in the highest octant first
    assert_eq!(names, vec!["r", "r6", "r1", "r17", "r10"]);
    assert_eq!(snapshot[0].id, Some(NodeId(0)));
    assert_eq!(snapshot[0].children, [0, 2, 0, 0, 0, 0, 1, 0]);
    assert_eq!(snapshot[2].children, [4, 0, 0, 0, 0, 0, 0, 3]);
    for (place, entry) in snapshot.iter().enumerate() {
        assert_eq!(entry.index, place);
        assert_eq!(entry.name.len() as u32, entry.level + 1);
        for octant in 0..8 {
            let child = entry.children[octant];
            if child != 0 {
                assert!(child > place);
                assert!(child < snapshot.len());
                assert_eq!(snapshot[child].name, format!("{}{}", entry.name, octant));
                assert_eq!(snapshot[child].level, entry.level + 1);
            }
        }
    }
    // the records are listed level by level
    assert_eq!(cloud.octree().node(NodeId(1)).unwrap().name, "r1");
    assert_eq!(cloud.octree().node(NodeId(2)).unwrap().name, "r6");
    assert_eq!(cloud.octree().node(NodeId(3)).unwrap().name, "r10");
    assert_eq!(cloud.octree().node(NodeId(4)).unwrap().name, "r17");
    assert_eq!(cloud.octree().node(NodeId(4)).unwrap().num_points, 14);
}

#[test]
fn walk_visits_lower_octants_first() {
    let cloud = open(&chunk(&[
        (1, 0b0100_0010, 10, 0, 100),
        (1, 0b1000_0001, 11, 100, 10),
        (0, 0, 12, 110, 20),
        (0, 0, 13, 130, 30),
        (0, 0, 14, 160, 40),
    ]));
    let mut walk = HierarchyWalk::new();
    let mut names = Vec::new();
    while let Some(id) = walk.next() {
        names.push(cloud.octree().node(id).unwrap().name.clone());
        walk.descend(&cloud, id);
    }
    assert_eq!(names, vec!["r", "r1", "r10", "r17", "r6"]);
}

#[test]
fn records_are_read_lowest_byte_first() {
    let mut bytes = vec![0u8; 22];
    bytes.extend_from_slice(&[
        1, 0x81, 0x04, 0x03, 0x02, 0x01, 0x18, 0x17, 0x16, 0x15, 0x14, 0x13, 0x12, 0x11, 0x28,
        0x27, 0x26, 0x25, 0x24, 0x23, 0x22, 0x21,
    ]);
    bytes.push(9);
    let entry = HierarchyNodeEntry::read(&bytes, 1).unwrap();
    assert_eq!(entry.node_type, 1);
    assert_eq!(entry.child_mask, 0x81);
    assert_eq!(entry.num_points, 0x0102_0304);
    assert_eq!(entry.byte_offset, 0x1112_1314_1516_1718);
    assert_eq!(entry.byte_size, 0x2122_2324_2526_2728);
    assert_eq!(HierarchyNodeEntry::read(&bytes, 0).unwrap().byte_size, 0);
    assert!(HierarchyNodeEntry::read(&bytes, 2).is_none());
    assert!(HierarchyNodeEntry::read(&bytes, usize::MAX).is_none());
}

#[test]
fn plan_names_parent_and_octant_of_each_record() {
    let plan = plan_chunk(&chunk(&[
        (1, 0b0100_0010, 10, 0, 100),
        (1, 0b1000_0001, 11, 100, 10),
        (2, 0b1111_1111, 12, 110, 20),
        (0, 0, 13, 130, 30),
        (0, 0, 14, 160, 40),
    ]))
    .unwrap();
    let places: Vec<(usize, u8, usize)> =
        plan.iter().map(|p| (p.parent, p.octant, p.first_child)).collect();
    assert_eq!(places, vec![(0, 0, 1), (0, 1, 3), (0, 6, 5), (1, 0, 5), (1, 7, 5)]);
    assert_eq!(plan[2].entry.num_points, 12);
    assert!(plan_chunk(&[0u8; 21]).is_none());
}

#[test]
fn clone_of_a_cloud_grows_alone() {
    let mut cloud = open(&chunk(&[(1, 0b1000, 10, 0, 100), (2, 0, 5, 44, 44)]));
    let copy = cloud.clone();
    cloud.load_hierarchy(NodeId(1), &chunk(&[(1, 0b100, 5, 100, 50), (0, 0, 3, 150, 30)])).unwrap();
    assert_eq!(cloud.hierarchy_snapshot().len(), 3);
    assert_eq!(copy.hierarchy_snapshot().len(), 2);
    assert_eq!(copy.metadata().encoding, "BROTLI");
    assert_eq!(copy.hierarchy_url(), cloud.hierarchy_url());
    assert_eq!(copy.octree().node(NodeId(1)).unwrap().node_type, 2);
}

#[test]
fn names_and_levels_down_a_chain() {
    // every node has one child, in octant 7, 5, 3 and 1 in turn
    let cloud = open(&chunk(&[
        (1, 1 << 7, 1, 0, 1),
        (1, 1 << 5, 1, 1, 1),
        (1, 1 << 3, 1, 2, 1),
        (1, 1 << 1, 1, 3, 1),
        (0, 0, 1, 4, 1),
    ]));
    let names = ["r", "r7", "r75", "r753", "r7531"];
    for (key, name) in names.iter().enumerate() {
        let node = cloud.octree().node(NodeId(key)).unwrap();
        assert_eq!(node.name, *name);
        assert_eq!(node.level as usize, key);
        assert_eq!(node.parent, if key == 0 { None } else { Some(NodeId(key - 1)) });
    }
    let snapshot = cloud.hierarchy_snapshot();
    assert_eq!(snapshot.len(), 5);
    assert_eq!(snapshot[3].children, [0, 4, 0, 0, 0, 0, 0, 0]);
}
