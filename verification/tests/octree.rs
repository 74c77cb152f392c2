use potree::metadata::{AttributeType, HierarchyMetadata, Metadata};
use potree::octree::loader::NodeLoader;
use potree::octree::node::{octant_path, OctreeNode};
use potree::octree::snapshot::OctreeNodeSnapshot;
use potree::octree::{FlatOctree, NodeId};

#[test]
fn new_arena_holds_a_blank_root() {
    let octree = FlatOctree::new();
    assert_eq!(octree.len(), 1);
    assert_eq!(octree.root_id(), NodeId(0));
    let root = octree.root();
    assert_eq!(root.name, "");
    assert_eq!(root.level, 0);
    assert_eq!(root.node_type, 0);
    assert_eq!(root.id, None);
    assert_eq!(root.children, [None; 8]);
    assert!(octree.node(NodeId(1)).is_none());
}

#[test]
fn keys_rise_with_each_insert() {
    let mut octree = FlatOctree::new();
    octree.reserve(3);
    octree.reserve(usize::MAX);
    for expected in 1..50usize {
        let mut node = OctreeNode::default();
        node.num_points = expected as u32;
        assert_eq!(octree.insert(node), NodeId(expected));
        assert_eq!(octree.len(), expected + 1);
    }
    for key in 1..50usize {
        assert_eq!(octree.node(NodeId(key)).unwrap().num_points, key as u32);
    }
    assert_eq!(octree.root().num_points, 0);
    assert!(octree.node(NodeId(50)).is_none());
}

#[test]
fn nodes_change_in_place() {
    let mut octree = FlatOctree::new();
    let id = octree.insert(OctreeNode::default());
    octree.node_mut(id).unwrap().byte_size = 77;
    octree.root_mut().level = 3;
    assert!(octree.node_mut(NodeId(2)).is_none());
    assert_eq!(octree.node(id).unwrap().byte_size, 77);
    assert_eq!(octree.node(id).unwrap().level, 0);
    assert_eq!(octree.root().level, 3);
    assert_eq!(octree.root().byte_size, 0);
    assert_eq!(octree.len(), 2);
}

#[test]
fn root_node_of_the_metadata() {
    let metadata = Metadata {
        version: "2.0".to_string(),
        name: "cloud".to_string(),
        description: String::new(),
        points: 12,
        projection: String::new(),
        hierarchy: HierarchyMetadata { first_chunk_size: 1234, step_size: 4, depth: 7 },
        encoding: "BROTLI".to_string(),
        attributes: Vec::new(),
    };
    let root = metadata.create_root_node();
    assert_eq!(root.name, "r");
    assert_eq!(root.level, 0);
    assert_eq!(root.node_type, 2);
    assert_eq!(root.num_points, 0);
    assert_eq!(root.byte_offset, 0);
    assert_eq!(root.byte_size, 0);
    assert_eq!(root.hierarchy_byte_offset, 0);
    assert_eq!(root.hierarchy_byte_size, 1234);
    assert_eq!(root.parent, None);
    assert_eq!(root.children, [None; 8]);
    assert_ne!(AttributeType::Float, AttributeType::Double);
}

#[test]
fn entry_of_a_node() {
    let mut node = OctreeNode::default();
    node.name = "r4".to_string();
    node.level = 1;
    node.node_type = 1;
    node.num_points = 5;
    node.byte_offset = 6;
    node.byte_size = 7;
    node.hierarchy_byte_offset = 8;
    node.hierarchy_byte_size = 9;
    node.id = Some(NodeId(3));
    node.children[2] = Some(NodeId(4));
    let entry = OctreeNodeSnapshot::from(&node);
    assert_eq!(entry.id, Some(NodeId(3)));
    assert_eq!(entry.index, 0);
    assert_eq!(entry.name, "r4");
    assert_eq!(entry.level, 1);
    assert_eq!(entry.node_type, 1);
    assert_eq!(entry.num_points, 5);
    assert_eq!(entry.byte_offset, 6);
    assert_eq!(entry.byte_size, 7);
    assert_eq!(entry.hierarchy_byte_offset, 8);
    assert_eq!(entry.hierarchy_byte_size, 9);
    assert_eq!(entry.children, [0; 8]);
}

#[test]
fn loader_keeps_its_url() {
    let loader = NodeLoader::new("http://host/cloud".to_string());
    assert_eq!(loader.url(), "http://host/cloud");
}

#[test]
fn clone_is_a_copy_of_its_own() {
    let mut octree = FlatOctree::new();
    let id = octree.insert(OctreeNode::default());
    octree.node_mut(id).unwrap().name = "r1".to_string();
    let mut copy = octree.clone();
    assert_eq!(copy.len(), 2);
    assert_eq!(copy.node(id).unwrap().name, "r1");
    assert_eq!(copy.insert(OctreeNode::default()), NodeId(2));
    copy.node_mut(id).unwrap().level = 9;
    assert_eq!(octree.len(), 2);
    assert_eq!(octree.node(id).unwrap().level, 0);
    let node = copy.node(id).unwrap().clone();
    assert_eq!((node.name.as_str(), node.level), ("r1", 9));
}

#[test]
fn path_of_a_name() {
    assert_eq!(octant_path("r"), Some(vec![]));
    assert_eq!(octant_path("r0"), Some(vec![0]));
    assert_eq!(octant_path("r7531"), Some(vec![7, 5, 3, 1]));
    assert_eq!(octant_path("r01234567"), Some(vec![0, 1, 2, 3, 4, 5, 6, 7]));
    for name in ["", "0", "x1", "rr", "r8", "r12a", "r1 ", "R1", "r\u{661}"] {
        assert_eq!(octant_path(name), None);
    }
}
