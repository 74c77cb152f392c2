//! A Potree point cloud as the reader holds it: its metadata, the two files
//! it reads from, and the octree that grows as hierarchy chunks come in.

use vstd::prelude::*;
use vstd::string::StringExecFns;
use crate::hierarchy::{
    chunk_fits, children_of_entry, count_bits, entry_at, fanout, has_child, heir_of,
    lemma_count_bits_bounds, lemma_first_slot, lemma_later_slot, lemma_parent_of_slot,
    lemma_parse_keeps_tree, lemma_slot_node, lemma_slots_monotone, node_at_slot, parsed_nodes,
    plan_chunk, record_count, slot_key, slot_plan, slots_before, with_entry,
    HierarchyNodeEntry, SlotPlan,
};
use crate::metadata::{root_node, same_metadata, Metadata};
use crate::octree::{FlatOctree, NodeId};
use crate::octree::node::{
    blank_node, node_ok, octant_digit, rooted, tree_wf, NodeModel, OctreeNode, NODE_TYPE_PROXY,
};
use crate::octree::snapshot::{is_snapshot, models, take_snapshot, OctreeNodeSnapshot};
use crate::point::{
    brotli_decoded, decode_points, decoded_points, decompress, holds_all_attributes,
    LoadPointsError, QuantizedPoint,
};
use crate::resource::{file_url, ByteRange, ResourceError, ResourceLoader};
use crate::text::digit_str;

verus! {

/// Why a point cloud could not be opened.
#[derive(Debug)]
pub enum LoadPotreePointCloudError {
    /// The metadata could not be had.
    LoadMetadataError(ResourceError),
    /// The first hierarchy chunk could not be read.
    ReadHierarchyError(ReadHierarchyError),
    /// A resource could not be had.
    ResourceError(ResourceError),
}

/// Why a hierarchy chunk could not be read.
#[derive(Debug)]
pub enum ReadHierarchyError {
    AlreadyLoaded,
    JsonError(serde_json::Error),
    Io(std::io::Error),
    /// The chunk's bytes could not be had.
    Resource(ResourceError),
    /// The chunk lists no subtree: its length is no multiple of the record
    /// length or is zero, a record has an unknown type, the records do not
    /// match the children that they announce, or the subtree is too deep or
    /// too large for the octree.
    InvalidBinaryData,
}

/// A point cloud and as much of its octree as was read.
#[derive(Debug)]
pub struct PotreePointCloud {
    metadata: Metadata,
    hierarchy_url: String,
    octree_url: String,
    octree: FlatOctree<OctreeNode>,
    resource_loader: ResourceLoader,
}

impl Clone for PotreePointCloud {
    fn clone(&self) -> (cloud: PotreePointCloud)
        ensures
            cloud.nodes() == self.nodes(),
            cloud.wf() == self.wf(),
            cloud.spec_hierarchy_url() == self.spec_hierarchy_url(),
            cloud.spec_octree_url() == self.spec_octree_url(),
            same_metadata(cloud.spec_metadata(), self.spec_metadata()),
            cloud.spec_resource_loader() == self.spec_resource_loader(),
    {
        PotreePointCloud {
            metadata: self.metadata.clone(),
            hierarchy_url: self.hierarchy_url.clone(),
            octree_url: self.octree_url.clone(),
            octree: self.octree.clone(),
            resource_loader: self.resource_loader,
        }
    }
}

impl PotreePointCloud {
    /// The nodes of the octree in the order of their keys.
    pub closed spec fn nodes(&self) -> Seq<NodeModel> {
        self.octree@
    }

    /// The cloud's metadata.
    pub closed spec fn spec_metadata(&self) -> Metadata {
        self.metadata
    }

    /// URL of the hierarchy file.
    pub closed spec fn spec_hierarchy_url(&self) -> Seq<char> {
        self.hierarchy_url@
    }

    /// URL of the file that holds the points.
    pub closed spec fn spec_octree_url(&self) -> Seq<char> {
        self.octree_url@
    }

    /// The transports that read the cloud's files.
    pub closed spec fn spec_resource_loader(&self) -> ResourceLoader {
        self.resource_loader
    }

    /// The arena is sound and its nodes form an octree.
    pub closed spec fn wf(&self) -> bool {
        &&& self.octree.wf()
        &&& tree_wf(self.octree@)
    }

    /// The nodes of a sound cloud form an octree.
    pub proof fn lemma_wf_tree(&self)
        requires
            self.wf(),
        ensures
            tree_wf(self.nodes()),
    {
    }

    /// The octree.
    pub fn octree(&self) -> (octree: &FlatOctree<OctreeNode>)
        requires
            self.wf(),
        ensures
            octree.wf(),
            octree@ == self.nodes(),
    {
        &self.octree
    }

    /// The children that a record gives its node, as keys.
    fn child_keys(plan: &SlotPlan, first_key: usize, root: NodeId) -> (keys: [Option<NodeId>; 8])
        requires
            plan.first_child >= 1,
            first_key + plan.first_child + count_bits(plan.entry.child_mask, 8) - 1
                <= usize::MAX,
        ensures
            keys@ == children_of_entry(
                plan.entry,
                plan.first_child as int,
                first_key as int,
                root,
            ),
    {
        let ghost arena_len = first_key as int;
        let mut keys: [Option<NodeId>; 8] = [None, None, None, None, None, None, None, None];
        let mut rank: usize = 0;
        let mut octant: u8 = 0;
        while octant < 8
            invariant
                octant <= 8,
                plan.first_child >= 1,
                first_key == arena_len,
                first_key + plan.first_child + count_bits(plan.entry.child_mask, 8) - 1
                    <= usize::MAX,
                rank == count_bits(plan.entry.child_mask, octant as int),
                rank <= octant,
                forall|o: int| octant <= o < 8 ==> #[trigger] keys@[o] is None,
                forall|o: int|
                    0 <= o < octant ==> #[trigger] keys@[o] == children_of_entry(
                        plan.entry,
                        plan.first_child as int,
                        arena_len,
                        root,
                    )[o],
            decreases 8 - octant,
        {
            proof {
                lemma_count_bits_bounds(plan.entry.child_mask, 0, octant as int);
                lemma_count_bits_bounds(plan.entry.child_mask, octant as int + 1, 8);
            }
            if has_child(plan.entry.child_mask, octant) {
                keys[octant as usize] = Some(NodeId(first_key + (plan.first_child + rank) - 1));
                rank += 1;
            }
            octant += 1;
        }
        assert(keys@ =~= children_of_entry(
            plan.entry,
            plan.first_child as int,
            arena_len,
            root,
        ));
        keys
    }

    /// Makes `node` the child that `heir` describes, if it describes one,
    /// and reads a record into it.
    fn fill_node(
        node: &mut OctreeNode,
        heir: Option<(String, u32, NodeId)>,
        entry: HierarchyNodeEntry,
        first_record: bool,
        keys: [Option<NodeId>; 8],
    )
        ensures
            final(node)@ == with_entry(
                match heir {
                    Some((name, level, parent)) => NodeModel {
                        name: name@,
                        level,
                        parent: Some(parent),
                        ..old(node)@
                    },
                    None => old(node)@,
                },
                entry,
                first_record,
                keys@,
            ),
    {
        match heir {
            Some((name, level, parent_key)) => {
                node.name = name;
                node.level = level;
                node.parent = Some(parent_key);
            },
            None => {},
        }
        if !first_record && entry.node_type == NODE_TYPE_PROXY {
            node.hierarchy_byte_offset = entry.byte_offset;
            node.hierarchy_byte_size = entry.byte_size;
        } else {
            node.byte_offset = entry.byte_offset;
            node.byte_size = entry.byte_size;
        }
        if node.byte_size == 0 {
            // a node without bytes has no points, whatever its record says
            node.num_points = 0;
        } else {
            node.num_points = entry.num_points;
        }
        node.node_type = entry.node_type;
        if entry.node_type != NODE_TYPE_PROXY {
            node.children = keys;
        }
    }

    /// A cloud whose files stand under `url` and whose octree is the root
    /// that `metadata` describes, a proxy for the first hierarchy chunk.
    pub fn from_metadata(url: &str, metadata: Metadata, resource_loader: ResourceLoader) -> (cloud:
        PotreePointCloud)
        ensures
            cloud.spec_resource_loader() == resource_loader,
            cloud.wf(),
            cloud.nodes() == seq![
                NodeModel {
                    id: Some(NodeId(0)),
                    ..root_node(metadata.hierarchy.first_chunk_size)
                },
            ],
            cloud.spec_metadata() == metadata,
            cloud.spec_hierarchy_url() == url@ + "/"@ + "hierarchy.bin"@,
            cloud.spec_octree_url() == url@ + "/"@ + "octree.bin"@,
    {
        let mut octree = FlatOctree::new();
        let root_id = octree.root_id();
        let mut first = metadata.create_root_node();
        first.id = Some(root_id);
        let root = octree.root_mut();
        *root = first;
        let hierarchy_url = file_url(url, "hierarchy.bin");
        let octree_url = file_url(url, "octree.bin");
        let cloud = PotreePointCloud {
            metadata,
            hierarchy_url,
            octree_url,
            octree,
            resource_loader,
        };
        proof {
            let nodes = cloud.octree@;
            assert(nodes =~= seq![
                NodeModel {
                    id: Some(NodeId(0)),
                    ..root_node(metadata.hierarchy.first_chunk_size)
                },
            ]);
            assert(node_ok(nodes, 0)) by {
                assert(nodes[0].children =~= blank_node().children);
            }
            assert(rooted(nodes, 0));
        }
        cloud
    }

    /// Reads a hierarchy chunk into the octree below the proxy `node_id`.
    /// The first record fills that node; each later record fills a new node,
    /// the child that an earlier record announced. A chunk that does not fit
    /// is refused and leaves the cloud as it was.
    pub fn parse_hierarchy(&mut self, node_id: NodeId, buf: &[u8]) -> (r: Result<
        (),
        ReadHierarchyError,
    >)
        requires
            old(self).wf(),
            node_id.0 < old(self).nodes().len(),
            old(self).nodes()[node_id.0 as int].node_type == NODE_TYPE_PROXY,
        ensures
            final(self).wf(),
            final(self).spec_metadata() == old(self).spec_metadata(),
            final(self).spec_hierarchy_url() == old(self).spec_hierarchy_url(),
            final(self).spec_octree_url() == old(self).spec_octree_url(),
            final(self).spec_resource_loader() == old(self).spec_resource_loader(),
            match r {
                Ok(()) => {
                    &&& chunk_fits(old(self).nodes(), node_id, buf@)
                    &&& final(self).nodes() == parsed_nodes(old(self).nodes(), node_id, buf@)
                },
                Err(e) => {
                    &&& e is InvalidBinaryData
                    &&& !chunk_fits(old(self).nodes(), node_id, buf@)
                    &&& final(self).nodes() == old(self).nodes()
                },
            },
    {
        let ghost before = self.octree@;
        let plan = match plan_chunk(buf) {
            Some(plan) => plan,
            None => { return Err(ReadHierarchyError::InvalidBinaryData); },
        };
        let num_nodes: usize = plan.len();
        let base_level: u32 = self.octree.node(node_id).unwrap().level;
        if num_nodes - 1 > (u32::MAX - base_level) as usize {
            return Err(ReadHierarchyError::InvalidBinaryData);
        }
        let first_key: usize = self.octree.len();
        if num_nodes - 1 > usize::MAX - first_key {
            return Err(ReadHierarchyError::InvalidBinaryData);
        }
        // reserve additional nodes
        self.octree.reserve(num_nodes - 1);
        // allocate additional nodes
        let mut made: usize = 1;
        while made < num_nodes
            invariant
                1 <= made <= num_nodes,
                self.octree.wf(),
                self.octree@.len() == first_key + made - 1,
                first_key == before.len(),
                self.metadata == old(self).metadata,
                self.hierarchy_url == old(self).hierarchy_url,
                self.octree_url == old(self).octree_url,
                self.resource_loader == old(self).resource_loader,
                forall|key: int| 0 <= key < first_key ==> #[trigger] self.octree@[key] == before[key],
                forall|slot: int|
                    1 <= slot < made ==> #[trigger] self.octree@[first_key + slot - 1]
                        == (NodeModel {
                        id: Some(NodeId((first_key + slot - 1) as usize)),
                        ..blank_node()
                    }),
            decreases num_nodes - made,
        {
            let id = self.octree.insert(OctreeNode::default());
            let node = self.octree.node_mut(id).unwrap();
            node.id = Some(id);
            made += 1;
        }
        proof {
            self.octree.lemma_len();
        }
        // the first node is always the root of the (sub-)hierarchy we are loading
        let mut i: usize = 0;
        while i < num_nodes
            invariant
                i <= num_nodes,
                num_nodes == record_count(buf@),
                self.octree.wf(),
                self.octree@.len() == first_key + num_nodes - 1,
                first_key == before.len(),
                first_key + num_nodes - 1 <= usize::MAX,
                node_id.0 < first_key,
                tree_wf(before),
                chunk_fits(before, node_id, buf@),
                plan@.len() == num_nodes,
                forall|j: int| 0 <= j < num_nodes ==> #[trigger] plan@[j] == slot_plan(buf@, j),
                self.metadata == old(self).metadata,
                self.hierarchy_url == old(self).hierarchy_url,
                self.octree_url == old(self).octree_url,
                self.resource_loader == old(self).resource_loader,
                forall|key: int|
                    0 <= key < first_key && key != node_id.0 ==> #[trigger] self.octree@[key]
                        == before[key],
                i == 0 ==> self.octree@[node_id.0 as int] == before[node_id.0 as int],
                forall|slot: int|
                    0 <= slot < i ==> #[trigger] self.octree@[slot_key(
                        first_key as int,
                        node_id,
                        slot,
                    ).0 as int] == node_at_slot(before, node_id, buf@, slot),
                forall|slot: int|
                    1 <= slot < num_nodes && i <= slot ==> #[trigger] self.octree@[first_key + slot
                        - 1] == (NodeModel {
                        id: Some(NodeId((first_key + slot - 1) as usize)),
                        ..blank_node()
                    }),
            decreases num_nodes - i,
        {
            let slot_plan = plan[i];
            let entry = slot_plan.entry;
            proof {
                lemma_slot_node(before, node_id, buf@, i as int);
                lemma_slots_monotone(buf@, i as int + 1, num_nodes as int);
                lemma_slots_monotone(buf@, i as int, num_nodes as int);
                lemma_slots_monotone(buf@, 0, i as int);
                assert(slots_before(buf@, i as int + 1) == slots_before(buf@, i as int) + fanout(
                    entry_at(buf@, i as int),
                ));
            }
            let key = if i == 0 {
                node_id
            } else {
                NodeId(first_key + i - 1)
            };
            assert(key == slot_key(first_key as int, node_id, i as int));
            let ghost above = node_at_slot(before, node_id, buf@, slot_plan.parent as int);
            let heir: Option<(String, u32, NodeId)> = if i == 0 {
                None
            } else {
                proof {
                    lemma_parent_of_slot(buf@, i as int);
                    lemma_slot_node(before, node_id, buf@, slot_plan.parent as int);
                }
                let parent_key = if slot_plan.parent == 0 {
                    node_id
                } else {
                    NodeId(first_key + slot_plan.parent - 1)
                };
                assert(parent_key == slot_key(first_key as int, node_id, slot_plan.parent as int));
                let parent = self.octree.node(parent_key).unwrap();
                assert(parent@ == above);
                let mut name = parent.name.clone();
                name.append(digit_str(slot_plan.octant));
                assert(name@ =~= above.name.push(octant_digit(slot_plan.octant as int)));
                let level: u32 = parent.level + 1;
                Some((name, level, parent_key))
            };
            let keys: [Option<NodeId>; 8] = if entry.node_type != NODE_TYPE_PROXY {
                Self::child_keys(&slot_plan, first_key, node_id)
            } else {
                [None, None, None, None, None, None, None, None]
            };
            let node = self.octree.node_mut(key).unwrap();
            let ghost start = node@;
            Self::fill_node(node, heir, entry, i == 0, keys);
            proof {
                if i == 0 {
                    lemma_first_slot(before, node_id, buf@);
                } else {
                    lemma_later_slot(before, node_id, buf@, i as int);
                    assert(start.children =~= blank_node().children);
                    assert(heir_of(above, slot_plan.octant as int, key, heir.unwrap().2) == (
                    NodeModel {
                        name: heir.unwrap().0@,
                        level: heir.unwrap().1,
                        parent: Some(heir.unwrap().2),
                        ..start
                    }));
                }
                assert(self.octree@[key.0 as int] == node_at_slot(before, node_id, buf@, i as int));
            }
            i += 1;
        }
        proof {
            assert(self.octree@ =~= parsed_nodes(before, node_id, buf@)) by {
                assert forall|key: int| 0 <= key < self.octree@.len() implies self.octree@[key]
                    == parsed_nodes(before, node_id, buf@)[key] by {
                    if key == node_id.0 {
                        assert(slot_key(first_key as int, node_id, 0).0 == key);
                    } else if key >= first_key {
                        assert(slot_key(first_key as int, node_id, key - first_key + 1).0 == key);
                    }
                }
            }
            lemma_parse_keeps_tree(before, node_id, buf@);
        }
        Ok(())
    }

    /// URL of the metadata of the cloud under `url`.
    pub fn metadata_url(url: &str) -> (r: String)
        ensures
            r@ == url@ + "/"@ + "metadata.json"@,
    {
        file_url(url, "metadata.json")
    }

    /// The cloud's metadata.
    pub fn metadata(&self) -> (metadata: &Metadata)
        ensures
            *metadata == self.spec_metadata(),
    {
        &self.metadata
    }

    /// URL of the hierarchy file.
    pub fn hierarchy_url(&self) -> (url: &String)
        ensures
            url@ == self.spec_hierarchy_url(),
    {
        &self.hierarchy_url
    }

    /// URL of the file that holds the points.
    pub fn octree_url(&self) -> (url: &String)
        ensures
            url@ == self.spec_octree_url(),
    {
        &self.octree_url
    }

    /// The transports that read the cloud's files.
    pub fn resource_loader(&self) -> (loader: &ResourceLoader)
        ensures
            *loader == self.spec_resource_loader(),
    {
        &self.resource_loader
    }

    /// The bytes of the hierarchy file that a node still needs: the chunk of
    /// a proxy, and nothing for any other node.
    pub fn hierarchy_request(&self, node_id: NodeId) -> (r: Option<ByteRange>)
        requires
            self.wf(),
            node_id.0 < self.nodes().len(),
        ensures
            r == chunk_wanted(self.nodes()[node_id.0 as int]),
    {
        // get the node
        let node = self.octree.node(node_id).unwrap();
        if node.node_type == NODE_TYPE_PROXY {
            Some(ByteRange { offset: node.hierarchy_byte_offset, length: node.hierarchy_byte_size })
        } else {
            None
        }
    }

    /// Reads the chunk of a proxy into the octree below it. For a node that
    /// is no proxy, nothing is read and nothing changes.
    pub fn load_hierarchy(&mut self, node_id: NodeId, data: &[u8]) -> (r: Result<
        (),
        ReadHierarchyError,
    >)
        requires
            old(self).wf(),
            node_id.0 < old(self).nodes().len(),
        ensures
            final(self).wf(),
            final(self).spec_metadata() == old(self).spec_metadata(),
            final(self).spec_hierarchy_url() == old(self).spec_hierarchy_url(),
            final(self).spec_octree_url() == old(self).spec_octree_url(),
            final(self).spec_resource_loader() == old(self).spec_resource_loader(),
            final(self).nodes() == loaded_nodes(old(self).nodes(), node_id, data@),
            r is Ok <==> (old(self).nodes()[node_id.0 as int].node_type == NODE_TYPE_PROXY
                ==> chunk_fits(old(self).nodes(), node_id, data@)),
            r is Err ==> r->Err_0 is InvalidBinaryData,
    {
        let node = self.octree.node(node_id).unwrap();
        if node.node_type == NODE_TYPE_PROXY {
            self.parse_hierarchy(node_id, data)
        } else {
            Ok(())
        }
    }

    /// Takes a snapshot of the current loaded hierarchy and return it
    pub fn hierarchy_snapshot(&self) -> (entries: Vec<OctreeNodeSnapshot>)
        requires
            self.wf(),
        ensures
            is_snapshot(self.nodes(), models(entries@)),
            entries@.len() == self.nodes().len(),
    {
        take_snapshot(&self.octree)
    }

    /// The bytes of the points file that hold the points of a node.
    pub fn points_request(&self, node_id: NodeId) -> (r: Result<ByteRange, LoadPointsError>)
        requires
            self.wf(),
        ensures
            match r {
                Ok(range) => {
                    &&& node_id.0 < self.nodes().len()
                    &&& range.offset == self.nodes()[node_id.0 as int].byte_offset
                    &&& range.length == self.nodes()[node_id.0 as int].byte_size
                },
                Err(error) => error is NodeNotFound && node_id.0 >= self.nodes().len(),
            },
    {
        match self.octree.node(node_id) {
            Some(node) => Ok(ByteRange { offset: node.byte_offset, length: node.byte_size }),
            None => Err(LoadPointsError::NodeNotFound),
        }
    }

    /// Decodes the points of the node under `node_id` out of the bytes that
    /// `points_request` names.
    pub fn load_points(&self, node_id: NodeId, buffer: &[u8]) -> (r: Result<
        Vec<QuantizedPoint>,
        LoadPointsError,
    >)
        requires
            self.wf(),
        ensures
            node_id.0 >= self.nodes().len() ==> (r matches Err(error) && error is NodeNotFound),
            node_id.0 < self.nodes().len() ==> points_outcome(
                self.spec_metadata(),
                self.nodes()[node_id.0 as int].num_points,
                buffer@,
                r,
            ),
    {
        match self.octree.node(node_id) {
            Some(node) => self.load_points_for_node(node, buffer),
            None => Err(LoadPointsError::NodeNotFound),
        }
    }

    /// Decodes the points of a node out of its bytes. Only clouds whose
    /// points are packed with Brotli are decoded.
    pub fn load_points_for_node(&self, node: &OctreeNode, buffer: &[u8]) -> (r: Result<
        Vec<QuantizedPoint>,
        LoadPointsError,
    >)
        ensures
            points_outcome(self.spec_metadata(), node.num_points, buffer@, r),
    {
        if self.metadata.encoding == String::from_str("BROTLI") {
            self.parse_points_brotli(node, buffer)
        } else {
            Err(LoadPointsError::EncodingUnimplemented(self.metadata.encoding.clone()))
        }
    }

    /// Decompresses the bytes of a node and reads its points out of them.
    pub fn parse_points_brotli(&self, node: &OctreeNode, buffer: &[u8]) -> (r: Result<
        Vec<QuantizedPoint>,
        LoadPointsError,
    >)
        ensures
            brotli_outcome(self.spec_metadata(), node.num_points, buffer@, r),
    {
        let decompressed_buffer = decompress(buffer)?;
        decode_points(node.num_points, &self.metadata.attributes, decompressed_buffer.as_slice())
    }
}

/// The bytes of the hierarchy file that a node still needs.
pub open spec fn chunk_wanted(node: NodeModel) -> Option<ByteRange> {
    if node.node_type == NODE_TYPE_PROXY {
        Some(ByteRange { offset: node.hierarchy_byte_offset, length: node.hierarchy_byte_size })
    } else {
        None
    }
}

/// The octree after the bytes `data` were offered to the node `node_id` as
/// its hierarchy chunk: they are read below a proxy if they fit, and any
/// other case leaves the octree as it is.
pub open spec fn loaded_nodes(nodes: Seq<NodeModel>, node_id: NodeId, data: Seq<u8>) -> Seq<
    NodeModel,
> {
    if nodes[node_id.0 as int].node_type == NODE_TYPE_PROXY && chunk_fits(nodes, node_id, data) {
        parsed_nodes(nodes, node_id, data)
    } else {
        nodes
    }
}

/// Whether `r` is what decoding a Brotli-packed node of `num_points` points
/// gives on the bytes `stream`: an error for bytes that are no Brotli
/// stream, an error for a stream that ends before the last attribute's last
/// value, and else the points.
pub open spec fn brotli_outcome(
    metadata: Metadata,
    num_points: u32,
    stream: Seq<u8>,
    r: Result<Vec<QuantizedPoint>, LoadPointsError>,
) -> bool {
    match brotli_decoded(stream) {
        None => (r matches Err(error) && error is Io),
        Some(bytes) => if holds_all_attributes(metadata.attributes@, num_points as int, bytes) {
            (r matches Ok(points) && points@ == decoded_points(
                metadata.attributes@,
                num_points as int,
                bytes,
            ))
        } else {
            (r matches Err(error) && error is Truncated)
        },
    }
}

/// Whether `r` is what decoding a node of `num_points` points gives on the
/// bytes `stream`: for a cloud that is not packed with Brotli, the error
/// that names its encoding.
pub open spec fn points_outcome(
    metadata: Metadata,
    num_points: u32,
    stream: Seq<u8>,
    r: Result<Vec<QuantizedPoint>, LoadPointsError>,
) -> bool {
    if metadata.encoding@ == "BROTLI"@ {
        brotli_outcome(metadata, num_points, stream, r)
    } else {
        (r matches Err(LoadPointsError::EncodingUnimplemented(encoding)) && encoding@
            == metadata.encoding@)
    }
}

/// Offering a node the same bytes a second time changes nothing: after the
/// first time the node is either no proxy any more, or a proxy that its one
/// record describes as before.
pub proof fn lemma_load_twice(nodes: Seq<NodeModel>, node_id: NodeId, data: Seq<u8>)
    requires
        tree_wf(nodes),
        node_id.0 < nodes.len(),
    ensures
        loaded_nodes(loaded_nodes(nodes, node_id, data), node_id, data) == loaded_nodes(
            nodes,
            node_id,
            data,
        ),
{
    let once = loaded_nodes(nodes, node_id, data);
    if nodes[node_id.0 as int].node_type == NODE_TYPE_PROXY && chunk_fits(nodes, node_id, data) {
        lemma_slot_node(nodes, node_id, data, 0);
        lemma_first_slot(nodes, node_id, data);
        assert(once[node_id.0 as int] == node_at_slot(nodes, node_id, data, 0));
        if once[node_id.0 as int].node_type == NODE_TYPE_PROXY {
            assert(fanout(entry_at(data, 0)) == 0);
            assert(slots_before(data, 1) == slots_before(data, 0) + fanout(entry_at(data, 0)));
            assert(record_count(data) == 1);
            lemma_first_slot(once, node_id, data);
            assert(parsed_nodes(once, node_id, data) =~= once);
        }
    }
}

/// The walk through the octree that finds the proxies: the nodes that are
/// still to be visited, the next one last.
#[derive(Clone, Debug)]
pub struct HierarchyWalk {
    pending: Vec<NodeId>,
}

/// The children of a node in the octants from `from` on, highest octant
/// first.
pub open spec fn children_down(node: NodeModel, from: int) -> Seq<NodeId>
    decreases 8 - from,
{
    if 0 <= from < 8 {
        children_down(node, from + 1) + (match node.children[from] {
            Some(child) => seq![child],
            None => seq![],
        })
    } else {
        seq![]
    }
}

impl View for HierarchyWalk {
    type V = Seq<NodeId>;

    /// The nodes that are still to be visited, the next one last.
    closed spec fn view(&self) -> Seq<NodeId> {
        self.pending@
    }
}

impl HierarchyWalk {
    /// A walk that starts at the root.
    pub fn new() -> (walk: HierarchyWalk)
        ensures
            walk@ == seq![NodeId(0)],
    {
        let mut pending: Vec<NodeId> = Vec::new();
        pending.push(NodeId(0));
        HierarchyWalk { pending }
    }

    /// The node to visit now, which leaves the walk; `None` when the walk is
    /// over.
    pub fn next(&mut self) -> (r: Option<NodeId>)
        ensures
            match r {
                Some(node_id) => old(self)@ == final(self)@.push(node_id),
                None => old(self)@.len() == 0 && final(self)@ == old(self)@,
            },
    {
        let r = self.pending.pop();
        proof {
            if r is Some {
                assert(old(self)@ =~= self@.push(r.unwrap()));
            }
        }
        r
    }

    /// Puts the children of a visited node on the walk, so that the one in
    /// the lowest octant is visited next, and its whole subtree before the
    /// next child.
    pub fn descend(&mut self, cloud: &PotreePointCloud, node_id: NodeId)
        requires
            cloud.wf(),
            node_id.0 < cloud.nodes().len(),
        ensures
            final(self)@ == old(self)@ + children_down(cloud.nodes()[node_id.0 as int], 0),
    {
        let node = cloud.octree.node(node_id).unwrap();
        assert(node_ok(cloud.nodes(), node_id.0 as int));
        let mut octant: u8 = 8;
        while octant > 0
            invariant
                octant <= 8,
                node@.children.len() == 8,
                self.pending@ == old(self).pending@ + children_down(node@, octant as int),
            decreases octant,
        {
            octant -= 1;
            match node.children[octant as usize] {
                Some(child) => { self.pending.push(child); },
                None => {},
            }
            assert(self.pending@ =~= old(self).pending@ + children_down(node@, octant as int));
        }
    }
}

/// The order in which a walk visits the node `key` and the nodes below it:
/// the node, then the subtrees of its children, the lowest octant first.
pub open spec fn visit_order(nodes: Seq<NodeModel>, key: int) -> Seq<int>
    decreases nodes.len() - key, 9int,
{
    if 0 <= key < nodes.len() {
        seq![key] + visits_from(nodes, key, 0)
    } else {
        seq![]
    }
}

/// The order in which a walk visits the subtrees of the children that node
/// `key` has in the octants from `from` on.
pub open spec fn visits_from(nodes: Seq<NodeModel>, key: int, from: int) -> Seq<int>
    decreases nodes.len() - key, 8 - from,
{
    if 0 <= key < nodes.len() && 0 <= from < 8 {
        (match nodes[key].children[from] {
            Some(child) => if key < child.0 < nodes.len() {
                visit_order(nodes, child.0 as int)
            } else {
                seq![]
            },
            None => seq![],
        }) + visits_from(nodes, key, from + 1)
    } else {
        seq![]
    }
}

/// The nodes that a walk has yet to visit, in their order, when `pending`
/// are the nodes that wait.
pub open spec fn walk_order(nodes: Seq<NodeModel>, pending: Seq<NodeId>) -> Seq<int>
    decreases pending.len(),
{
    if pending.len() == 0 {
        seq![]
    } else {
        visit_order(nodes, pending.last().0 as int) + walk_order(nodes, pending.drop_last())
    }
}

/// With the children of a node on the walk, the walk visits their subtrees
/// and then what it had yet to visit before.
pub proof fn lemma_walk_descends(nodes: Seq<NodeModel>, pending: Seq<NodeId>, key: int, from: int)
    requires
        tree_wf(nodes),
        0 <= key < nodes.len(),
        0 <= from <= 8,
    ensures
        walk_order(nodes, pending + children_down(nodes[key], from)) == visits_from(
            nodes,
            key,
            from,
        ) + walk_order(nodes, pending),
    decreases 8 - from,
{
    if from < 8 {
        lemma_walk_descends(nodes, pending, key, from + 1);
        let higher = pending + children_down(nodes[key], from + 1);
        let all = pending + children_down(nodes[key], from);
        assert(node_ok(nodes, key));
        assert(crate::octree::node::child_link_ok(nodes, key, from));
        match nodes[key].children[from] {
            Some(child) => {
                assert(all =~= higher.push(child));
                assert(all.drop_last() =~= higher);
                assert(walk_order(nodes, all) =~= visits_from(nodes, key, from) + walk_order(
                    nodes,
                    pending,
                ));
            },
            None => {
                assert(all =~= higher);
                assert(visits_from(nodes, key, from) =~= visits_from(nodes, key, from + 1));
            },
        }
    } else {
        assert(pending + children_down(nodes[key], from) =~= pending);
        assert(visits_from(nodes, key, from) + walk_order(nodes, pending) =~= walk_order(
            nodes,
            pending,
        ));
    }
}

/// A walk through an octree that stays as it is goes depth-first: the node
/// that `next` hands out is the first of those that the walk had yet to
/// visit, and once `descend` has put that node's children on the walk, the
/// walk has yet to visit all the others, in the same order. A walk that
/// starts at the root so visits the root's whole subtree, every node before
/// its children and the child in a lower octant with all below it before
/// the child in a higher one.
pub proof fn lemma_walk_depth_first(nodes: Seq<NodeModel>, pending: Seq<NodeId>)
    requires
        tree_wf(nodes),
        pending.len() > 0,
        pending.last().0 < nodes.len(),
    ensures
        walk_order(nodes, pending) == seq![pending.last().0 as int] + walk_order(
            nodes,
            pending.drop_last() + children_down(nodes[pending.last().0 as int], 0),
        ),
        walk_order(nodes, seq![NodeId(0)]) == visit_order(nodes, 0),
{
    let key = pending.last().0 as int;
    lemma_walk_descends(nodes, pending.drop_last(), key, 0);
    assert(walk_order(nodes, pending) =~= seq![key] + walk_order(
        nodes,
        pending.drop_last() + children_down(nodes[key], 0),
    ));
    assert(seq![NodeId(0)].drop_last() =~= Seq::<NodeId>::empty());
    assert(walk_order(nodes, seq![NodeId(0)]) =~= visit_order(nodes, 0)) by {
        assert(walk_order(nodes, Seq::<NodeId>::empty()) =~= seq![]);
    }
}

} // verus!
