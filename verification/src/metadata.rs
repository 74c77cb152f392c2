//! The part of a point cloud's metadata document that the reader works
//! with.

use vstd::prelude::*;
use vstd::string::StringExecFns;
use crate::octree::node::{blank_node, NodeModel, OctreeNode, NODE_TYPE_PROXY};

verus! {

/// How the hierarchy file is laid out.
#[derive(Clone, Copy, Debug, PartialEq, Eq, Structural)]
pub struct HierarchyMetadata {
    /// Length of the chunk at the start of the hierarchy file.
    pub first_chunk_size: u64,
    pub step_size: u16,
    pub depth: u16,
}

/// Number type of one element of an attribute.
#[derive(Clone, Copy, Debug, PartialEq, Eq, Structural)]
pub enum AttributeType {
    Int8,
    Int16,
    Int32,
    Int64,
    UInt8,
    UInt16,
    UInt32,
    UInt64,
    Float,
    Double,
    Undefined,
}

/// One attribute that the cloud stores for each point.
#[derive(Debug)]
pub struct AttributeMetadata {
    pub name: String,
    pub description: String,
    /// Bytes that one point takes in this attribute.
    pub size: u16,
    pub num_elements: u16,
    pub element_size: u16,
    pub attribute_type: AttributeType,
}

/// The metadata of a point cloud.
#[derive(Debug)]
pub struct Metadata {
    pub version: String,
    pub name: String,
    pub description: String,
    pub points: u64,
    pub projection: String,
    pub hierarchy: HierarchyMetadata,
    /// How the points of a node are packed; `BROTLI` is the one that the
    /// reader decodes.
    pub encoding: String,
    /// The attributes in the order in which a node's bytes hold them.
    pub attributes: Vec<AttributeMetadata>,
}

impl Clone for AttributeMetadata {
    fn clone(&self) -> (attribute: AttributeMetadata)
        ensures
            attribute == *self,
    {
        AttributeMetadata {
            name: self.name.clone(),
            description: self.description.clone(),
            size: self.size,
            num_elements: self.num_elements,
            element_size: self.element_size,
            attribute_type: self.attribute_type,
        }
    }
}

/// Whether two metadata say the same.
pub open spec fn same_metadata(first: Metadata, second: Metadata) -> bool {
    &&& first.version == second.version
    &&& first.name == second.name
    &&& first.description == second.description
    &&& first.points == second.points
    &&& first.projection == second.projection
    &&& first.hierarchy == second.hierarchy
    &&& first.encoding == second.encoding
    &&& first.attributes@ == second.attributes@
}

impl Clone for Metadata {
    fn clone(&self) -> (metadata: Metadata)
        ensures
            same_metadata(metadata, *self),
    {
        let mut attributes: Vec<AttributeMetadata> = Vec::new();
        let mut index: usize = 0;
        while index < self.attributes.len()
            invariant
                index <= self.attributes@.len(),
                attributes@ == self.attributes@.subrange(0, index as int),
            decreases self.attributes@.len() - index,
        {
            attributes.push(self.attributes[index].clone());
            index += 1;
            assert(attributes@ =~= self.attributes@.subrange(0, index as int));
        }
        assert(attributes@ =~= self.attributes@);
        Metadata {
            version: self.version.clone(),
            name: self.name.clone(),
            description: self.description.clone(),
            points: self.points,
            projection: self.projection.clone(),
            hierarchy: self.hierarchy,
            encoding: self.encoding.clone(),
            attributes,
        }
    }
}

/// The root of a cloud before any chunk was read: the node `r` on level 0,
/// a proxy for the chunk of `first_chunk_size` bytes at the start of the
/// hierarchy file.
pub open spec fn root_node(first_chunk_size: u64) -> NodeModel {
    NodeModel {
        name: seq!['r'],
        node_type: NODE_TYPE_PROXY,
        hierarchy_byte_size: first_chunk_size,
        ..blank_node()
    }
}

impl Metadata {
    /// The root node that this metadata describes.
    pub fn create_root_node(&self) -> (node: OctreeNode)
        ensures
            node@ == root_node(self.hierarchy.first_chunk_size),
    {
        let name = String::from_str("r");
        proof {
            reveal_strlit("r");
            assert(name@ =~= seq!['r']);
        }
        let node = OctreeNode {
            name,
            level: 0,
            node_type: NODE_TYPE_PROXY,
            num_points: 0,
            byte_offset: 0,
            byte_size: 0,
            hierarchy_byte_offset: 0,
            hierarchy_byte_size: self.hierarchy.first_chunk_size,
            id: None,
            parent: None,
            children: [None, None, None, None, None, None, None, None],
        };
        assert(node@.children =~= blank_node().children);
        node
    }
}

} // verus!
