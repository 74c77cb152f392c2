//! One node of the octree.

use vstd::prelude::*;
use crate::octree::NodeId;
use crate::text::digit_char;

verus! {

/// Node type of a leaf: it has points and no children.
pub const NODE_TYPE_LEAF: u8 = 0;

/// Node type of an inner node: it has points and children.
pub const NODE_TYPE_INNER: u8 = 1;

/// Node type of a proxy: a placeholder whose own record and subtree stand in
/// another hierarchy chunk, which is still to be read.
pub const NODE_TYPE_PROXY: u8 = 2;

/// What a node is, as a mathematical value.
pub struct NodeModel {
    pub name: Seq<char>,
    pub level: u32,
    pub node_type: u8,
    pub num_points: u32,
    pub byte_offset: u64,
    pub byte_size: u64,
    pub hierarchy_byte_offset: u64,
    pub hierarchy_byte_size: u64,
    pub id: Option<NodeId>,
    pub parent: Option<NodeId>,
    /// One entry for each of the eight octants.
    pub children: Seq<Option<NodeId>>,
}

#[derive(Debug)]
pub struct OctreeNode {
    pub name: String,
    pub level: u32,
    pub node_type: u8,
    pub num_points: u32,
    pub byte_offset: u64,
    pub byte_size: u64,
    pub hierarchy_byte_offset: u64,
    pub hierarchy_byte_size: u64,
    // The node's id if known. None means not yet stored.
    pub id: Option<NodeId>,
    // The node's parent id. None means it's the root node.
    pub parent: Option<NodeId>,
    // The child in each octant. All are None on a leaf, a proxy, and a node
    // whose children have not been loaded.
    pub children: [Option<NodeId>; 8],
}

impl View for OctreeNode {
    type V = NodeModel;

    open spec fn view(&self) -> NodeModel {
        NodeModel {
            name: self.name@,
            level: self.level,
            node_type: self.node_type,
            num_points: self.num_points,
            byte_offset: self.byte_offset,
            byte_size: self.byte_size,
            hierarchy_byte_offset: self.hierarchy_byte_offset,
            hierarchy_byte_size: self.hierarchy_byte_size,
            id: self.id,
            parent: self.parent,
            children: self.children@,
        }
    }
}

/// The node that `OctreeNode::default()` returns: a leaf without a name,
/// without points and without links.
pub open spec fn blank_node() -> NodeModel {
    NodeModel {
        name: Seq::empty(),
        level: 0,
        node_type: NODE_TYPE_LEAF,
        num_points: 0,
        byte_offset: 0,
        byte_size: 0,
        hierarchy_byte_offset: 0,
        hierarchy_byte_size: 0,
        id: None,
        parent: None,
        children: Seq::new(8, |i: int| None),
    }
}

impl Clone for OctreeNode {
    fn clone(&self) -> (node: OctreeNode)
        ensures
            node@ == self@,
    {
        OctreeNode {
            name: self.name.clone(),
            level: self.level,
            node_type: self.node_type,
            num_points: self.num_points,
            byte_offset: self.byte_offset,
            byte_size: self.byte_size,
            hierarchy_byte_offset: self.hierarchy_byte_offset,
            hierarchy_byte_size: self.hierarchy_byte_size,
            id: self.id,
            parent: self.parent,
            children: self.children,
        }
    }
}

impl Default for OctreeNode {
    fn default() -> (node: OctreeNode)
        ensures
            node@ == blank_node(),
    {
        let node = OctreeNode {
            name: String::new(),
            level: 0,
            node_type: NODE_TYPE_LEAF,
            num_points: 0,
            byte_offset: 0,
            byte_size: 0,
            hierarchy_byte_offset: 0,
            hierarchy_byte_size: 0,
            id: None,
            parent: None,
            children: [None, None, None, None, None, None, None, None],
        };
        assert(node@.children =~= blank_node().children);
        node
    }
}

/// The digit that names an octant in a node's name.
pub open spec fn octant_digit(octant: int) -> char {
    digit_char(octant)
}

/// Whether the child that node `parent` names in `octant`, if it names one,
/// is a later node of the arena that names `parent` as its parent, carries
/// the parent's name with the octant's digit behind it, and stands one level
/// lower.
pub open spec fn child_link_ok(nodes: Seq<NodeModel>, parent: int, octant: int) -> bool {
    nodes[parent].children[octant] matches Some(child) ==> {
        &&& parent < child.0 < nodes.len()
        &&& nodes[child.0 as int].parent == Some(NodeId(parent as usize))
        &&& nodes[child.0 as int].name == nodes[parent].name.push(octant_digit(octant))
        &&& nodes[child.0 as int].level == nodes[parent].level + 1
    }
}

/// Whether node `key` knows its own key, has one of the three node types, no
/// points where it has no bytes, a name one longer than its level, and sound
/// links to its children.
pub open spec fn node_ok(nodes: Seq<NodeModel>, key: int) -> bool {
    &&& nodes[key].id == Some(NodeId(key as usize))
    &&& nodes[key].children.len() == 8
    &&& nodes[key].node_type <= NODE_TYPE_PROXY
    &&& nodes[key].byte_size == 0 ==> nodes[key].num_points == 0
    &&& nodes[key].name.len() == nodes[key].level + 1
    &&& forall|octant: int| 0 <= octant < 8 ==> #[trigger] child_link_ok(nodes, key, octant)
}

/// Whether node `key` hangs in the tree: a proxy has no children, and every
/// node but the root is the child that an earlier node, its parent, names in
/// one of its octants.
pub open spec fn rooted(nodes: Seq<NodeModel>, key: int) -> bool {
    &&& nodes[key].node_type == NODE_TYPE_PROXY ==> forall|octant: int|
        0 <= octant < 8 ==> #[trigger] nodes[key].children[octant] is None
    &&& key >= 1 ==> {
        &&& nodes[key].parent is Some
        &&& nodes[key].parent.unwrap().0 < key
        &&& exists|octant: int|
            0 <= octant < 8 && #[trigger] nodes[nodes[key].parent.unwrap().0 as int].children[octant]
                == Some(NodeId(key as usize))
    }
}

/// Whether the nodes of an arena form an octree: there are no more of them
/// than there are keys, node 0 is the root `r` on level 0, every node is
/// sound, and every node hangs in the tree.
pub open spec fn tree_wf(nodes: Seq<NodeModel>) -> bool {
    &&& 1 <= nodes.len() <= usize::MAX
    &&& nodes[0].name == seq!['r']
    &&& nodes[0].level == 0
    &&& nodes[0].parent is None
    &&& forall|key: int| 0 <= key < nodes.len() ==> #[trigger] node_ok(nodes, key)
    &&& forall|key: int| 0 <= key < nodes.len() ==> #[trigger] rooted(nodes, key)
}

/// In an octree a node without bytes has no points.
pub proof fn lemma_no_bytes_no_points(nodes: Seq<NodeModel>, key: int)
    requires
        tree_wf(nodes),
        0 <= key < nodes.len(),
    ensures
        nodes[key].byte_size == 0 ==> nodes[key].num_points == 0,
{
    assert(node_ok(nodes, key));
}

/// In an octree the child of a node in an octant is a later node, names the
/// node as its parent, stands one level below it, and carries its name with
/// the octant's digit behind it. The root is `r` on level 0, and every name
/// is one longer than the node's level.
pub proof fn lemma_child_of_node(nodes: Seq<NodeModel>, key: int, octant: int)
    requires
        tree_wf(nodes),
        0 <= key < nodes.len(),
        0 <= octant < 8,
    ensures
        nodes[0].name == seq!['r'],
        nodes[0].level == 0,
        nodes[key].name.len() == nodes[key].level + 1,
        nodes[key].children[octant] matches Some(child) ==> {
            &&& key < child.0 < nodes.len()
            &&& nodes[child.0 as int].parent == Some(NodeId(key as usize))
            &&& nodes[child.0 as int].level == nodes[key].level + 1
            &&& nodes[child.0 as int].name == nodes[key].name.push(octant_digit(octant))
        },
{
    assert(node_ok(nodes, key));
    assert(child_link_ok(nodes, key, octant));
}

/// Different octants have different digits.
pub proof fn lemma_octant_digits_differ(first: int, second: int)
    requires
        0 <= first < 8,
        0 <= second < 8,
        first != second,
    ensures
        octant_digit(first) != octant_digit(second),
{
    reveal(digit_char);
}

/// Whether `path` is a row of octants.
pub open spec fn is_octant_path(path: Seq<u8>) -> bool {
    forall|at: int| 0 <= at < path.len() ==> #[trigger] path[at] < 8
}

/// The name of the node that is reached from the root through the octants
/// of `path`: `r` and then the digit of each octant.
pub open spec fn path_name(path: Seq<u8>) -> Seq<char> {
    seq!['r'] + Seq::new(path.len(), |at: int| octant_digit(path[at] as int))
}

/// The octant that a character names, if it names one.
fn octant_of_digit(digit: char) -> (r: Option<u8>)
    ensures
        match r {
            Some(octant) => octant < 8 && digit == octant_digit(octant as int),
            None => forall|octant: int| 0 <= octant < 8 ==> digit != octant_digit(octant),
        },
{
    proof {
        reveal(digit_char);
    }
    if digit == '0' {
        Some(0)
    } else if digit == '1' {
        Some(1)
    } else if digit == '2' {
        Some(2)
    } else if digit == '3' {
        Some(3)
    } else if digit == '4' {
        Some(4)
    } else if digit == '5' {
        Some(5)
    } else if digit == '6' {
        Some(6)
    } else if digit == '7' {
        Some(7)
    } else {
        None
    }
}

/// The octants through which the node of a given name is reached from the
/// root; `None` for a string that is no name of a node.
pub fn octant_path(name: &str) -> (r: Option<Vec<u8>>)
    ensures
        match r {
            Some(path) => is_octant_path(path@) && name@ == path_name(path@),
            None => forall|path: Seq<u8>| is_octant_path(path) ==> name@ != path_name(path),
        },
{
    let mut path: Vec<u8> = Vec::new();
    let mut started = false;
    for c in it: name.chars()
        invariant
            it.seq() == name@,
            started == (it.index() >= 1),
            it.index() >= 1 ==> path@.len() == it.index() - 1 && name@[0] == 'r',
            it.index() == 0 ==> path@.len() == 0,
            is_octant_path(path@),
            forall|at: int|
                0 <= at < path@.len() ==> name@[at + 1] == #[trigger] octant_digit(
                    path@[at] as int,
                ),
    {
        if !started {
            if c != 'r' {
                assert forall|other: Seq<u8>| is_octant_path(other) implies name@ != path_name(
                    other,
                ) by {
                    assert(path_name(other)[0] == 'r');
                }
                return None;
            }
            started = true;
        } else {
            match octant_of_digit(c) {
                Some(octant) => {
                    path.push(octant);
                },
                None => {
                    let ghost at = it.index();
                    assert forall|other: Seq<u8>| is_octant_path(other) implies name@
                        != path_name(other) by {
                        if other.len() + 1 == name@.len() {
                            assert(other[at - 1] < 8);
                            assert(path_name(other)[at] == octant_digit(other[at - 1] as int));
                        }
                    }
                    return None;
                },
            }
        }
    }
    if !started {
        assert forall|other: Seq<u8>| is_octant_path(other) implies name@ != path_name(other) by {
            assert(path_name(other).len() >= 1);
        }
        return None;
    }
    assert(name@ =~= path_name(path@));
    Some(path)
}

/// The name of a path with one more octant is the name of the path with the
/// digit of that octant behind it.
pub proof fn lemma_child_path(path: Seq<u8>, octant: u8)
    ensures
        path_name(path.push(octant)) == path_name(path).push(octant_digit(octant as int)),
{
    assert(path_name(path.push(octant)) =~= path_name(path).push(octant_digit(octant as int)));
}

/// The path from the root of an octree to one of its nodes: the octants
/// through which the node's parent is reached, and then the node's own.
pub open spec fn path_to(nodes: Seq<NodeModel>, key: int) -> Seq<u8>
    decreases key,
{
    if key >= 1 && nodes[key].parent is Some && nodes[key].parent.unwrap().0 < key {
        let above = nodes[key].parent.unwrap().0 as int;
        path_to(nodes, above).push(
            choose|octant: u8|
                octant < 8 && nodes[above].children[octant as int] == Some(NodeId(key as usize)),
        )
    } else {
        seq![]
    }
}

/// Every node of an octree carries the name of the path that leads to it
/// from the root, and stands on the level that is the length of that path.
pub proof fn lemma_name_of_node(nodes: Seq<NodeModel>, key: int)
    requires
        tree_wf(nodes),
        0 <= key < nodes.len(),
    ensures
        is_octant_path(path_to(nodes, key)),
        nodes[key].name == path_name(path_to(nodes, key)),
        nodes[key].level == path_to(nodes, key).len(),
    decreases key,
{
    assert(node_ok(nodes, key));
    if key >= 1 {
        assert(rooted(nodes, key));
        let above = nodes[key].parent.unwrap().0 as int;
        lemma_name_of_node(nodes, above);
        let found = choose|octant: int|
            0 <= octant < 8 && #[trigger] nodes[above].children[octant] == Some(
                NodeId(key as usize),
            );
        assert(nodes[above].children[(found as u8) as int] == Some(NodeId(key as usize)));
        let octant = choose|octant: u8|
            octant < 8 && nodes[above].children[octant as int] == Some(NodeId(key as usize));
        assert(node_ok(nodes, above));
        assert(child_link_ok(nodes, above, octant as int));
        lemma_child_path(path_to(nodes, above), octant);
    } else {
        assert(path_name(seq![]) =~= seq!['r']);
    }
}

} // verus!
