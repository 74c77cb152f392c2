//! A copy of the octree as a flat list, parents before their children.

use vstd::prelude::*;
use vstd::std_specs::convert::FromSpecImpl;
use crate::octree::{FlatOctree, NodeId};
use vstd::set_lib::{lemma_int_range, set_int_range};
use crate::octree::node::{
    child_link_ok, lemma_octant_digits_differ, node_ok, octant_digit, rooted, tree_wf, NodeModel,
    OctreeNode,
};

verus! {

/// What an entry of a snapshot is, as a mathematical value.
pub struct SnapshotModel {
    pub id: Option<NodeId>,
    pub index: usize,
    pub name: Seq<char>,
    pub level: u32,
    pub node_type: u8,
    pub num_points: u32,
    pub byte_offset: u64,
    pub byte_size: u64,
    pub hierarchy_byte_offset: u64,
    pub hierarchy_byte_size: u64,
    /// One entry for each of the eight octants.
    pub children: Seq<usize>,
}

/// One node in a snapshot of the octree.
#[derive(Clone, Debug)]
pub struct OctreeNodeSnapshot {
    pub id: Option<NodeId>,
    /// Place of this entry in the snapshot.
    pub index: usize,
    pub name: String,
    pub level: u32,
    pub node_type: u8,
    pub num_points: u32,
    pub byte_offset: u64,
    pub byte_size: u64,
    pub hierarchy_byte_offset: u64,
    pub hierarchy_byte_size: u64,
    /// For each octant the place of the child's entry in the snapshot;
    /// an index of 0 means child does not exist.
    pub children: [usize; 8],
}

impl View for OctreeNodeSnapshot {
    type V = SnapshotModel;

    open spec fn view(&self) -> SnapshotModel {
        SnapshotModel {
            id: self.id,
            index: self.index,
            name: self.name@,
            level: self.level,
            node_type: self.node_type,
            num_points: self.num_points,
            byte_offset: self.byte_offset,
            byte_size: self.byte_size,
            hierarchy_byte_offset: self.hierarchy_byte_offset,
            hierarchy_byte_size: self.hierarchy_byte_size,
            children: self.children@,
        }
    }
}

/// The entry of a node whose place and children are not known yet: it is
/// the node's copy with place 0 and without children.
pub open spec fn unplaced_entry(node: NodeModel) -> SnapshotModel {
    SnapshotModel {
        id: node.id,
        index: 0,
        name: node.name,
        level: node.level,
        node_type: node.node_type,
        num_points: node.num_points,
        byte_offset: node.byte_offset,
        byte_size: node.byte_size,
        hierarchy_byte_offset: node.hierarchy_byte_offset,
        hierarchy_byte_size: node.hierarchy_byte_size,
        children: Seq::new(8, |octant: int| 0usize),
    }
}

impl OctreeNodeSnapshot {
    /// The entry of a node whose place and children are not known yet.
    pub fn from_node(node: &OctreeNode) -> (entry: OctreeNodeSnapshot)
        ensures
            entry@ == unplaced_entry(node@),
    {
        let entry = OctreeNodeSnapshot::from(node);
        assert(entry@.children =~= unplaced_entry(node@).children);
        entry
    }
}

impl From<&OctreeNode> for OctreeNodeSnapshot {
    fn from(node: &OctreeNode) -> (entry: OctreeNodeSnapshot) {
        OctreeNodeSnapshot {
            id: node.id,
            // unknown index, defaults to 0
            index: 0,
            name: node.name.clone(),
            level: node.level,
            node_type: node.node_type,
            num_points: node.num_points,
            byte_offset: node.byte_offset,
            byte_size: node.byte_size,
            hierarchy_byte_offset: node.hierarchy_byte_offset,
            hierarchy_byte_size: node.hierarchy_byte_size,
            // fill with no children
            children: [0, 0, 0, 0, 0, 0, 0, 0],
        }
    }
}

impl FromSpecImpl<&OctreeNode> for OctreeNodeSnapshot {
    open spec fn obeys_from_spec() -> bool {
        true
    }

    /// The entry of a node whose place and children are not known yet.
    open spec fn from_spec(node: &OctreeNode) -> OctreeNodeSnapshot {
        OctreeNodeSnapshot {
            id: node.id,
            index: 0,
            name: node.name,
            level: node.level,
            node_type: node.node_type,
            num_points: node.num_points,
            byte_offset: node.byte_offset,
            byte_size: node.byte_size,
            hierarchy_byte_offset: node.hierarchy_byte_offset,
            hierarchy_byte_size: node.hierarchy_byte_size,
            children: [0, 0, 0, 0, 0, 0, 0, 0],
        }
    }
}

/// The keys of the nodes at and below node `key`, in the order of a
/// depth-first walk: a node stands before its subtrees, and the subtree of
/// the child in a higher octant before that of the child in a lower one.
pub open spec fn subtree(nodes: Seq<NodeModel>, key: int) -> Seq<int>
    decreases nodes.len() - key, 9int,
{
    if 0 <= key < nodes.len() {
        seq![key] + below(nodes, key, 8)
    } else {
        seq![]
    }
}

/// The keys of the nodes in the subtrees of the children that node `key`
/// has in the octants below `upto`, highest octant first.
pub open spec fn below(nodes: Seq<NodeModel>, key: int, upto: int) -> Seq<int>
    decreases nodes.len() - key, upto,
{
    if 0 <= key < nodes.len() && 0 < upto <= 8 {
        (match nodes[key].children[upto - 1] {
            Some(child) => if key < child.0 < nodes.len() {
                subtree(nodes, child.0 as int)
            } else {
                seq![]
            },
            None => seq![],
        }) + below(nodes, key, upto - 1)
    } else {
        seq![]
    }
}

/// Whether entry `place` of a snapshot is the copy of the node whose key
/// stands at that place in `keys`, and knows its place.
pub open spec fn entry_ok(
    nodes: Seq<NodeModel>,
    keys: Seq<int>,
    snapshot: Seq<SnapshotModel>,
    place: int,
) -> bool {
    &&& 0 <= keys[place] < nodes.len()
    &&& snapshot[place].children.len() == 8
    &&& snapshot[place] == (SnapshotModel {
        index: place as usize,
        children: snapshot[place].children,
        ..unplaced_entry(nodes[keys[place]])
    })
}

/// Whether entry `place` of a snapshot names, for `octant`, the place of the
/// entry of the child that its node has there, which is a later place, and 0
/// where the node has no child there.
pub open spec fn link_ok(
    nodes: Seq<NodeModel>,
    keys: Seq<int>,
    snapshot: Seq<SnapshotModel>,
    place: int,
    octant: int,
) -> bool {
    match nodes[keys[place]].children[octant] {
        Some(child) => {
            &&& place < snapshot[place].children[octant] < snapshot.len()
            &&& keys[snapshot[place].children[octant] as int] == child.0
        },
        None => snapshot[place].children[octant] == 0,
    }
}

/// Whether `snapshot` is the snapshot of the octree `nodes`: one entry for
/// each node at or below the root, in the order of the depth-first walk,
/// each a copy of its node that knows its place and the places of its
/// children's entries.
pub open spec fn is_snapshot(nodes: Seq<NodeModel>, snapshot: Seq<SnapshotModel>) -> bool {
    &&& snapshot.len() == subtree(nodes, 0).len()
    &&& forall|place: int|
        0 <= place < snapshot.len() ==> #[trigger] entry_ok(
            nodes,
            subtree(nodes, 0),
            snapshot,
            place,
        )
    &&& forall|place: int, octant: int|
        0 <= place < snapshot.len() && 0 <= octant < 8 ==> #[trigger] link_ok(
            nodes,
            subtree(nodes, 0),
            snapshot,
            place,
            octant,
        )
}

/// A node that waits for its entry, with the place and octant of the entry
/// that will name it.
#[derive(Clone, Copy, Debug)]
pub struct Pending {
    pub parent_index: usize,
    pub octant: u8,
    pub key: NodeId,
}

/// The keys that a stack of waiting nodes stands for: the subtree of the
/// node on top, then those of the nodes under it.
pub open spec fn waiting(nodes: Seq<NodeModel>, stack: Seq<Pending>) -> Seq<int>
    decreases stack.len(),
{
    if stack.len() == 0 {
        seq![]
    } else {
        subtree(nodes, stack.last().key.0 as int) + waiting(nodes, stack.drop_last())
    }
}

/// The children that node `key` has in the octants below `upto`, as nodes
/// that wait for their entries, lowest octant first.
pub open spec fn announced(nodes: Seq<NodeModel>, key: int, place: usize, upto: int) -> Seq<
    Pending,
>
    decreases upto,
{
    if 0 < upto <= 8 {
        announced(nodes, key, place, upto - 1) + (match nodes[key].children[upto - 1] {
            Some(child) => seq![
                Pending { parent_index: place, octant: (upto - 1) as u8, key: child },
            ],
            None => seq![],
        })
    } else {
        seq![]
    }
}

/// Whether the entry that a waiting node names exists, belongs to the
/// node's parent, and does not name the node's place yet.
pub open spec fn pending_ok(
    nodes: Seq<NodeModel>,
    keys: Seq<int>,
    snapshot: Seq<SnapshotModel>,
    item: Pending,
) -> bool {
    &&& item.parent_index < snapshot.len()
    &&& item.octant < 8
    &&& nodes[keys[item.parent_index as int]].children[item.octant as int] == Some(item.key)
    &&& snapshot[item.parent_index as int].children[item.octant as int] == 0
}

/// Whether `earlier` stands under `later` on the stack by right: its entry
/// comes first, or it is the same entry and its octant is lower.
pub open spec fn stands_before(earlier: Pending, later: Pending) -> bool {
    earlier.parent_index < later.parent_index || (earlier.parent_index == later.parent_index
        && earlier.octant < later.octant)
}

/// Whether entry `place` either names the place of the child in `octant`
/// or has that child waiting on the stack.
pub open spec fn link_pending(
    nodes: Seq<NodeModel>,
    keys: Seq<int>,
    snapshot: Seq<SnapshotModel>,
    stack: Seq<Pending>,
    place: int,
    octant: int,
) -> bool {
    match nodes[keys[place]].children[octant] {
        Some(child) => link_ok(nodes, keys, snapshot, place, octant) || (exists|at: int|
            0 <= at < stack.len() && #[trigger] stack[at] == (Pending {
                parent_index: place as usize,
                octant: octant as u8,
                key: child,
            })),
        None => snapshot[place].children[octant] == 0,
    }
}

/// What holds while a snapshot is taken: the entries made and the nodes that
/// wait make up the whole walk, every entry is a copy of its node, and every
/// child has its place named or waits.
pub open spec fn walk_state(
    nodes: Seq<NodeModel>,
    keys: Seq<int>,
    snapshot: Seq<SnapshotModel>,
    stack: Seq<Pending>,
) -> bool {
    &&& keys.len() == snapshot.len()
    &&& keys + waiting(nodes, stack) == subtree(nodes, 0)
    &&& forall|place: int|
        0 <= place < snapshot.len() ==> #[trigger] entry_ok(nodes, keys, snapshot, place)
    &&& forall|at: int|
        0 <= at < stack.len() ==> #[trigger] pending_ok(nodes, keys, snapshot, stack[at])
    &&& forall|under: int, over: int|
        0 <= under < over < stack.len() ==> stands_before(
            #[trigger] stack[under],
            #[trigger] stack[over],
        )
    &&& forall|place: int, octant: int|
        0 <= place < snapshot.len() && 0 <= octant < 8 ==> #[trigger] link_pending(
            nodes,
            keys,
            snapshot,
            stack,
            place,
            octant,
        )
}

/// The entries of a snapshot as mathematical values.
pub open spec fn models(entries: Seq<OctreeNodeSnapshot>) -> Seq<SnapshotModel> {
    Seq::new(entries.len(), |place: int| entries[place]@)
}

/// The entry of a node at a place, before any of its children has one.
pub open spec fn placed_entry(node: NodeModel, place: usize) -> SnapshotModel {
    SnapshotModel { index: place, ..unplaced_entry(node) }
}

/// What the waiting children of a node are: they name the node's entry and
/// their own octant, lower octants come first, and every child is among
/// them.
proof fn lemma_announced(nodes: Seq<NodeModel>, key: int, place: usize, upto: int)
    requires
        0 <= upto <= 8,
    ensures
        forall|at: int|
            0 <= at < announced(nodes, key, place, upto).len() ==> {
                let item = #[trigger] announced(nodes, key, place, upto)[at];
                &&& item.parent_index == place
                &&& item.octant < upto
                &&& nodes[key].children[item.octant as int] == Some(item.key)
            },
        forall|under: int, over: int|
            0 <= under < over < announced(nodes, key, place, upto).len() ==> stands_before(
                #[trigger] announced(nodes, key, place, upto)[under],
                #[trigger] announced(nodes, key, place, upto)[over],
            ),
        forall|octant: int|
            0 <= octant < upto && nodes[key].children[octant] is Some ==> exists|at: int|
                0 <= at < announced(nodes, key, place, upto).len() && #[trigger] announced(
                    nodes,
                    key,
                    place,
                    upto,
                )[at] == (Pending {
                    parent_index: place,
                    octant: octant as u8,
                    key: nodes[key].children[octant].unwrap(),
                }),
    decreases upto,
{
    if upto > 0 {
        lemma_announced(nodes, key, place, upto - 1);
        let before = announced(nodes, key, place, upto - 1);
        let all = announced(nodes, key, place, upto);
        assert forall|octant: int|
            0 <= octant < upto && nodes[key].children[octant] is Some implies exists|at: int|
            0 <= at < all.len() && #[trigger] all[at] == (Pending {
                parent_index: place,
                octant: octant as u8,
                key: nodes[key].children[octant].unwrap(),
            }) by {
            if octant < upto - 1 {
                let at = choose|at: int|
                    0 <= at < before.len() && #[trigger] before[at] == (Pending {
                        parent_index: place,
                        octant: octant as u8,
                        key: nodes[key].children[octant].unwrap(),
                    });
                assert(all[at] == before[at]);
            } else {
                assert(all[all.len() - 1] == (Pending {
                    parent_index: place,
                    octant: octant as u8,
                    key: nodes[key].children[octant].unwrap(),
                }));
            }
        }
    }
}

/// With the children of a node on top of a stack, the stack stands for the
/// subtrees of those children and then for what it stood for before.
proof fn lemma_waiting_announced(
    nodes: Seq<NodeModel>,
    stack: Seq<Pending>,
    key: int,
    place: usize,
    upto: int,
)
    requires
        tree_wf(nodes),
        0 <= key < nodes.len(),
        0 <= upto <= 8,
    ensures
        waiting(nodes, stack + announced(nodes, key, place, upto)) == below(nodes, key, upto)
            + waiting(nodes, stack),
    decreases upto,
{
    if upto > 0 {
        lemma_waiting_announced(nodes, stack, key, place, upto - 1);
        let before = stack + announced(nodes, key, place, upto - 1);
        assert(node_ok(nodes, key));
        assert(child_link_ok(nodes, key, upto - 1));
        match nodes[key].children[upto - 1] {
            Some(child) => {
                let item = Pending { parent_index: place, octant: (upto - 1) as u8, key: child };
                let after = stack + announced(nodes, key, place, upto);
                assert(after =~= before.push(item));
                assert(after.drop_last() =~= before);
                assert(waiting(nodes, after) =~= below(nodes, key, upto) + waiting(nodes, stack));
            },
            None => {
                assert(stack + announced(nodes, key, place, upto) =~= before);
                assert(below(nodes, key, upto) =~= below(nodes, key, upto - 1));
            },
        }
    } else {
        assert(stack + announced(nodes, key, place, upto) =~= stack);
        assert(below(nodes, key, upto) + waiting(nodes, stack) =~= waiting(nodes, stack));
    }
}

/// The walk starts well: with the root's entry made and the root's children
/// waiting.
proof fn lemma_walk_starts(nodes: Seq<NodeModel>)
    requires
        tree_wf(nodes),
    ensures
        walk_state(
            nodes,
            seq![0int],
            seq![placed_entry(nodes[0], 0)],
            announced(nodes, 0, 0, 8),
        ),
{
    let keys = seq![0int];
    let snapshot = seq![placed_entry(nodes[0], 0)];
    let stack = announced(nodes, 0, 0, 8);
    lemma_announced(nodes, 0, 0, 8);
    lemma_waiting_announced(nodes, seq![], 0, 0, 8);
    assert(seq![] + stack =~= stack);
    assert(waiting(nodes, Seq::<Pending>::empty()) =~= seq![]);
    assert(keys + waiting(nodes, stack) =~= subtree(nodes, 0));
    assert(entry_ok(nodes, keys, snapshot, 0));
    assert forall|at: int| 0 <= at < stack.len() implies #[trigger] pending_ok(
        nodes,
        keys,
        snapshot,
        stack[at],
    ) by {}
    assert forall|place: int, octant: int|
        0 <= place < snapshot.len() && 0 <= octant < 8 implies #[trigger] link_pending(
        nodes,
        keys,
        snapshot,
        stack,
        place,
        octant,
    ) by {}
}

/// The walk goes on well: when the node on top of the stack gets the next
/// entry, the entry that named it gets the place of that entry, and the
/// node's children come on the stack.
proof fn lemma_walk_step(
    nodes: Seq<NodeModel>,
    keys: Seq<int>,
    snapshot: Seq<SnapshotModel>,
    stack: Seq<Pending>,
    after: Seq<SnapshotModel>,
)
    requires
        tree_wf(nodes),
        walk_state(nodes, keys, snapshot, stack),
        stack.len() > 0,
        snapshot.len() < usize::MAX,
        after.len() == snapshot.len() + 1,
        after[snapshot.len() as int] == placed_entry(
            nodes[stack.last().key.0 as int],
            snapshot.len() as usize,
        ),
        forall|place: int|
            0 <= place < snapshot.len() ==> #[trigger] after[place] == if place
                == stack.last().parent_index {
                SnapshotModel {
                    children: snapshot[place].children.update(
                        stack.last().octant as int,
                        snapshot.len() as usize,
                    ),
                    ..snapshot[place]
                }
            } else {
                snapshot[place]
            },
    ensures
        0 <= stack.last().key.0 < nodes.len(),
        walk_state(
            nodes,
            keys.push(stack.last().key.0 as int),
            after,
            stack.drop_last() + announced(
                nodes,
                stack.last().key.0 as int,
                snapshot.len() as usize,
                8,
            ),
        ),
{
    let item = stack.last();
    let rest = stack.drop_last();
    let made = snapshot.len() as int;
    let key = item.key.0 as int;
    let up = item.parent_index as int;
    let new_keys = keys.push(key);
    let children = announced(nodes, key, made as usize, 8);
    let new_stack = rest + children;
    assert(pending_ok(nodes, keys, snapshot, stack[stack.len() - 1]));
    assert(entry_ok(nodes, keys, snapshot, up));
    assert(node_ok(nodes, keys[up]));
    assert(child_link_ok(nodes, keys[up], item.octant as int));
    assert(0 <= key < nodes.len());
    assert(node_ok(nodes, key));
    lemma_announced(nodes, key, made as usize, 8);
    lemma_waiting_announced(nodes, rest, key, made as usize, 8);
    assert(new_keys + waiting(nodes, new_stack) =~= subtree(nodes, 0)) by {
        assert(waiting(nodes, stack) == subtree(nodes, key) + waiting(nodes, rest));
        assert(subtree(nodes, key) == seq![key] + below(nodes, key, 8));
        assert(keys + waiting(nodes, stack) == subtree(nodes, 0));
    }
    assert forall|place: int| 0 <= place < after.len() implies #[trigger] entry_ok(
        nodes,
        new_keys,
        after,
        place,
    ) by {
        if place < made {
            assert(entry_ok(nodes, keys, snapshot, place));
        } else {
            assert(after[place].children =~= placed_entry(nodes[key], made as usize).children);
        }
    }
    assert forall|at: int| 0 <= at < new_stack.len() implies #[trigger] pending_ok(
        nodes,
        new_keys,
        after,
        new_stack[at],
    ) by {
        if at < rest.len() {
            assert(new_stack[at] == stack[at]);
            assert(pending_ok(nodes, keys, snapshot, stack[at]));
            assert(stands_before(stack[at], stack[stack.len() - 1]));
        } else {
            assert(new_stack[at] == children[at - rest.len()]);
        }
    }
    assert forall|under: int, over: int|
        0 <= under < over < new_stack.len() implies stands_before(
        #[trigger] new_stack[under],
        #[trigger] new_stack[over],
    ) by {
        if over < rest.len() {
            assert(new_stack[under] == stack[under]);
            assert(new_stack[over] == stack[over]);
        } else if under < rest.len() {
            assert(new_stack[under] == stack[under]);
            assert(pending_ok(nodes, keys, snapshot, stack[under]));
            assert(new_stack[over] == children[over - rest.len()]);
        } else {
            assert(new_stack[under] == children[under - rest.len()]);
            assert(new_stack[over] == children[over - rest.len()]);
        }
    }
    assert forall|place: int, octant: int|
        0 <= place < after.len() && 0 <= octant < 8 implies #[trigger] link_pending(
        nodes,
        new_keys,
        after,
        new_stack,
        place,
        octant,
    ) by {
        if place == made {
            if nodes[key].children[octant] is Some {
                let at = choose|at: int|
                    0 <= at < children.len() && #[trigger] children[at] == (Pending {
                        parent_index: made as usize,
                        octant: octant as u8,
                        key: nodes[key].children[octant].unwrap(),
                    });
                assert(new_stack[rest.len() + at] == children[at]);
            }
        } else {
            assert(link_pending(nodes, keys, snapshot, stack, place, octant));
            assert(entry_ok(nodes, keys, snapshot, place));
            match nodes[keys[place]].children[octant] {
                Some(child) => {
                    if link_ok(nodes, keys, snapshot, place, octant) {
                        assert(link_ok(nodes, new_keys, after, place, octant));
                    } else {
                        let at = choose|at: int|
                            0 <= at < stack.len() && #[trigger] stack[at] == (Pending {
                                parent_index: place as usize,
                                octant: octant as u8,
                                key: child,
                            });
                        if at == stack.len() - 1 {
                            assert(link_ok(nodes, new_keys, after, place, octant));
                        } else {
                            assert(new_stack[at] == stack[at]);
                        }
                    }
                },
                None => {},
            }
        }
    }
}

/// When no node waits any more, the entries are the snapshot.
proof fn lemma_walk_ends(nodes: Seq<NodeModel>, keys: Seq<int>, snapshot: Seq<SnapshotModel>)
    requires
        walk_state(nodes, keys, snapshot, seq![]),
    ensures
        is_snapshot(nodes, snapshot),
{
    assert(waiting(nodes, Seq::<Pending>::empty()) =~= seq![]);
    assert(keys =~= subtree(nodes, 0));
    assert forall|place: int, octant: int|
        0 <= place < snapshot.len() && 0 <= octant < 8 implies #[trigger] link_ok(
        nodes,
        subtree(nodes, 0),
        snapshot,
        place,
        octant,
    ) by {
        assert(link_pending(nodes, keys, snapshot, seq![], place, octant));
    }
}

/// Gives node `key` the next entry of the snapshot and puts its children on
/// the stack, lowest octant first.
fn visit(
    octree: &FlatOctree<OctreeNode>,
    key: NodeId,
    entries: &mut Vec<OctreeNodeSnapshot>,
    stack: &mut Vec<Pending>,
)
    requires
        octree.wf(),
        key.0 < octree@.len(),
        octree@[key.0 as int].children.len() == 8,
    ensures
        models(final(entries)@) == models(old(entries)@).push(
            placed_entry(octree@[key.0 as int], old(entries)@.len() as usize),
        ),
        final(stack)@ == old(stack)@ + announced(
            octree@,
            key.0 as int,
            old(entries)@.len() as usize,
            8,
        ),
{
    let current_index: usize = entries.len();
    let node = octree.node(key).unwrap();
    // process children
    let mut octant: u8 = 0;
    while octant < 8
        invariant
            octant <= 8,
            node@ == octree@[key.0 as int],
            node@.children.len() == 8,
            stack@ == old(stack)@ + announced(octree@, key.0 as int, current_index, octant as int),
        decreases 8 - octant,
    {
        match node.children[octant as usize] {
            Some(child) => {
                stack.push(Pending { parent_index: current_index, octant, key: child });
            },
            None => {},
        }
        octant += 1;
        assert(stack@ =~= old(stack)@ + announced(
            octree@,
            key.0 as int,
            current_index,
            octant as int,
        ));
    }
    // add the current node to the nodes array
    let mut entry = OctreeNodeSnapshot::from_node(node);
    entry.index = current_index;
    entries.push(entry);
    assert(models(entries@) =~= models(old(entries)@).push(
        placed_entry(octree@[key.0 as int], current_index),
    ));
}

/// Takes a snapshot of an octree: the nodes at and below the root in the
/// order of a depth-first walk, each with the places of its children.
pub fn take_snapshot(octree: &FlatOctree<OctreeNode>) -> (entries: Vec<OctreeNodeSnapshot>)
    requires
        octree.wf(),
        tree_wf(octree@),
    ensures
        is_snapshot(octree@, models(entries@)),
        entries@.len() == octree@.len(),
{
    let mut entries: Vec<OctreeNodeSnapshot> = Vec::new();
    let mut stack: Vec<Pending> = Vec::new();
    let ghost mut keys: Seq<int> = seq![0int];
    proof {
        assert(node_ok(octree@, 0));
        lemma_walk_starts(octree@);
    }
    visit(octree, octree.root_id(), &mut entries, &mut stack);
    proof {
        assert(models(entries@) =~= seq![placed_entry(octree@[0], 0)]);
        assert(stack@ =~= announced(octree@, 0, 0, 8));
    }
    while stack.len() > 0
        invariant
            octree.wf(),
            tree_wf(octree@),
            walk_state(octree@, keys, models(entries@), stack@),
        decreases subtree(octree@, 0).len() - keys.len(),
    {
        let ghost before = models(entries@);
        let ghost waited = stack@;
        let item = stack.pop().unwrap();
        // get the current node future index
        let current_index: usize = entries.len();
        proof {
            assert(pending_ok(octree@, keys, before, waited[waited.len() - 1]));
            assert(entry_ok(octree@, keys, before, item.parent_index as int));
            assert(node_ok(octree@, keys[item.parent_index as int]));
            assert(child_link_ok(
                octree@,
                keys[item.parent_index as int],
                item.octant as int,
            ));
            assert(node_ok(octree@, item.key.0 as int));
            assert(waiting(octree@, waited).len() >= 1);
        }
        visit(octree, item.key, &mut entries, &mut stack);
        proof {
            assert(models(entries@).len() == entries@.len());
            assert(entries@.len() == entries.len());
        }
        let ghost visited = models(entries@);
        // add it to the children array of its parent
        let parent = &mut entries[item.parent_index];
        parent.children[item.octant as usize] = current_index;
        proof {
            assert forall|place: int| 0 <= place < before.len() implies #[trigger] models(
                entries@,
            )[place] == if place == item.parent_index {
                SnapshotModel {
                    children: before[place].children.update(
                        item.octant as int,
                        current_index,
                    ),
                    ..before[place]
                }
            } else {
                before[place]
            } by {
                assert(visited[place] == before[place]);
            }
            assert(models(entries@)[before.len() as int] == visited[before.len() as int]);
            lemma_walk_step(octree@, keys, before, waited, models(entries@));
            keys = keys.push(item.key.0 as int);
        }
    }
    proof {
        assert(stack@.len() == 0);
        assert(stack@ =~= seq![]);
        lemma_walk_ends(octree@, keys, models(entries@));
        lemma_snapshot_complete(octree@);
    }
    entries
}

/// In the snapshot of an octree the first entry is the root, and every
/// place that an entry names for an octant is a later place, where the entry
/// of that child stands: its name is the entry's name with the digit of the
/// octant behind it.
pub proof fn lemma_snapshot_links(
    nodes: Seq<NodeModel>,
    snapshot: Seq<SnapshotModel>,
    place: int,
    octant: int,
)
    requires
        tree_wf(nodes),
        is_snapshot(nodes, snapshot),
        0 <= place < snapshot.len(),
        0 <= octant < 8,
    ensures
        snapshot.len() >= 1,
        snapshot[0].id == Some(NodeId(0)),
        snapshot[0].name == seq!['r'],
        snapshot[place].children[octant] != 0 ==> {
            &&& place < snapshot[place].children[octant] < snapshot.len()
            &&& snapshot[snapshot[place].children[octant] as int].name
                == snapshot[place].name.push(octant_digit(octant))
            &&& snapshot[snapshot[place].children[octant] as int].level == snapshot[place].level
                + 1
        },
{
    let keys = subtree(nodes, 0);
    assert(keys[0] == 0);
    assert(entry_ok(nodes, keys, snapshot, 0));
    assert(node_ok(nodes, 0));
    assert(entry_ok(nodes, keys, snapshot, place));
    assert(link_ok(nodes, keys, snapshot, place, octant));
    assert(node_ok(nodes, keys[place]));
    assert(child_link_ok(nodes, keys[place], octant));
    if snapshot[place].children[octant] != 0 {
        let at = snapshot[place].children[octant] as int;
        assert(entry_ok(nodes, keys, snapshot, at));
    }
}

/// Whether `name` begins with `start`.
pub open spec fn starts_with(name: Seq<char>, start: Seq<char>) -> bool {
    start.len() <= name.len() && name.subrange(0, start.len() as int) == start
}

/// Whether node `key` stands below node `above`, under a child of `above` in
/// an octant below `upto`: its name is that of `above` with the digit of
/// such an octant and perhaps more digits behind it.
pub open spec fn stands_below(nodes: Seq<NodeModel>, above: int, upto: int, key: int) -> bool {
    &&& 0 <= key < nodes.len()
    &&& starts_with(nodes[key].name, nodes[above].name)
    &&& nodes[key].name.len() > nodes[above].name.len()
    &&& exists|octant: int|
        0 <= octant < upto && nodes[key].name[nodes[above].name.len() as int]
            == #[trigger] octant_digit(octant)
}

/// The names of the nodes of a subtree begin with the name of its root, and
/// only the root has just that name.
proof fn lemma_subtree_names(nodes: Seq<NodeModel>, key: int)
    requires
        tree_wf(nodes),
        0 <= key < nodes.len(),
    ensures
        subtree(nodes, key).len() >= 1,
        subtree(nodes, key)[0] == key,
        forall|at: int|
            1 <= at < subtree(nodes, key).len() ==> stands_below(
                nodes,
                key,
                8,
                #[trigger] subtree(nodes, key)[at],
            ),
    decreases nodes.len() - key, 9int,
{
    lemma_below_names(nodes, key, 8);
    assert forall|at: int| 1 <= at < subtree(nodes, key).len() implies stands_below(
        nodes,
        key,
        8,
        #[trigger] subtree(nodes, key)[at],
    ) by {
        assert(subtree(nodes, key)[at] == below(nodes, key, 8)[at - 1]);
    }
}

/// The nodes in the subtrees of the children of a node stand below it.
proof fn lemma_below_names(nodes: Seq<NodeModel>, key: int, upto: int)
    requires
        tree_wf(nodes),
        0 <= key < nodes.len(),
        0 <= upto <= 8,
    ensures
        forall|at: int|
            0 <= at < below(nodes, key, upto).len() ==> stands_below(
                nodes,
                key,
                upto,
                #[trigger] below(nodes, key, upto)[at],
            ),
    decreases nodes.len() - key, upto,
{
    if upto > 0 {
        lemma_below_names(nodes, key, upto - 1);
        assert(node_ok(nodes, key));
        assert(child_link_ok(nodes, key, upto - 1));
        let here: Seq<int> = match nodes[key].children[upto - 1] {
            Some(child) => subtree(nodes, child.0 as int),
            None => seq![],
        };
        assert(below(nodes, key, upto) == here + below(nodes, key, upto - 1));
        if nodes[key].children[upto - 1] is Some {
            let child = nodes[key].children[upto - 1].unwrap().0 as int;
            lemma_subtree_names(nodes, child);
        }
        assert forall|at: int| 0 <= at < below(nodes, key, upto).len() implies stands_below(
            nodes,
            key,
            upto,
            #[trigger] below(nodes, key, upto)[at],
        ) by {
            let member = below(nodes, key, upto)[at];
            let own = nodes[key].name;
            if at < here.len() {
                let child = nodes[key].children[upto - 1].unwrap().0 as int;
                assert(member == subtree(nodes, child)[at]);
                assert(nodes[child].name == own.push(octant_digit(upto - 1)));
                if at >= 1 {
                    assert(stands_below(nodes, child, 8, member));
                    assert(nodes[member].name.subrange(0, own.len() as int)
                        =~= nodes[member].name.subrange(0, own.len() as int + 1).subrange(
                        0,
                        own.len() as int,
                    ));
                    assert(own.push(octant_digit(upto - 1)).subrange(0, own.len() as int) =~= own);
                    assert(nodes[member].name[own.len() as int] == nodes[member].name.subrange(
                        0,
                        own.len() as int + 1,
                    )[own.len() as int]);
                } else {
                    assert(own.push(octant_digit(upto - 1)).subrange(0, own.len() as int) =~= own);
                }
                assert(nodes[member].name[own.len() as int] == octant_digit(upto - 1));
            } else {
                assert(member == below(nodes, key, upto - 1)[at - here.len()]);
                assert(stands_below(nodes, key, upto - 1, member));
                let octant = choose|octant: int|
                    0 <= octant < upto - 1 && nodes[member].name[own.len() as int]
                        == #[trigger] octant_digit(octant);
                assert(0 <= octant < upto);
            }
        }
    }
}

/// Whether no key stands twice in `keys`.
pub open spec fn no_key_twice(keys: Seq<int>) -> bool {
    forall|first: int, second: int|
        0 <= first < second < keys.len() ==> keys[first] != keys[second]
}

/// No node stands twice in the walk through a subtree of an octree.
pub proof fn lemma_subtree_once(nodes: Seq<NodeModel>, key: int)
    requires
        tree_wf(nodes),
        0 <= key < nodes.len(),
    ensures
        no_key_twice(subtree(nodes, key)),
    decreases nodes.len() - key, 9int,
{
    lemma_below_once(nodes, key, 8);
    lemma_below_names(nodes, key, 8);
    let all = subtree(nodes, key);
    let rest = below(nodes, key, 8);
    assert forall|first: int, second: int| 0 <= first < second < all.len() implies all[first]
        != all[second] by {
        assert(all[second] == rest[second - 1]);
        assert(stands_below(nodes, key, 8, rest[second - 1]));
        if first > 0 {
            assert(all[first] == rest[first - 1]);
        }
    }
}

/// No node stands twice in the walk through the subtrees of the children
/// of a node of an octree.
proof fn lemma_below_once(nodes: Seq<NodeModel>, key: int, upto: int)
    requires
        tree_wf(nodes),
        0 <= key < nodes.len(),
        0 <= upto <= 8,
    ensures
        no_key_twice(below(nodes, key, upto)),
    decreases nodes.len() - key, upto,
{
    if upto > 0 {
        lemma_below_once(nodes, key, upto - 1);
        lemma_below_names(nodes, key, upto - 1);
        assert(node_ok(nodes, key));
        assert(child_link_ok(nodes, key, upto - 1));
        let here: Seq<int> = match nodes[key].children[upto - 1] {
            Some(child) => subtree(nodes, child.0 as int),
            None => seq![],
        };
        let rest = below(nodes, key, upto - 1);
        let all = below(nodes, key, upto);
        let own = nodes[key].name;
        assert(all == here + rest);
        if nodes[key].children[upto - 1] is Some {
            let child = nodes[key].children[upto - 1].unwrap().0 as int;
            lemma_subtree_once(nodes, child);
            lemma_subtree_names(nodes, child);
            assert(nodes[child].name == own.push(octant_digit(upto - 1)));
        }
        assert forall|first: int, second: int| 0 <= first < second < all.len() implies all[first]
            != all[second] by {
            if second < here.len() {
                assert(all[first] == here[first] && all[second] == here[second]);
            } else if first >= here.len() {
                assert(all[first] == rest[first - here.len()]);
                assert(all[second] == rest[second - here.len()]);
            } else {
                let child = nodes[key].children[upto - 1].unwrap().0 as int;
                let upper = here[first];
                let lower = rest[second - here.len()];
                assert(all[first] == upper && all[second] == lower);
                assert(stands_below(nodes, key, upto - 1, lower));
                let octant = choose|octant: int|
                    0 <= octant < upto - 1 && nodes[lower].name[own.len() as int]
                        == #[trigger] octant_digit(octant);
                lemma_octant_digits_differ(octant, upto - 1);
                if first >= 1 {
                    assert(stands_below(nodes, child, 8, upper));
                    assert(nodes[upper].name[own.len() as int] == nodes[upper].name.subrange(
                        0,
                        own.len() as int + 1,
                    )[own.len() as int]);
                }
                assert(nodes[upper].name[own.len() as int] == octant_digit(upto - 1));
            }
        }
    }
}

/// No node has two entries in the snapshot of an octree, so the place that
/// an entry names for a child is the only place where that child stands.
pub proof fn lemma_snapshot_once(nodes: Seq<NodeModel>)
    requires
        tree_wf(nodes),
    ensures
        no_key_twice(subtree(nodes, 0)),
{
    lemma_subtree_once(nodes, 0);
}

/// The walk through the children in more octants holds the walk through
/// those in fewer.
proof fn lemma_below_grows(nodes: Seq<NodeModel>, key: int, fewer: int, more: int, member: int)
    requires
        0 <= key < nodes.len(),
        0 <= fewer <= more <= 8,
        below(nodes, key, fewer).contains(member),
    ensures
        below(nodes, key, more).contains(member),
    decreases more,
{
    if fewer < more {
        lemma_below_grows(nodes, key, fewer, more - 1, member);
        let rest = below(nodes, key, more - 1);
        let all = below(nodes, key, more);
        let at = choose|at: int| 0 <= at < rest.len() && rest[at] == member;
        assert(all[all.len() - rest.len() + at] == member);
    }
}

/// The walk through a subtree of an octree holds every child of every node
/// that it holds.
proof fn lemma_subtree_closed(nodes: Seq<NodeModel>, key: int, parent: int, octant: int)
    requires
        tree_wf(nodes),
        0 <= key < nodes.len(),
        subtree(nodes, key).contains(parent),
        0 <= octant < 8,
        0 <= parent < nodes.len(),
        nodes[parent].children[octant] is Some,
    ensures
        subtree(nodes, key).contains(nodes[parent].children[octant].unwrap().0 as int),
    decreases nodes.len() - key, 9int,
{
    let child = nodes[parent].children[octant].unwrap().0 as int;
    let all = subtree(nodes, key);
    let rest = below(nodes, key, 8);
    let at = choose|at: int| 0 <= at < all.len() && all[at] == parent;
    assert(node_ok(nodes, parent));
    assert(child_link_ok(nodes, parent, octant));
    if at == 0 {
        let upper = below(nodes, key, octant + 1);
        assert(subtree(nodes, child)[0] == child);
        assert(upper[0] == child);
        assert(upper.contains(child));
        lemma_below_grows(nodes, key, octant + 1, 8, child);
    } else {
        assert(rest[at - 1] == parent);
        lemma_below_closed(nodes, key, 8, parent, octant);
    }
    let place = choose|place: int| 0 <= place < rest.len() && rest[place] == child;
    assert(all[place + 1] == child);
}

/// The walk through the subtrees of the children of a node of an octree
/// holds every child of every node that it holds.
proof fn lemma_below_closed(
    nodes: Seq<NodeModel>,
    key: int,
    upto: int,
    parent: int,
    octant: int,
)
    requires
        tree_wf(nodes),
        0 <= key < nodes.len(),
        0 <= upto <= 8,
        below(nodes, key, upto).contains(parent),
        0 <= octant < 8,
        0 <= parent < nodes.len(),
        nodes[parent].children[octant] is Some,
    ensures
        below(nodes, key, upto).contains(nodes[parent].children[octant].unwrap().0 as int),
    decreases nodes.len() - key, upto,
{
    let child = nodes[parent].children[octant].unwrap().0 as int;
    let all = below(nodes, key, upto);
    assert(upto > 0);
    assert(node_ok(nodes, key));
    assert(child_link_ok(nodes, key, upto - 1));
    let here: Seq<int> = match nodes[key].children[upto - 1] {
        Some(first) => subtree(nodes, first.0 as int),
        None => seq![],
    };
    let rest = below(nodes, key, upto - 1);
    assert(all == here + rest);
    let at = choose|at: int| 0 <= at < all.len() && all[at] == parent;
    if at < here.len() {
        let first = nodes[key].children[upto - 1].unwrap().0 as int;
        assert(here[at] == parent);
        lemma_subtree_closed(nodes, first, parent, octant);
        let place = choose|place: int| 0 <= place < here.len() && here[place] == child;
        assert(all[place] == child);
    } else {
        assert(rest[at - here.len()] == parent);
        lemma_below_closed(nodes, key, upto - 1, parent, octant);
        let place = choose|place: int| 0 <= place < rest.len() && rest[place] == child;
        assert(all[here.len() + place] == child);
    }
}

/// The walk from the root of an octree holds every node.
proof fn lemma_walk_reaches(nodes: Seq<NodeModel>, key: int)
    requires
        tree_wf(nodes),
        0 <= key < nodes.len(),
    ensures
        subtree(nodes, 0).contains(key),
    decreases key,
{
    if key == 0 {
        assert(subtree(nodes, 0)[0] == 0);
    } else {
        assert(rooted(nodes, key));
        let parent = nodes[key].parent.unwrap().0 as int;
        lemma_walk_reaches(nodes, parent);
        let octant = choose|octant: int|
            0 <= octant < 8 && #[trigger] nodes[parent].children[octant] == Some(
                NodeId(key as usize),
            );
        lemma_subtree_closed(nodes, 0, parent, octant);
    }
}

/// The snapshot of an octree has one entry for each node of the arena: the
/// walk from the root holds every key, and as no key stands twice in it, it
/// is as long as the arena.
pub proof fn lemma_snapshot_complete(nodes: Seq<NodeModel>)
    requires
        tree_wf(nodes),
    ensures
        subtree(nodes, 0).len() == nodes.len(),
        forall|key: int| 0 <= key < nodes.len() ==> subtree(nodes, 0).contains(key),
{
    let keys = subtree(nodes, 0);
    assert forall|key: int| 0 <= key < nodes.len() implies keys.contains(key) by {
        lemma_walk_reaches(nodes, key);
    }
    lemma_subtree_once(nodes, 0);
    lemma_subtree_names(nodes, 0);
    assert(keys.no_duplicates());
    keys.unique_seq_to_set();
    lemma_int_range(0, nodes.len() as int);
    assert(keys.to_set() =~= set_int_range(0, nodes.len() as int)) by {
        assert forall|key: int| keys.to_set().contains(key) implies 0 <= key < nodes.len() by {
            let at = choose|at: int| 0 <= at < keys.len() && keys[at] == key;
            if at >= 1 {
                assert(stands_below(nodes, 0, 8, keys[at]));
            }
        }
    }
}

} // verus!
