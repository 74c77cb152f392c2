//! The records of a hierarchy chunk, and the order in which a chunk lists
//! the nodes of its subtree.
//!
//! A chunk is a row of 22-byte records. Record 0 is the root of the chunk's
//! subtree. The children that a record announces in its child mask take the
//! next free records, in rising octant order: so the records of the children
//! of record `i` start at one plus the number of children that the records
//! before `i` announced.

use vstd::prelude::*;
use crate::endian::{le_u32, le_u64, read_u32_le, read_u64_le};
use crate::octree::NodeId;
use crate::octree::node::{
    blank_node, child_link_ok, node_ok, octant_digit, rooted, tree_wf, NodeModel,
    NODE_TYPE_PROXY,
};

verus! {

/// Length of one record of a hierarchy chunk.
pub const BYTES_PER_NODE: usize = 22;

/// One record of a hierarchy chunk.
#[derive(Clone, Copy, Debug, PartialEq, Eq, Structural)]
pub struct HierarchyNodeEntry {
    pub node_type: u8,
    pub child_mask: u8,
    pub num_points: u32,
    pub byte_offset: u64,
    pub byte_size: u64,
}

/// Record `index` of a chunk: type and child mask, one byte each, then the
/// number of points, the byte offset and the byte size, lowest byte first.
pub open spec fn entry_at(chunk: Seq<u8>, index: int) -> HierarchyNodeEntry {
    HierarchyNodeEntry {
        node_type: chunk[22 * index],
        child_mask: chunk[22 * index + 1],
        num_points: le_u32(chunk, 22 * index + 2),
        byte_offset: le_u64(chunk, 22 * index + 6),
        byte_size: le_u64(chunk, 22 * index + 14),
    }
}

/// Number of whole records in a chunk.
pub open spec fn record_count(chunk: Seq<u8>) -> int {
    chunk.len() as int / 22
}

impl HierarchyNodeEntry {
    /// Reads record `index` of `chunk`; `None` where the chunk ends before
    /// the end of that record.
    pub fn read(chunk: &[u8], index: usize) -> (r: Option<HierarchyNodeEntry>)
        ensures
            r == if index < record_count(chunk@) {
                Some(entry_at(chunk@, index as int))
            } else {
                None
            },
    {
        if index >= chunk.len() / BYTES_PER_NODE {
            return None;
        }
        let at: usize = index * BYTES_PER_NODE;
        Some(
            HierarchyNodeEntry {
                node_type: chunk[at],
                child_mask: chunk[at + 1],
                num_points: read_u32_le(chunk, at + 2),
                byte_offset: read_u64_le(chunk, at + 6),
                byte_size: read_u64_le(chunk, at + 14),
            },
        )
    }
}

/// Whether a child mask announces a child in `octant`.
pub open spec fn mask_bit(mask: u8, octant: int) -> bool {
    0 <= octant < 8 && (mask >> (octant as u8)) & 1 == 1
}

/// Number of children that a child mask announces in the octants below
/// `upto`.
pub open spec fn count_bits(mask: u8, upto: int) -> int
    decreases upto,
{
    if upto <= 0 {
        0
    } else {
        count_bits(mask, upto - 1) + if mask_bit(mask, upto - 1) {
            1int
        } else {
            0int
        }
    }
}

/// Number of children that a record gives its node in this chunk: those of
/// its child mask, and none for a proxy.
pub open spec fn fanout(entry: HierarchyNodeEntry) -> int {
    if entry.node_type == NODE_TYPE_PROXY {
        0
    } else {
        count_bits(entry.child_mask, 8)
    }
}

/// Index of the record of the first child of record `index`: one plus the
/// number of children of the records before it.
pub open spec fn slots_before(chunk: Seq<u8>, index: int) -> int
    decreases index,
{
    if index <= 0 {
        1
    } else {
        slots_before(chunk, index - 1) + fanout(entry_at(chunk, index - 1))
    }
}

/// Whether a chunk lists a subtree: it holds at least one record and no
/// broken one, every type is a leaf, an inner node or a proxy, every record
/// but the first was announced by a record before it, and every announced
/// child has its record.
pub open spec fn well_formed_chunk(chunk: Seq<u8>) -> bool {
    &&& chunk.len() > 0
    &&& chunk.len() % 22 == 0
    &&& forall|i: int|
        0 <= i < record_count(chunk) ==> (#[trigger] entry_at(chunk, i)).node_type
            <= NODE_TYPE_PROXY
    &&& forall|i: int| 1 <= i < record_count(chunk) ==> #[trigger] slots_before(chunk, i) > i
    &&& slots_before(chunk, record_count(chunk)) == record_count(chunk)
}

/// The record that announced record `slot`: the first one whose children
/// reach that far, searched from record `from` on. Where there is none, the
/// result is `slot` itself.
pub open spec fn owner_from(chunk: Seq<u8>, slot: int, from: int) -> int
    decreases slot - from,
{
    if from >= slot {
        slot
    } else if slot < slots_before(chunk, from + 1) {
        from
    } else {
        owner_from(chunk, slot, from + 1)
    }
}

/// The record that announced record `slot`.
pub open spec fn parent_slot(chunk: Seq<u8>, slot: int) -> int {
    owner_from(chunk, slot, 0)
}

/// The octant of the announced child number `rank` of a child mask, counted
/// from 0 and from octant `from` on; 8 where the mask announces fewer.
pub open spec fn nth_octant_from(mask: u8, rank: int, from: int) -> int
    decreases 8 - from,
{
    if from >= 8 {
        8
    } else if mask_bit(mask, from) {
        if rank <= 0 {
            from
        } else {
            nth_octant_from(mask, rank - 1, from + 1)
        }
    } else {
        nth_octant_from(mask, rank, from + 1)
    }
}

/// The octant in which record `slot` lies below the record that announced
/// it.
pub open spec fn octant_of(chunk: Seq<u8>, slot: int) -> int {
    let parent = parent_slot(chunk, slot);
    nth_octant_from(entry_at(chunk, parent).child_mask, slot - slots_before(chunk, parent), 0)
}

/// Where one record stands in the subtree that its chunk lists.
#[derive(Clone, Copy, Debug, PartialEq, Eq, Structural)]
pub struct SlotPlan {
    /// The record itself.
    pub entry: HierarchyNodeEntry,
    /// Index of the record that announced this one; 0 for record 0.
    pub parent: usize,
    /// Octant of this record below the one that announced it; 0 for record 0.
    pub octant: u8,
    /// Index of the record of this record's first child.
    pub first_child: usize,
}

/// Where record `slot` of a chunk stands in the chunk's subtree.
pub open spec fn slot_plan(chunk: Seq<u8>, slot: int) -> SlotPlan {
    SlotPlan {
        entry: entry_at(chunk, slot),
        parent: if slot <= 0 {
            0
        } else {
            parent_slot(chunk, slot) as usize
        },
        octant: if slot <= 0 {
            0
        } else {
            octant_of(chunk, slot) as u8
        },
        first_child: slots_before(chunk, slot) as usize,
    }
}

/// A child mask announces at most one child for each octant, and no fewer
/// below a higher octant than below a lower one.
pub proof fn lemma_count_bits_bounds(mask: u8, below: int, upto: int)
    requires
        0 <= below <= upto,
    ensures
        0 <= count_bits(mask, below) <= count_bits(mask, upto) <= count_bits(mask, below) + (upto
            - below),
        count_bits(mask, below) <= below,
    decreases upto, below,
{
    if below < upto {
        lemma_count_bits_bounds(mask, below, upto - 1);
    } else if below > 0 {
        lemma_count_bits_bounds(mask, 0, below);
    }
}

/// The records of later nodes' children start no earlier than those of
/// earlier nodes' children.
pub proof fn lemma_slots_monotone(chunk: Seq<u8>, i: int, j: int)
    requires
        i <= j,
    ensures
        1 <= slots_before(chunk, i) <= slots_before(chunk, j),
    decreases j,
{
    if j <= 0 {
    } else if i < j {
        lemma_slots_monotone(chunk, i, j - 1);
        lemma_count_bits_bounds(entry_at(chunk, j - 1).child_mask, 0, 8);
    } else {
        lemma_slots_monotone(chunk, i - 1, j - 1);
        lemma_count_bits_bounds(entry_at(chunk, j - 1).child_mask, 0, 8);
    }
}

/// A record whose children's records reach `slot` is the one that announced
/// `slot`.
pub proof fn lemma_owner(chunk: Seq<u8>, slot: int, from: int, owner: int)
    requires
        0 <= from <= owner < slot,
        slots_before(chunk, owner) <= slot < slots_before(chunk, owner + 1),
    ensures
        owner_from(chunk, slot, from) == owner,
    decreases owner - from,
{
    if from < owner {
        lemma_slots_monotone(chunk, from + 1, owner);
        lemma_owner(chunk, slot, from + 1, owner);
    }
}

/// An announced octant is the one that its rank among the announced octants
/// names.
pub proof fn lemma_nth_octant(mask: u8, from: int, octant: int)
    requires
        0 <= from <= octant < 8,
        mask_bit(mask, octant),
    ensures
        nth_octant_from(mask, count_bits(mask, octant) - count_bits(mask, from), from) == octant,
    decreases octant - from,
{
    if from < octant {
        lemma_nth_octant(mask, from + 1, octant);
        lemma_count_bits_bounds(mask, from + 1, octant);
    }
}

/// Whether a child mask announces a child in `octant`.
pub fn has_child(mask: u8, octant: u8) -> (r: bool)
    requires
        octant < 8,
    ensures
        r == mask_bit(mask, octant as int),
{
    (mask >> octant) & 1 == 1
}

/// Reads a chunk and finds where each of its records stands in the chunk's
/// subtree; `None` for a chunk that lists no subtree.
pub fn plan_chunk(chunk: &[u8]) -> (r: Option<Vec<SlotPlan>>)
    ensures
        match r {
            Some(plan) => {
                &&& well_formed_chunk(chunk@)
                &&& plan@.len() == record_count(chunk@)
                &&& forall|j: int| 0 <= j < plan@.len() ==> plan@[j] == slot_plan(chunk@, j)
            },
            None => !well_formed_chunk(chunk@),
        },
{
    if chunk.len() == 0 || chunk.len() % BYTES_PER_NODE != 0 {
        return None;
    }
    let n: usize = chunk.len() / BYTES_PER_NODE;
    let mut plan: Vec<SlotPlan> = Vec::new();
    let mut k: usize = 0;
    while k < n
        invariant
            k <= n,
            n == record_count(chunk@),
            plan@.len() == k,
            forall|j: int|
                0 <= j < k ==> {
                    &&& (#[trigger] plan@[j]).entry == entry_at(chunk@, j)
                    &&& plan@[j].entry.node_type <= NODE_TYPE_PROXY
                    &&& plan@[j].parent == 0
                    &&& plan@[j].octant == 0
                },
        decreases n - k,
    {
        let entry = match HierarchyNodeEntry::read(chunk, k) {
            Some(entry) => entry,
            None => { return None; },
        };
        if entry.node_type > NODE_TYPE_PROXY {
            return None;
        }
        plan.push(SlotPlan { entry, parent: 0, octant: 0, first_child: 0 });
        k += 1;
    }
    let mut cursor: usize = 1;
    let mut i: usize = 0;
    while i < n
        invariant
            i <= n,
            n == record_count(chunk@),
            n >= 1,
            chunk@.len() % 22 == 0,
            plan@.len() == n,
            1 <= cursor <= n,
            cursor == slots_before(chunk@, i as int),
            forall|j: int|
                0 <= j < n ==> {
                    &&& (#[trigger] plan@[j]).entry == entry_at(chunk@, j)
                    &&& plan@[j].entry.node_type <= NODE_TYPE_PROXY
                },
            forall|j: int| 0 <= j < i ==> (#[trigger] plan@[j]).first_child == slots_before(chunk@, j),
            forall|j: int| 1 <= j < i ==> #[trigger] slots_before(chunk@, j) > j,
            forall|c: int|
                0 <= c < cursor ==> {
                    &&& (#[trigger] plan@[c]).parent == slot_plan(chunk@, c).parent
                    &&& plan@[c].octant == slot_plan(chunk@, c).octant
                },
        decreases n - i,
    {
        if i >= 1 && cursor <= i {
            return None;
        }
        let entry = plan[i].entry;
        let own = plan[i];
        plan.set(i, SlotPlan { first_child: cursor, ..own });
        if entry.node_type != NODE_TYPE_PROXY {
            let ghost first: int = cursor as int;
            let mut octant: u8 = 0;
            while octant < 8
                invariant
                    octant <= 8,
                    i < n,
                    n == record_count(chunk@),
                    plan@.len() == n,
                    entry == entry_at(chunk@, i as int),
                    entry.node_type != NODE_TYPE_PROXY,
                    first == slots_before(chunk@, i as int),
                    i < first,
                    cursor == first + count_bits(entry.child_mask, octant as int),
                    1 <= cursor <= n,
                    forall|j: int|
                        0 <= j < n ==> {
                            &&& (#[trigger] plan@[j]).entry == entry_at(chunk@, j)
                            &&& plan@[j].entry.node_type <= NODE_TYPE_PROXY
                        },
                    forall|j: int|
                        0 <= j <= i ==> (#[trigger] plan@[j]).first_child == slots_before(
                            chunk@,
                            j,
                        ),
                    forall|c: int|
                        0 <= c < cursor ==> {
                            &&& (#[trigger] plan@[c]).parent == slot_plan(chunk@, c).parent
                            &&& plan@[c].octant == slot_plan(chunk@, c).octant
                        },
                decreases 8 - octant,
            {
                if has_child(entry.child_mask, octant) {
                    proof {
                        lemma_count_bits_bounds(entry.child_mask, octant as int + 1, 8);
                    }
                    if cursor >= n {
                        proof {
                            lemma_slots_monotone(chunk@, i as int + 1, n as int);
                        }
                        return None;
                    }
                    proof {
                        lemma_count_bits_bounds(entry.child_mask, 0, octant as int);
                        lemma_owner(chunk@, cursor as int, 0, i as int);
                        lemma_nth_octant(entry.child_mask, 0, octant as int);
                    }
                    let slot = plan[cursor];
                    plan.set(cursor, SlotPlan { parent: i, octant, ..slot });
                    cursor += 1;
                }
                octant += 1;
            }
        }
        i += 1;
    }
    if cursor != n {
        return None;
    }
    proof {
        assert forall|j: int| 0 <= j < plan@.len() implies plan@[j] == slot_plan(chunk@, j) by {
            lemma_slots_monotone(chunk@, j, n as int);
        }
        assert forall|j: int| 0 <= j < record_count(chunk@) implies (#[trigger] entry_at(
            chunk@,
            j,
        )).node_type <= NODE_TYPE_PROXY by {
            assert(plan@[j].entry == entry_at(chunk@, j));
        }
    }
    Some(plan)
}

/// The record that announced a later record of a chunk that lists a
/// subtree stands before it, is no proxy, and announced it as the child of
/// just that rank in just that octant.
pub proof fn lemma_parent_of_slot(chunk: Seq<u8>, slot: int)
    requires
        well_formed_chunk(chunk),
        1 <= slot < record_count(chunk),
    ensures
        0 <= parent_slot(chunk, slot) < slot,
        entry_at(chunk, parent_slot(chunk, slot)).node_type != NODE_TYPE_PROXY,
        0 <= octant_of(chunk, slot) < 8,
        mask_bit(entry_at(chunk, parent_slot(chunk, slot)).child_mask, octant_of(chunk, slot)),
        slot == slots_before(chunk, parent_slot(chunk, slot)) + count_bits(
            entry_at(chunk, parent_slot(chunk, slot)).child_mask,
            octant_of(chunk, slot),
        ),
{
    lemma_owner_from(chunk, slot, 0);
    let parent = parent_slot(chunk, slot);
    let mask = entry_at(chunk, parent).child_mask;
    assert(slots_before(chunk, parent + 1) == slots_before(chunk, parent) + fanout(
        entry_at(chunk, parent),
    ));
    lemma_nth_octant_from(mask, slot - slots_before(chunk, parent), 0);
}

/// The search for the record that announced `slot` ends at a record before
/// `slot` whose children's records reach `slot`.
proof fn lemma_owner_from(chunk: Seq<u8>, slot: int, from: int)
    requires
        0 <= from <= slot,
        slots_before(chunk, from) <= slot < slots_before(chunk, slot),
    ensures
        from <= owner_from(chunk, slot, from) < slot,
        slots_before(chunk, owner_from(chunk, slot, from)) <= slot < slots_before(
            chunk,
            owner_from(chunk, slot, from) + 1,
        ),
    decreases slot - from,
{
    if from < slot && slot >= slots_before(chunk, from + 1) {
        lemma_owner_from(chunk, slot, from + 1);
    }
}

/// The search for the announced child of a given rank ends at an announced
/// octant with that many announced octants before it.
proof fn lemma_nth_octant_from(mask: u8, rank: int, from: int)
    requires
        0 <= from <= 8,
        0 <= rank < count_bits(mask, 8) - count_bits(mask, from),
    ensures
        from <= nth_octant_from(mask, rank, from) < 8,
        mask_bit(mask, nth_octant_from(mask, rank, from)),
        count_bits(mask, nth_octant_from(mask, rank, from)) == count_bits(mask, from) + rank,
    decreases 8 - from,
{
    if from < 8 {
        if !(mask_bit(mask, from) && rank <= 0) {
            if mask_bit(mask, from) {
                lemma_nth_octant_from(mask, rank - 1, from + 1);
            } else {
                lemma_nth_octant_from(mask, rank, from + 1);
            }
        }
    }
}

/// The child that a record announces in an octant has its record in the
/// chunk, behind the record itself, and that record's place in the subtree
/// is below this record, in that octant.
pub proof fn lemma_child_slot(chunk: Seq<u8>, slot: int, octant: int)
    requires
        well_formed_chunk(chunk),
        0 <= slot < record_count(chunk),
        entry_at(chunk, slot).node_type != NODE_TYPE_PROXY,
        mask_bit(entry_at(chunk, slot).child_mask, octant),
    ensures
        slot < slots_before(chunk, slot) + count_bits(entry_at(chunk, slot).child_mask, octant)
            < record_count(chunk),
        parent_slot(
            chunk,
            slots_before(chunk, slot) + count_bits(entry_at(chunk, slot).child_mask, octant),
        ) == slot,
        octant_of(
            chunk,
            slots_before(chunk, slot) + count_bits(entry_at(chunk, slot).child_mask, octant),
        ) == octant,
{
    let mask = entry_at(chunk, slot).child_mask;
    let child = slots_before(chunk, slot) + count_bits(mask, octant);
    lemma_count_bits_bounds(mask, 0, octant);
    lemma_count_bits_bounds(mask, octant + 1, 8);
    lemma_slots_monotone(chunk, slot + 1, record_count(chunk));
    lemma_slots_monotone(chunk, 0, slot);
    assert(slots_before(chunk, slot + 1) == slots_before(chunk, slot) + fanout(
        entry_at(chunk, slot),
    ));
    lemma_owner(chunk, child, 0, slot);
    lemma_nth_octant(mask, 0, octant);
}

/// Key of the node that record `slot` of a chunk describes, when the chunk
/// is read into an arena of `arena_len` nodes below the node `root`: record
/// 0 describes `root`, and the later records describe new nodes, which get
/// the next keys in the order of the records.
pub open spec fn slot_key(arena_len: int, root: NodeId, slot: int) -> NodeId {
    if slot <= 0 {
        root
    } else {
        NodeId((arena_len + slot - 1) as usize)
    }
}

/// The children that a record gives its node: in each octant that the child
/// mask announces, the node of the record that stands as many records behind
/// `first_child` as the mask announces octants below this one.
pub open spec fn children_of_entry(
    entry: HierarchyNodeEntry,
    first_child: int,
    arena_len: int,
    root: NodeId,
) -> Seq<Option<NodeId>> {
    Seq::new(
        8,
        |octant: int|
            if mask_bit(entry.child_mask, octant) {
                Some(slot_key(arena_len, root, first_child + count_bits(entry.child_mask, octant)))
            } else {
                None
            },
    )
}

/// A node after its record was read into it. The record's offset and size
/// are those of the node's points; for a proxy behind the first record they
/// are those of the proxy's hierarchy chunk. A node without bytes has no
/// points. A proxy keeps the children it had, any other node gets
/// `children`.
pub open spec fn with_entry(
    node: NodeModel,
    entry: HierarchyNodeEntry,
    first_record: bool,
    children: Seq<Option<NodeId>>,
) -> NodeModel {
    let filled = if !first_record && entry.node_type == NODE_TYPE_PROXY {
        NodeModel {
            hierarchy_byte_offset: entry.byte_offset,
            hierarchy_byte_size: entry.byte_size,
            ..node
        }
    } else {
        NodeModel { byte_offset: entry.byte_offset, byte_size: entry.byte_size, ..node }
    };
    NodeModel {
        num_points: if filled.byte_size == 0 {
            0
        } else {
            entry.num_points
        },
        node_type: entry.node_type,
        children: if entry.node_type == NODE_TYPE_PROXY {
            node.children
        } else {
            children
        },
        ..filled
    }
}

/// A new node below `parent` in `octant`: blank but for its key, its
/// parent's key, the parent's name with the octant's digit behind it, and
/// the parent's level plus one.
pub open spec fn heir_of(parent: NodeModel, octant: int, key: NodeId, parent_key: NodeId) -> NodeModel {
    NodeModel {
        name: parent.name.push(octant_digit(octant)),
        level: (parent.level + 1) as u32,
        id: Some(key),
        parent: Some(parent_key),
        ..blank_node()
    }
}

/// The node that record `slot` of a chunk describes, after the chunk was
/// read into the arena `nodes` below the node `root`. Record 0 fills `root`
/// itself, which keeps its name, level and parent. A later record fills a
/// new node below the node of the record that announced it.
#[verifier::opaque]
pub open spec fn node_at_slot(
    nodes: Seq<NodeModel>,
    root: NodeId,
    chunk: Seq<u8>,
    slot: int,
) -> NodeModel
    decreases slot,
{
    let entry = entry_at(chunk, slot);
    let children = children_of_entry(entry, slots_before(chunk, slot), nodes.len() as int, root);
    if slot <= 0 {
        with_entry(nodes[root.0 as int], entry, true, children)
    } else {
        let above = parent_slot(chunk, slot);
        if 0 <= above < slot {
            with_entry(
                heir_of(
                    node_at_slot(nodes, root, chunk, above),
                    octant_of(chunk, slot),
                    slot_key(nodes.len() as int, root, slot),
                    slot_key(nodes.len() as int, root, above),
                ),
                entry,
                false,
                children,
            )
        } else {
            blank_node()
        }
    }
}

/// The node of record 0 is the chunk's root with that record read into it.
pub proof fn lemma_first_slot(nodes: Seq<NodeModel>, root: NodeId, chunk: Seq<u8>)
    ensures
        node_at_slot(nodes, root, chunk, 0) == with_entry(
            nodes[root.0 as int],
            entry_at(chunk, 0),
            true,
            children_of_entry(
                entry_at(chunk, 0),
                slots_before(chunk, 0),
                nodes.len() as int,
                root,
            ),
        ),
{
    reveal(node_at_slot);
}

/// The node of a later record is a new node below the node of the record
/// that announced it, with the record read into it.
pub proof fn lemma_later_slot(nodes: Seq<NodeModel>, root: NodeId, chunk: Seq<u8>, slot: int)
    requires
        0 <= parent_slot(chunk, slot) < slot,
    ensures
        node_at_slot(nodes, root, chunk, slot) == with_entry(
            heir_of(
                node_at_slot(nodes, root, chunk, parent_slot(chunk, slot)),
                octant_of(chunk, slot),
                slot_key(nodes.len() as int, root, slot),
                slot_key(nodes.len() as int, root, parent_slot(chunk, slot)),
            ),
            entry_at(chunk, slot),
            false,
            children_of_entry(
                entry_at(chunk, slot),
                slots_before(chunk, slot),
                nodes.len() as int,
                root,
            ),
        ),
{
    reveal(node_at_slot);
}

/// Whether a chunk can be read into the arena `nodes` below the node `root`:
/// it lists a subtree, no node of that subtree would stand on a level beyond
/// what a node can hold, and there are keys for all its nodes.
pub open spec fn chunk_fits(nodes: Seq<NodeModel>, root: NodeId, chunk: Seq<u8>) -> bool {
    &&& well_formed_chunk(chunk)
    &&& nodes[root.0 as int].level + record_count(chunk) - 1 <= u32::MAX
    &&& nodes.len() + record_count(chunk) - 1 <= usize::MAX
}

/// The arena `nodes` after a chunk was read into it below the node `root`:
/// `root` is filled from record 0, the other nodes that were there stay as
/// they are, and behind them stand the nodes of the later records.
pub open spec fn parsed_nodes(nodes: Seq<NodeModel>, root: NodeId, chunk: Seq<u8>) -> Seq<
    NodeModel,
> {
    Seq::new(
        (nodes.len() + record_count(chunk) - 1) as nat,
        |key: int|
            if key == root.0 {
                node_at_slot(nodes, root, chunk, 0)
            } else if key < nodes.len() {
                nodes[key]
            } else {
                node_at_slot(nodes, root, chunk, key - nodes.len() + 1)
            },
    )
}

/// What holds of the node of each record of a chunk that was read into an
/// octree: it knows its key, has one of the three node types and no points
/// without bytes, stands at most as many levels below the chunk's root as
/// its record stands behind the first, and has a name one longer than its
/// level. The chunk's root keeps name, level and parent.
pub proof fn lemma_slot_node(nodes: Seq<NodeModel>, root: NodeId, chunk: Seq<u8>, slot: int)
    requires
        tree_wf(nodes),
        root.0 < nodes.len(),
        chunk_fits(nodes, root, chunk),
        0 <= slot < record_count(chunk),
    ensures
        node_at_slot(nodes, root, chunk, slot).level <= nodes[root.0 as int].level + slot,
        node_at_slot(nodes, root, chunk, slot).name.len() == node_at_slot(
            nodes,
            root,
            chunk,
            slot,
        ).level + 1,
        node_at_slot(nodes, root, chunk, slot).id == Some(
            slot_key(nodes.len() as int, root, slot),
        ),
        node_at_slot(nodes, root, chunk, slot).children.len() == 8,
        node_at_slot(nodes, root, chunk, slot).node_type == entry_at(chunk, slot).node_type,
        node_at_slot(nodes, root, chunk, slot).node_type <= NODE_TYPE_PROXY,
        node_at_slot(nodes, root, chunk, slot).byte_size == 0 ==> node_at_slot(
            nodes,
            root,
            chunk,
            slot,
        ).num_points == 0,
        slot == 0 ==> {
            &&& node_at_slot(nodes, root, chunk, slot).name == nodes[root.0 as int].name
            &&& node_at_slot(nodes, root, chunk, slot).level == nodes[root.0 as int].level
            &&& node_at_slot(nodes, root, chunk, slot).parent == nodes[root.0 as int].parent
        },
        slot >= 1 ==> {
            &&& node_at_slot(nodes, root, chunk, slot).name == node_at_slot(
                nodes,
                root,
                chunk,
                parent_slot(chunk, slot),
            ).name.push(octant_digit(octant_of(chunk, slot)))
            &&& node_at_slot(nodes, root, chunk, slot).level == node_at_slot(
                nodes,
                root,
                chunk,
                parent_slot(chunk, slot),
            ).level + 1
            &&& node_at_slot(nodes, root, chunk, slot).parent == Some(
                slot_key(nodes.len() as int, root, parent_slot(chunk, slot)),
            )
        },
        node_at_slot(nodes, root, chunk, slot).children == if entry_at(chunk, slot).node_type
            != NODE_TYPE_PROXY {
            children_of_entry(
                entry_at(chunk, slot),
                slots_before(chunk, slot),
                nodes.len() as int,
                root,
            )
        } else if slot == 0 {
            nodes[root.0 as int].children
        } else {
            blank_node().children
        },
    decreases slot,
{
    assert(node_ok(nodes, root.0 as int));
    if slot >= 1 {
        lemma_parent_of_slot(chunk, slot);
        lemma_slot_node(nodes, root, chunk, parent_slot(chunk, slot));
        lemma_later_slot(nodes, root, chunk, slot);
    } else {
        lemma_first_slot(nodes, root, chunk);
    }
}

/// After a chunk was read into an octree, the node of each record has sound
/// links to its children.
proof fn lemma_slot_links(
    nodes: Seq<NodeModel>,
    root: NodeId,
    chunk: Seq<u8>,
    slot: int,
    octant: int,
)
    requires
        tree_wf(nodes),
        root.0 < nodes.len(),
        chunk_fits(nodes, root, chunk),
        nodes.len() + record_count(chunk) - 1 <= usize::MAX,
        0 <= slot < record_count(chunk),
        0 <= octant < 8,
    ensures
        child_link_ok(
            parsed_nodes(nodes, root, chunk),
            slot_key(nodes.len() as int, root, slot).0 as int,
            octant,
        ),
{
    let after = parsed_nodes(nodes, root, chunk);
    let len = nodes.len() as int;
    let key = slot_key(len, root, slot).0 as int;
    let entry = entry_at(chunk, slot);
    let node = node_at_slot(nodes, root, chunk, slot);
    lemma_slot_node(nodes, root, chunk, slot);
    assert(after[key] == node);
    if entry.node_type == NODE_TYPE_PROXY {
        if slot == 0 {
            assert(node_ok(nodes, key));
            assert(child_link_ok(nodes, key, octant));
            if nodes[key].children[octant] is Some {
                let child = nodes[key].children[octant].unwrap().0 as int;
                assert(after[child] == nodes[child]);
            }
        } else {
            assert(blank_node().children[octant] is None);
        }
    } else {
        let children = children_of_entry(entry, slots_before(chunk, slot), len, root);
        if mask_bit(entry.child_mask, octant) {
            lemma_child_slot(chunk, slot, octant);
            let below = slots_before(chunk, slot) + count_bits(entry.child_mask, octant);
            lemma_slot_node(nodes, root, chunk, below);
            assert(children[octant] == Some(slot_key(len, root, below)));
            assert(after[len + below - 1] == node_at_slot(nodes, root, chunk, below));
        } else {
            assert(children[octant] is None);
        }
    }
}

/// After a chunk was read into an octree, every node that the chunk did not
/// touch has sound links to its children.
proof fn lemma_kept_links(
    nodes: Seq<NodeModel>,
    root: NodeId,
    chunk: Seq<u8>,
    key: int,
    octant: int,
)
    requires
        tree_wf(nodes),
        root.0 < nodes.len(),
        chunk_fits(nodes, root, chunk),
        0 <= key < nodes.len(),
        key != root.0,
        0 <= octant < 8,
    ensures
        child_link_ok(parsed_nodes(nodes, root, chunk), key, octant),
{
    let after = parsed_nodes(nodes, root, chunk);
    assert(node_ok(nodes, key));
    assert(child_link_ok(nodes, key, octant));
    assert(after[key] == nodes[key]);
    if nodes[key].children[octant] is Some {
        let child = nodes[key].children[octant].unwrap().0 as int;
        if child == root.0 {
            lemma_slot_node(nodes, root, chunk, 0);
            assert(after[child] == node_at_slot(nodes, root, chunk, 0));
        } else {
            assert(after[child] == nodes[child]);
        }
    }
}

/// After a chunk was read below a proxy of an octree, every node hangs in
/// the tree.
proof fn lemma_parse_keeps_rooted(nodes: Seq<NodeModel>, root: NodeId, chunk: Seq<u8>, key: int)
    requires
        tree_wf(nodes),
        root.0 < nodes.len(),
        nodes[root.0 as int].node_type == NODE_TYPE_PROXY,
        chunk_fits(nodes, root, chunk),
        nodes.len() + record_count(chunk) - 1 <= usize::MAX,
        0 <= key < parsed_nodes(nodes, root, chunk).len(),
    ensures
        rooted(parsed_nodes(nodes, root, chunk), key),
{
    let after = parsed_nodes(nodes, root, chunk);
    let len = nodes.len() as int;
    assert(rooted(nodes, root.0 as int));
    if key == root.0 {
        lemma_slot_node(nodes, root, chunk, 0);
        assert(after[key] == node_at_slot(nodes, root, chunk, 0));
        if key >= 1 {
            let above = nodes[key].parent.unwrap().0 as int;
            assert(after[above] == nodes[above]);
        }
    } else if key < len {
        assert(rooted(nodes, key));
        assert(after[key] == nodes[key]);
        if key >= 1 {
            let above = nodes[key].parent.unwrap().0 as int;
            assert(after[above] == nodes[above]);
        }
    } else {
        let slot = key - len + 1;
        lemma_slot_node(nodes, root, chunk, slot);
        lemma_parent_of_slot(chunk, slot);
        let above = parent_slot(chunk, slot);
        let octant = octant_of(chunk, slot);
        lemma_slot_node(nodes, root, chunk, above);
        let parent_key = slot_key(len, root, above).0 as int;
        assert(after[key] == node_at_slot(nodes, root, chunk, slot));
        assert(after[parent_key] == node_at_slot(nodes, root, chunk, above));
        let children = children_of_entry(
            entry_at(chunk, above),
            slots_before(chunk, above),
            len,
            root,
        );
        assert(children[octant] == Some(slot_key(len, root, slot)));
        assert(after[parent_key].children[octant] == Some(NodeId(key as usize)));
    }
}

/// Reading a chunk that fits below a proxy of an octree leaves an octree.
pub proof fn lemma_parse_keeps_tree(nodes: Seq<NodeModel>, root: NodeId, chunk: Seq<u8>)
    requires
        tree_wf(nodes),
        root.0 < nodes.len(),
        nodes[root.0 as int].node_type == NODE_TYPE_PROXY,
        chunk_fits(nodes, root, chunk),
        nodes.len() + record_count(chunk) - 1 <= usize::MAX,
    ensures
        tree_wf(parsed_nodes(nodes, root, chunk)),
{
    let after = parsed_nodes(nodes, root, chunk);
    let len = nodes.len() as int;
    lemma_slot_node(nodes, root, chunk, 0);
    assert(node_ok(nodes, 0));
    assert forall|key: int| 0 <= key < after.len() implies #[trigger] node_ok(after, key) by {
        if key == root.0 || key >= len {
            let slot = if key == root.0 {
                0
            } else {
                key - len + 1
            };
            lemma_slot_node(nodes, root, chunk, slot);
            assert(after[key] == node_at_slot(nodes, root, chunk, slot));
            assert(slot_key(len, root, slot).0 == key);
            assert forall|octant: int| 0 <= octant < 8 implies #[trigger] child_link_ok(
                after,
                key,
                octant,
            ) by {
                lemma_slot_links(nodes, root, chunk, slot, octant);
            }
        } else {
            assert(node_ok(nodes, key));
            assert(after[key] == nodes[key]);
            assert forall|octant: int| 0 <= octant < 8 implies #[trigger] child_link_ok(
                after,
                key,
                octant,
            ) by {
                lemma_kept_links(nodes, root, chunk, key, octant);
            }
        }
    }
    assert forall|key: int| 0 <= key < after.len() implies #[trigger] rooted(after, key) by {
        lemma_parse_keeps_rooted(nodes, root, chunk, key);
    }
}

/// Number of children that a node has in the octants below `upto`.
pub open spec fn count_children(children: Seq<Option<NodeId>>, upto: int) -> int
    decreases upto,
{
    if upto <= 0 {
        0
    } else {
        count_children(children, upto - 1) + if children[upto - 1] is Some {
            1int
        } else {
            0int
        }
    }
}

/// A node that a chunk filled from a record that is no proxy has a child in
/// just the octants that the record's child mask announces, and so as many
/// children as the mask has bits.
pub proof fn lemma_children_match_mask(
    nodes: Seq<NodeModel>,
    root: NodeId,
    chunk: Seq<u8>,
    slot: int,
)
    requires
        tree_wf(nodes),
        root.0 < nodes.len(),
        chunk_fits(nodes, root, chunk),
        0 <= slot < record_count(chunk),
        entry_at(chunk, slot).node_type != NODE_TYPE_PROXY,
    ensures
        forall|octant: int|
            0 <= octant < 8 ==> (#[trigger] node_at_slot(nodes, root, chunk, slot).children[octant]
                is Some <==> mask_bit(entry_at(chunk, slot).child_mask, octant)),
        count_children(node_at_slot(nodes, root, chunk, slot).children, 8) == count_bits(
            entry_at(chunk, slot).child_mask,
            8,
        ),
{
    lemma_slot_node(nodes, root, chunk, slot);
    let children = node_at_slot(nodes, root, chunk, slot).children;
    let mask = entry_at(chunk, slot).child_mask;
    assert forall|octant: int| 0 <= octant < 8 implies (#[trigger] children[octant] is Some
        <==> mask_bit(mask, octant)) by {}
    lemma_count_children(children, mask, 8);
}

/// Children in just the announced octants are as many as the mask has bits.
proof fn lemma_count_children(children: Seq<Option<NodeId>>, mask: u8, upto: int)
    requires
        0 <= upto <= 8,
        children.len() == 8,
        forall|octant: int|
            0 <= octant < 8 ==> (#[trigger] children[octant] is Some <==> mask_bit(mask, octant)),
    ensures
        count_children(children, upto) == count_bits(mask, upto),
    decreases upto,
{
    if upto > 0 {
        lemma_count_children(children, mask, upto - 1);
        assert(children[upto - 1] is Some <==> mask_bit(mask, upto - 1));
    }
}

} // verus!
