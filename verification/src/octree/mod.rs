//! The octree as a flat arena: nodes stand in a slab and name each other by
//! their keys.

pub mod aabb;
pub mod loader;
pub mod node;
pub mod point_attributes;
pub mod snapshot;

use vstd::prelude::*;
use slab::Slab;
use crate::octree::node::{blank_node, NodeModel, OctreeNode};
use crate::text::{decimal, decimal_string};

verus! {

/// Key of a node in the arena. Keys are given out in rising order, and the
/// root has key 0.
#[derive(Clone, Copy, Debug, Default, PartialEq, Eq, Structural)]
pub struct NodeId(pub usize);

impl NodeId {
    /// The key in decimal digits.
    pub fn to_string(&self) -> (text: String)
        ensures
            text@ == decimal(self.0 as nat),
    {
        decimal_string(self.0 as u64)
    }
}

/// `slab::Slab`, declared so that it can stand in a field. What it holds is
/// named by `slab_slots` and `slab_vacant_key`.
#[verifier::external_type_specification]
#[verifier::external_body]
#[verifier::reject_recursive_types(T)]
pub struct ExSlab<T>(Slab<T>);

/// The slots of a slab in the order of their keys: `Some` for a slot that
/// holds a value, `None` for a vacant one.
pub uninterp spec fn slab_slots(slab: Slab<OctreeNode>) -> Seq<Option<OctreeNode>>;

/// The key that the next insertion into the slab will use.
pub uninterp spec fn slab_vacant_key(slab: Slab<OctreeNode>) -> usize;

/// `Slab::new`: a slab without slots, whose first key will be 0.
#[verifier::external_body]
fn slab_new() -> (slab: Slab<OctreeNode>)
    ensures
        slab_slots(slab).len() == 0,
        slab_vacant_key(slab) == 0,
{
    Slab::new()
}

/// `Slab::insert` on a slab whose vacant key is one past its last slot:
/// the value goes into a new slot at that key, and the vacant key moves one
/// further. The slots before it stay as they are.
#[verifier::external_body]
fn slab_insert(slab: &mut Slab<OctreeNode>, node: OctreeNode) -> (key: usize)
    requires
        slab_vacant_key(*old(slab)) == slab_slots(*old(slab)).len(),
    ensures
        key == slab_vacant_key(*old(slab)),
        slab_slots(*final(slab)) == slab_slots(*old(slab)).push(Some(node)),
        slab_vacant_key(*final(slab)) == key + 1,
{
    slab.insert(node)
}

/// `Slab::get`: the value in the slot of that key, if there is such a slot
/// and it holds one.
#[verifier::external_body]
fn slab_get(slab: &Slab<OctreeNode>, key: usize) -> (r: Option<&OctreeNode>)
    ensures
        match r {
            Some(node) => key < slab_slots(*slab).len() && slab_slots(*slab)[key as int] == Some(
                *node,
            ),
            None => key >= slab_slots(*slab).len() || slab_slots(*slab)[key as int] is None,
        },
{
    slab.get(key)
}

/// `Slab::get_mut`: as `Slab::get`, and what the caller writes through the
/// reference is what the slot holds afterwards. Nothing else changes.
#[verifier::external_body]
fn slab_get_mut(slab: &mut Slab<OctreeNode>, key: usize) -> (r: Option<&mut OctreeNode>)
    ensures
        slab_vacant_key(*final(slab)) == slab_vacant_key(*old(slab)),
        match r {
            Some(node) => key < slab_slots(*old(slab)).len() && slab_slots(*old(slab))[key as int]
                == Some(*node) && slab_slots(*final(slab)) == slab_slots(*old(slab)).update(
                key as int,
                Some(*final(node)),
            ),
            None => (key >= slab_slots(*old(slab)).len() || slab_slots(*old(slab))[key as int]
                is None) && slab_slots(*final(slab)) == slab_slots(*old(slab)),
        },
{
    slab.get_mut(key)
}

/// `Slab::vacant_key`: the key that the next insertion will use.
#[verifier::external_body]
fn slab_next_key(slab: &Slab<OctreeNode>) -> (key: usize)
    ensures
        key == slab_vacant_key(*slab),
{
    slab.vacant_key()
}

/// `Slab::clone`: a slab with the same slots, each value a clone of the one
/// in the same slot, and with the same key for the next insertion.
#[verifier::external_body]
fn slab_clone(slab: &Slab<OctreeNode>) -> (copy: Slab<OctreeNode>)
    ensures
        slab_vacant_key(copy) == slab_vacant_key(*slab),
        slab_slots(copy).len() == slab_slots(*slab).len(),
        forall|key: int|
            0 <= key < slab_slots(*slab).len() ==> match (
                #[trigger] slab_slots(copy)[key],
                slab_slots(*slab)[key],
            ) {
                (Some(cloned), Some(node)) => cloned@ == node@,
                (None, None) => true,
                _ => false,
            },
{
    slab.clone()
}

/// Most slots that one call asks the slab to make room for. A larger
/// request is cut down to this: room is only a matter of speed.
pub const RESERVE_LIMIT: usize = 0x10_0000;

/// `Slab::reserve`: room for more values, and nothing else changes. The
/// outside function panics where the room asked for passes `isize::MAX`
/// bytes; `requires` keeps the request to `RESERVE_LIMIT` slots, which is
/// far from that unless the slab fills the address space already.
#[verifier::external_body]
fn slab_reserve(slab: &mut Slab<OctreeNode>, additional: usize)
    requires
        additional <= RESERVE_LIMIT,
    ensures
        slab_slots(*final(slab)) == slab_slots(*old(slab)),
        slab_vacant_key(*final(slab)) == slab_vacant_key(*old(slab)),
{
    slab.reserve(additional)
}

/// The arena of an octree. It keeps its nodes under keys 0, 1, 2, ... in the
/// order in which they came, and never moves or drops one; it does not ask
/// that the nodes form a tree.
#[derive(Debug)]
#[verifier::reject_recursive_types(T)]
pub struct FlatOctree<T> {
    storage: Slab<T>,
    root_id: NodeId,
}

impl View for FlatOctree<OctreeNode> {
    type V = Seq<NodeModel>;

    /// The nodes in the order of their keys.
    closed spec fn view(&self) -> Seq<NodeModel> {
        Seq::new(
            slab_slots(self.storage).len(),
            |key: int| slab_slots(self.storage)[key].unwrap()@,
        )
    }
}

impl Clone for FlatOctree<OctreeNode> {
    fn clone(&self) -> (octree: FlatOctree<OctreeNode>)
        ensures
            octree@ == self@,
            octree.wf() == self.wf(),
    {
        let octree = FlatOctree { storage: slab_clone(&self.storage), root_id: self.root_id };
        proof {
            assert(octree@ =~= self@);
            if self.wf() {
                assert forall|key: int|
                    0 <= key < slab_slots(octree.storage).len() implies (#[trigger] slab_slots(
                    octree.storage,
                )[key]) is Some by {
                    assert(slab_slots(self.storage)[key] is Some);
                }
            }
            if octree.wf() {
                assert forall|key: int|
                    0 <= key < slab_slots(self.storage).len() implies (#[trigger] slab_slots(
                    self.storage,
                )[key]) is Some by {
                    assert(slab_slots(octree.storage)[key] is Some);
                }
            }
        }
        octree
    }
}

impl FlatOctree<OctreeNode> {
    /// The arena holds a node under every key up to its length, the root
    /// among them under key 0.
    pub closed spec fn wf(&self) -> bool {
        &&& slab_vacant_key(self.storage) == slab_slots(self.storage).len()
        &&& forall|key: int|
            0 <= key < slab_slots(self.storage).len() ==> (#[trigger] slab_slots(
                self.storage,
            )[key]) is Some
        &&& slab_slots(self.storage).len() >= 1
        &&& self.root_id == NodeId(0)
    }

    /// A well-formed arena holds at least the root, and no more nodes than
    /// there are keys.
    pub proof fn lemma_len(&self)
        requires
            self.wf(),
        ensures
            1 <= self@.len() <= usize::MAX,
    {
    }

    /// Number of nodes, which is the key that the next node will get.
    pub fn len(&self) -> (len: usize)
        requires
            self.wf(),
        ensures
            len == self@.len(),
    {
        slab_next_key(&self.storage)
    }

    /// The root node.
    pub fn root(&self) -> (node: &OctreeNode)
        requires
            self.wf(),
        ensures
            node@ == self@[0],
    {
        slab_get(&self.storage, self.root_id.0).unwrap()
    }

    /// The root node, to be changed in place.
    pub fn root_mut(&mut self) -> (node: &mut OctreeNode)
        requires
            old(self).wf(),
        ensures
            node@ == old(self)@[0],
            final(self)@ == old(self)@.update(0, final(node)@),
            final(self).wf(),
    {
        slab_get_mut(&mut self.storage, self.root_id.0).unwrap()
    }

    /// Key of the root node: 0.
    pub fn root_id(&self) -> (id: NodeId)
        requires
            self.wf(),
        ensures
            id == NodeId(0),
    {
        self.root_id
    }

    /// The node under `node_id`, if the arena holds one.
    pub fn node(&self, node_id: NodeId) -> (r: Option<&OctreeNode>)
        requires
            self.wf(),
        ensures
            match r {
                Some(node) => node_id.0 < self@.len() && node@ == self@[node_id.0 as int],
                None => node_id.0 >= self@.len(),
            },
    {
        slab_get(&self.storage, node_id.0)
    }

    /// The node under `node_id`, to be changed in place, if the arena holds
    /// one.
    pub fn node_mut(&mut self, node_id: NodeId) -> (r: Option<&mut OctreeNode>)
        requires
            old(self).wf(),
        ensures
            final(self).wf(),
            match r {
                Some(node) => {
                    &&& node_id.0 < old(self)@.len()
                    &&& node@ == old(self)@[node_id.0 as int]
                    &&& final(self)@ == old(self)@.update(node_id.0 as int, final(node)@)
                },
                None => node_id.0 >= old(self)@.len() && final(self)@ == old(self)@,
            },
    {
        slab_get_mut(&mut self.storage, node_id.0)
    }

    /// Makes room for `additional` more nodes, at most `RESERVE_LIMIT` at a
    /// time. The nodes stay as they are.
    pub fn reserve(&mut self, additional: usize)
        requires
            old(self).wf(),
        ensures
            final(self).wf(),
            final(self)@ == old(self)@,
    {
        let room: usize = if additional > RESERVE_LIMIT {
            RESERVE_LIMIT
        } else {
            additional
        };
        slab_reserve(&mut self.storage, room);
    }

    /// Adds a node behind the others and returns its key, which is the number
    /// of nodes that the arena held before.
    pub fn insert(&mut self, node: OctreeNode) -> (id: NodeId)
        requires
            old(self).wf(),
        ensures
            final(self).wf(),
            id.0 == old(self)@.len(),
            final(self)@ == old(self)@.push(node@),
    {
        let key = slab_insert(&mut self.storage, node);
        NodeId(key)
    }

    /// An arena that holds one node, the root, which is blank.
    pub fn new() -> (octree: FlatOctree<OctreeNode>)
        ensures
            octree.wf(),
            octree@ == seq![blank_node()],
    {
        let mut storage = slab_new();
        let root_node = OctreeNode::default();
        let root_id = NodeId(slab_insert(&mut storage, root_node));
        let octree = FlatOctree { storage, root_id };
        proof {
            assert(octree@ =~= seq![blank_node()]);
        }
        octree
    }
}

} // verus!
