//! The whole expansion of a hierarchy: a walk through the octree that loads
//! the chunk of every proxy it meets, and what holds of the octree when the
//! walk is over.

use vstd::prelude::*;
use crate::hierarchy::{
    children_of_entry, chunk_fits, entry_at, fanout, lemma_first_slot, lemma_parent_of_slot,
    lemma_parse_keeps_tree, lemma_slot_node, node_at_slot, octant_of, parent_slot, parsed_nodes,
    record_count, slot_key, slots_before,
};
use crate::octree::NodeId;
use crate::octree::node::{
    child_link_ok, node_ok, rooted, tree_wf, NodeModel, NODE_TYPE_PROXY,
};
use crate::point_cloud::{
    children_down, chunk_wanted, lemma_walk_depth_first, lemma_walk_descends, loaded_nodes,
    visit_order, visits_from, walk_order,
};
use crate::resource::ByteRange;

verus! {

/// What a walk visits below the children in fewer octants, it visits below
/// those in more.
proof fn lemma_visits_grow(nodes: Seq<NodeModel>, key: int, more: int, fewer: int, member: int)
    requires
        0 <= key < nodes.len(),
        0 <= more <= fewer <= 8,
        visits_from(nodes, key, fewer).contains(member),
    ensures
        visits_from(nodes, key, more).contains(member),
    decreases fewer - more,
{
    if more < fewer {
        lemma_visits_grow(nodes, key, more + 1, fewer, member);
        let rest = visits_from(nodes, key, more + 1);
        let all = visits_from(nodes, key, more);
        let at = choose|at: int| 0 <= at < rest.len() && rest[at] == member;
        assert(all[all.len() - rest.len() + at] == member);
    }
}

/// A walk that visits a node of an octree visits each of its children.
proof fn lemma_visit_closed(nodes: Seq<NodeModel>, key: int, parent: int, octant: int)
    requires
        tree_wf(nodes),
        0 <= key < nodes.len(),
        visit_order(nodes, key).contains(parent),
        0 <= octant < 8,
        0 <= parent < nodes.len(),
        nodes[parent].children[octant] is Some,
    ensures
        visit_order(nodes, key).contains(nodes[parent].children[octant].unwrap().0 as int),
    decreases nodes.len() - key, 9int,
{
    let child = nodes[parent].children[octant].unwrap().0 as int;
    let all = visit_order(nodes, key);
    let rest = visits_from(nodes, key, 0);
    let at = choose|at: int| 0 <= at < all.len() && all[at] == parent;
    assert(node_ok(nodes, parent));
    assert(child_link_ok(nodes, parent, octant));
    if at == 0 {
        let upper = visits_from(nodes, key, octant);
        assert(visit_order(nodes, child)[0] == child);
        assert(upper[0] == child);
        assert(upper.contains(child));
        lemma_visits_grow(nodes, key, 0, octant, child);
    } else {
        assert(rest[at - 1] == parent);
        lemma_visits_closed(nodes, key, 0, parent, octant);
    }
    let place = choose|place: int| 0 <= place < rest.len() && rest[place] == child;
    assert(all[place + 1] == child);
}

/// A walk that visits a node below the children of a node visits each of
/// its children.
proof fn lemma_visits_closed(nodes: Seq<NodeModel>, key: int, from: int, parent: int, octant: int)
    requires
        tree_wf(nodes),
        0 <= key < nodes.len(),
        0 <= from <= 8,
        visits_from(nodes, key, from).contains(parent),
        0 <= octant < 8,
        0 <= parent < nodes.len(),
        nodes[parent].children[octant] is Some,
    ensures
        visits_from(nodes, key, from).contains(nodes[parent].children[octant].unwrap().0 as int),
    decreases nodes.len() - key, 8 - from,
{
    let child = nodes[parent].children[octant].unwrap().0 as int;
    let all = visits_from(nodes, key, from);
    assert(from < 8);
    assert(node_ok(nodes, key));
    assert(child_link_ok(nodes, key, from));
    let here: Seq<int> = match nodes[key].children[from] {
        Some(first) => visit_order(nodes, first.0 as int),
        None => seq![],
    };
    let rest = visits_from(nodes, key, from + 1);
    assert(all == here + rest);
    let at = choose|at: int| 0 <= at < all.len() && all[at] == parent;
    if at < here.len() {
        let first = nodes[key].children[from].unwrap().0 as int;
        assert(here[at] == parent);
        lemma_visit_closed(nodes, first, parent, octant);
        let place = choose|place: int| 0 <= place < here.len() && here[place] == child;
        assert(all[place] == child);
    } else {
        assert(rest[at - here.len()] == parent);
        lemma_visits_closed(nodes, key, from + 1, parent, octant);
        let place = choose|place: int| 0 <= place < rest.len() && rest[place] == child;
        assert(all[here.len() + place] == child);
    }
}

/// A walk from the root of an octree visits every node.
pub proof fn lemma_visit_reaches(nodes: Seq<NodeModel>, key: int)
    requires
        tree_wf(nodes),
        0 <= key < nodes.len(),
    ensures
        visit_order(nodes, 0).contains(key),
    decreases key,
{
    if key == 0 {
        assert(visit_order(nodes, 0)[0] == 0);
    } else {
        assert(rooted(nodes, key));
        let parent = nodes[key].parent.unwrap().0 as int;
        lemma_visit_reaches(nodes, parent);
        let octant = choose|octant: int|
            0 <= octant < 8 && #[trigger] nodes[parent].children[octant] == Some(
                NodeId(key as usize),
            );
        lemma_visit_closed(nodes, 0, parent, octant);
    }
}

/// Whether the octree `after` has every node of `before` under its key and
/// every child that a node had in `before`.
pub open spec fn keeps_links(before: Seq<NodeModel>, after: Seq<NodeModel>) -> bool {
    &&& before.len() <= after.len()
    &&& forall|key: int, octant: int|
        0 <= key < before.len() && 0 <= octant < 8 && before[key].children[octant] is Some
            ==> #[trigger] after[key].children[octant] == before[key].children[octant]
}

/// What a walk visited in an octree, it visits in one that kept the links.
proof fn lemma_visit_kept(before: Seq<NodeModel>, after: Seq<NodeModel>, key: int, member: int)
    requires
        tree_wf(before),
        tree_wf(after),
        keeps_links(before, after),
        0 <= key < before.len(),
        visit_order(before, key).contains(member),
    ensures
        visit_order(after, key).contains(member),
    decreases before.len() - key, 9int,
{
    let all = visit_order(before, key);
    let at = choose|at: int| 0 <= at < all.len() && all[at] == member;
    if at == 0 {
        assert(visit_order(after, key)[0] == key);
    } else {
        assert(visits_from(before, key, 0)[at - 1] == member);
        lemma_visits_kept(before, after, key, 0, member);
        let rest = visits_from(after, key, 0);
        let place = choose|place: int| 0 <= place < rest.len() && rest[place] == member;
        assert(visit_order(after, key)[place + 1] == member);
    }
}

/// What a walk visited below the children of a node of an octree, it visits
/// in one that kept the links.
proof fn lemma_visits_kept(
    before: Seq<NodeModel>,
    after: Seq<NodeModel>,
    key: int,
    from: int,
    member: int,
)
    requires
        tree_wf(before),
        tree_wf(after),
        keeps_links(before, after),
        0 <= key < before.len(),
        0 <= from <= 8,
        visits_from(before, key, from).contains(member),
    ensures
        visits_from(after, key, from).contains(member),
    decreases before.len() - key, 8 - from,
{
    let all = visits_from(before, key, from);
    assert(from < 8);
    assert(node_ok(before, key));
    assert(child_link_ok(before, key, from));
    assert(node_ok(after, key));
    assert(child_link_ok(after, key, from));
    let here: Seq<int> = match before[key].children[from] {
        Some(first) => visit_order(before, first.0 as int),
        None => seq![],
    };
    let rest = visits_from(before, key, from + 1);
    assert(all == here + rest);
    let at = choose|at: int| 0 <= at < all.len() && all[at] == member;
    let grown = visits_from(after, key, from);
    if at < here.len() {
        let first = before[key].children[from].unwrap().0 as int;
        assert(after[key].children[from] == before[key].children[from]);
        assert(here[at] == member);
        lemma_visit_kept(before, after, first, member);
        let there = visit_order(after, first);
        let place = choose|place: int| 0 <= place < there.len() && there[place] == member;
        assert(grown[place] == member);
    } else {
        assert(rest[at - here.len()] == member);
        lemma_visits_kept(before, after, key, from + 1, member);
        lemma_visits_grow(after, key, from, from + 1, member);
    }
}

/// A walk visits what it visits from any of the nodes that wait.
proof fn lemma_walk_holds(nodes: Seq<NodeModel>, pending: Seq<NodeId>, at: int, member: int)
    requires
        0 <= at < pending.len(),
        visit_order(nodes, pending[at].0 as int).contains(member),
    ensures
        walk_order(nodes, pending).contains(member),
    decreases pending.len(),
{
    let all = walk_order(nodes, pending);
    let top = visit_order(nodes, pending.last().0 as int);
    let rest = walk_order(nodes, pending.drop_last());
    assert(all == top + rest);
    if at == pending.len() - 1 {
        let place = choose|place: int| 0 <= place < top.len() && top[place] == member;
        assert(all[place] == member);
    } else {
        assert(pending.drop_last()[at] == pending[at]);
        lemma_walk_holds(nodes, pending.drop_last(), at, member);
        let place = choose|place: int| 0 <= place < rest.len() && rest[place] == member;
        assert(all[top.len() + place] == member);
    }
}

/// What a walk visits, it visits from one of the nodes that wait.
proof fn lemma_walk_member(nodes: Seq<NodeModel>, pending: Seq<NodeId>, member: int) -> (at: int)
    requires
        walk_order(nodes, pending).contains(member),
    ensures
        0 <= at < pending.len(),
        visit_order(nodes, pending[at].0 as int).contains(member),
    decreases pending.len(),
{
    let all = walk_order(nodes, pending);
    assert(pending.len() > 0);
    let top = visit_order(nodes, pending.last().0 as int);
    let rest = walk_order(nodes, pending.drop_last());
    assert(all == top + rest);
    let place = choose|place: int| 0 <= place < all.len() && all[place] == member;
    if place < top.len() {
        assert(top[place] == member);
        pending.len() - 1
    } else {
        assert(rest[place - top.len()] == member);
        let at = lemma_walk_member(nodes, pending.drop_last(), member);
        assert(pending.drop_last()[at] == pending[at]);
        at
    }
}

/// After a chunk was read below a proxy of an octree, a walk from the proxy
/// visits the node of every record.
proof fn lemma_new_nodes_below(nodes: Seq<NodeModel>, root: NodeId, chunk: Seq<u8>, slot: int)
    requires
        tree_wf(nodes),
        root.0 < nodes.len(),
        nodes[root.0 as int].node_type == NODE_TYPE_PROXY,
        chunk_fits(nodes, root, chunk),
        nodes.len() + record_count(chunk) - 1 <= usize::MAX,
        0 <= slot < record_count(chunk),
    ensures
        visit_order(parsed_nodes(nodes, root, chunk), root.0 as int).contains(
            slot_key(nodes.len() as int, root, slot).0 as int,
        ),
    decreases slot,
{
    let after = parsed_nodes(nodes, root, chunk);
    let len = nodes.len() as int;
    lemma_parse_keeps_tree(nodes, root, chunk);
    if slot == 0 {
        assert(visit_order(after, root.0 as int)[0] == root.0);
    } else {
        lemma_parent_of_slot(chunk, slot);
        let above = parent_slot(chunk, slot);
        let octant = octant_of(chunk, slot);
        lemma_new_nodes_below(nodes, root, chunk, above);
        lemma_slot_node(nodes, root, chunk, above);
        let parent_key = slot_key(len, root, above).0 as int;
        assert(after[parent_key] == node_at_slot(nodes, root, chunk, above));
        let children = children_of_entry(
            entry_at(chunk, above),
            slots_before(chunk, above),
            len,
            root,
        );
        assert(children[octant] == Some(slot_key(len, root, slot)));
        lemma_visit_closed(after, root.0 as int, parent_key, octant);
    }
}

/// What the hierarchy file holds: the bytes of each run of it.
pub type Chunks = spec_fn(ByteRange) -> Seq<u8>;

/// The bytes that a node is offered when it is visited: those of the chunk
/// that it wants.
pub open spec fn offered(node: NodeModel, chunks: Chunks) -> Seq<u8> {
    match chunk_wanted(node) {
        Some(range) => chunks(range),
        None => seq![],
    }
}

/// Whether loading node `key` fails: it is a proxy, and its chunk does not
/// fit.
pub open spec fn load_fails(nodes: Seq<NodeModel>, key: NodeId, chunks: Chunks) -> bool {
    nodes[key.0 as int].node_type == NODE_TYPE_PROXY && !chunk_fits(
        nodes,
        key,
        offered(nodes[key.0 as int], chunks),
    )
}

/// Whether node `key` is settled: loading it succeeds and changes nothing.
pub open spec fn settled(nodes: Seq<NodeModel>, key: int, chunks: Chunks) -> bool {
    &&& !load_fails(nodes, NodeId(key as usize), chunks)
    &&& loaded_nodes(nodes, NodeId(key as usize), offered(nodes[key], chunks)) == nodes
}

/// A node that was loaded is settled.
proof fn lemma_loaded_is_settled(nodes: Seq<NodeModel>, key: NodeId, chunks: Chunks)
    requires
        tree_wf(nodes),
        key.0 < nodes.len(),
        !load_fails(nodes, key, chunks),
    ensures
        settled(
            loaded_nodes(nodes, key, offered(nodes[key.0 as int], chunks)),
            key.0 as int,
            chunks,
        ),
{
    let data = offered(nodes[key.0 as int], chunks);
    let once = loaded_nodes(nodes, key, data);
    if nodes[key.0 as int].node_type == NODE_TYPE_PROXY {
        lemma_slot_node(nodes, key, data, 0);
        lemma_first_slot(nodes, key, data);
        assert(once[key.0 as int] == node_at_slot(nodes, key, data, 0));
        if once[key.0 as int].node_type == NODE_TYPE_PROXY {
            assert(fanout(entry_at(data, 0)) == 0);
            assert(slots_before(data, 1) == slots_before(data, 0) + fanout(entry_at(data, 0)));
            assert(record_count(data) == 1);
            assert(offered(once[key.0 as int], chunks) == data);
            lemma_first_slot(once, key, data);
            assert(parsed_nodes(once, key, data) =~= once);
        }
    }
}

/// A settled node stays settled when another node is loaded.
proof fn lemma_settled_kept(
    nodes: Seq<NodeModel>,
    key: NodeId,
    chunks: Chunks,
    other: int,
)
    requires
        tree_wf(nodes),
        key.0 < nodes.len(),
        !load_fails(nodes, key, chunks),
        0 <= other < nodes.len(),
        other != key.0,
        settled(nodes, other, chunks),
    ensures
        settled(
            loaded_nodes(nodes, key, offered(nodes[key.0 as int], chunks)),
            other,
            chunks,
        ),
{
    let once = loaded_nodes(nodes, key, offered(nodes[key.0 as int], chunks));
    let id = NodeId(other as usize);
    let data = offered(nodes[other], chunks);
    if once != nodes {
        assert(once[other] == nodes[other]);
        if nodes[other].node_type == NODE_TYPE_PROXY {
            assert(parsed_nodes(nodes, id, data).len() == nodes.len());
            assert(record_count(data) == 1);
            lemma_first_slot(nodes, id, data);
            lemma_first_slot(once, id, data);
            assert(parsed_nodes(nodes, id, data)[other] == nodes[other]);
            assert(entry_at(data, 0).node_type == NODE_TYPE_PROXY);
            assert(parsed_nodes(once, id, data) =~= once);
        }
    }
}

/// The octree after a walk that loads every node it visits: the walk takes
/// the node that waits last, offers it its chunk, and puts its children
/// behind the others, until no node waits. `None` where a chunk does not
/// fit, where a node that waits is not in the octree, and where the walk is
/// not over after `steps` nodes.
pub open spec fn expanded(
    nodes: Seq<NodeModel>,
    pending: Seq<NodeId>,
    chunks: Chunks,
    steps: nat,
) -> Option<Seq<NodeModel>>
    decreases steps,
{
    if pending.len() == 0 {
        Some(nodes)
    } else if steps == 0 || pending.last().0 >= nodes.len() || load_fails(
        nodes,
        pending.last(),
        chunks,
    ) {
        None
    } else {
        let next = loaded_nodes(
            nodes,
            pending.last(),
            offered(nodes[pending.last().0 as int], chunks),
        );
        expanded(
            next,
            pending.drop_last() + children_down(next[pending.last().0 as int], 0),
            chunks,
            (steps - 1) as nat,
        )
    }
}

/// Whether every node that waits is in the octree.
pub open spec fn all_known(nodes: Seq<NodeModel>, pending: Seq<NodeId>) -> bool {
    forall|at: int| 0 <= at < pending.len() ==> (#[trigger] pending[at]).0 < nodes.len()
}

/// Whether every node of the octree is settled or will be visited.
pub open spec fn covered(nodes: Seq<NodeModel>, pending: Seq<NodeId>, chunks: Chunks) -> bool {
    forall|key: int|
        0 <= key < nodes.len() ==> #[trigger] settled(nodes, key, chunks) || walk_order(
            nodes,
            pending,
        ).contains(key)
}

/// Whether every node of the octree is settled.
pub open spec fn all_settled(nodes: Seq<NodeModel>, chunks: Chunks) -> bool {
    forall|key: int| 0 <= key < nodes.len() ==> #[trigger] settled(nodes, key, chunks)
}

/// The children of a node of an octree are in the octree.
proof fn lemma_children_known(nodes: Seq<NodeModel>, key: int, from: int)
    requires
        tree_wf(nodes),
        0 <= key < nodes.len(),
        0 <= from <= 8,
    ensures
        all_known(nodes, children_down(nodes[key], from)),
    decreases 8 - from,
{
    if from < 8 {
        lemma_children_known(nodes, key, from + 1);
        assert(node_ok(nodes, key));
        assert(child_link_ok(nodes, key, from));
        let higher = children_down(nodes[key], from + 1);
        let all = children_down(nodes[key], from);
        assert forall|at: int| 0 <= at < all.len() implies (#[trigger] all[at]).0
            < nodes.len() by {
            if at < higher.len() {
                assert(all[at] == higher[at]);
            }
        }
    }
}

/// One step of the walk leaves an octree in which every node that waits is
/// known and every node is settled or will be visited.
proof fn lemma_step(nodes: Seq<NodeModel>, pending: Seq<NodeId>, chunks: Chunks)
    requires
        tree_wf(nodes),
        all_known(nodes, pending),
        covered(nodes, pending, chunks),
        pending.len() > 0,
        !load_fails(nodes, pending.last(), chunks),
    ensures
        ({
            let next = loaded_nodes(
                nodes,
                pending.last(),
                offered(nodes[pending.last().0 as int], chunks),
            );
            let waiting = pending.drop_last() + children_down(next[pending.last().0 as int], 0);
            &&& tree_wf(next)
            &&& all_known(next, waiting)
            &&& covered(next, waiting, chunks)
        }),
{
    let id = pending.last();
    let key = id.0 as int;
    let data = offered(nodes[key], chunks);
    let next = loaded_nodes(nodes, id, data);
    let rest = pending.drop_last();
    let below = children_down(next[key], 0);
    let waiting = rest + below;
    assert(pending[pending.len() - 1] == id);
    assert(rooted(nodes, key));
    if next != nodes {
        lemma_parse_keeps_tree(nodes, id, data);
    }
    lemma_children_known(next, key, 0);
    assert forall|at: int| 0 <= at < waiting.len() implies (#[trigger] waiting[at]).0
        < next.len() by {
        if at < rest.len() {
            assert(waiting[at] == pending[at]);
        } else {
            assert(waiting[at] == below[at - rest.len()]);
        }
    }
    assert(keeps_links(nodes, next));
    lemma_walk_descends(next, rest, key, 0);
    assert forall|other: int| 0 <= other < next.len() implies #[trigger] settled(
        next,
        other,
        chunks,
    ) || walk_order(next, waiting).contains(other) by {
        if other == key {
            lemma_loaded_is_settled(nodes, id, chunks);
        } else if other >= nodes.len() {
            let slot = other - nodes.len() + 1;
            lemma_new_nodes_below(nodes, id, data, slot);
            lemma_in_walk_below(next, rest, key, other);
        } else if settled(nodes, other, chunks) {
            lemma_settled_kept(nodes, id, chunks, other);
        } else {
            let at = lemma_walk_member(nodes, pending, other);
            if at == pending.len() - 1 {
                assert(next == nodes) by {
                    if next != nodes {
                        assert(visits_from(nodes, key, 0) =~= seq![]) by {
                            lemma_no_visits(nodes, key, 0);
                        }
                        assert(visit_order(nodes, key) =~= seq![key]);
                    }
                }
                lemma_in_walk_below(next, rest, key, other);
            } else {
                assert(rest[at] == pending[at]);
                lemma_visit_kept(nodes, next, rest[at].0 as int, other);
                assert(waiting[at] == rest[at]);
                lemma_walk_holds(next, waiting, at, other);
            }
        }
    }
}

/// A walk visits nothing below a node without children.
proof fn lemma_no_visits(nodes: Seq<NodeModel>, key: int, from: int)
    requires
        0 <= key < nodes.len(),
        0 <= from <= 8,
        forall|octant: int| 0 <= octant < 8 ==> #[trigger] nodes[key].children[octant] is None,
    ensures
        visits_from(nodes, key, from).len() == 0,
    decreases 8 - from,
{
    if from < 8 {
        lemma_no_visits(nodes, key, from + 1);
        assert(nodes[key].children[from] is None);
    }
}

/// What a walk visits from a node, apart from the node itself, it visits
/// once the node's children wait behind the others.
proof fn lemma_in_walk_below(nodes: Seq<NodeModel>, rest: Seq<NodeId>, key: int, member: int)
    requires
        tree_wf(nodes),
        0 <= key < nodes.len(),
        visit_order(nodes, key).contains(member),
        member != key,
    ensures
        walk_order(nodes, rest + children_down(nodes[key], 0)).contains(member),
{
    lemma_walk_descends(nodes, rest, key, 0);
    let all = visit_order(nodes, key);
    let below = visits_from(nodes, key, 0);
    let at = choose|at: int| 0 <= at < all.len() && all[at] == member;
    assert(below[at - 1] == member);
    let walk = walk_order(nodes, rest + children_down(nodes[key], 0));
    assert(walk[at - 1] == member);
}

/// When a walk through an octree is over, every node is settled, if every
/// node was settled or still to be visited when it started.
proof fn lemma_expanded_settles(
    nodes: Seq<NodeModel>,
    pending: Seq<NodeId>,
    chunks: Chunks,
    steps: nat,
)
    requires
        tree_wf(nodes),
        all_known(nodes, pending),
        covered(nodes, pending, chunks),
        expanded(nodes, pending, chunks, steps) is Some,
    ensures
        tree_wf(expanded(nodes, pending, chunks, steps).unwrap()),
        all_settled(expanded(nodes, pending, chunks, steps).unwrap(), chunks),
    decreases steps,
{
    if pending.len() == 0 {
        assert(walk_order(nodes, pending) =~= seq![]);
        assert forall|key: int| 0 <= key < nodes.len() implies #[trigger] settled(
            nodes,
            key,
            chunks,
        ) by {
            assert(settled(nodes, key, chunks) || walk_order(nodes, pending).contains(key));
        }
    } else {
        assert(pending[pending.len() - 1].0 < nodes.len());
        lemma_step(nodes, pending, chunks);
        let next = loaded_nodes(
            nodes,
            pending.last(),
            offered(nodes[pending.last().0 as int], chunks),
        );
        let waiting = pending.drop_last() + children_down(next[pending.last().0 as int], 0);
        lemma_expanded_settles(next, waiting, chunks, (steps - 1) as nat);
    }
}

/// A walk through an octree in which every node is settled changes nothing,
/// and is over after as many steps as there are nodes to visit.
proof fn lemma_settled_stays(
    nodes: Seq<NodeModel>,
    pending: Seq<NodeId>,
    chunks: Chunks,
    steps: nat,
)
    requires
        tree_wf(nodes),
        all_known(nodes, pending),
        all_settled(nodes, chunks),
        steps >= walk_order(nodes, pending).len(),
    ensures
        expanded(nodes, pending, chunks, steps) == Some(nodes),
    decreases steps,
{
    if pending.len() > 0 {
        let id = pending.last();
        let key = id.0 as int;
        assert(pending[pending.len() - 1] == id);
        assert(settled(nodes, key, chunks));
        lemma_walk_depth_first(nodes, pending);
        lemma_children_known(nodes, key, 0);
        let waiting = pending.drop_last() + children_down(nodes[key], 0);
        assert forall|at: int| 0 <= at < waiting.len() implies (#[trigger] waiting[at]).0
            < nodes.len() by {
            if at < pending.len() - 1 {
                assert(waiting[at] == pending[at]);
            } else {
                assert(waiting[at] == children_down(nodes[key], 0)[at - (pending.len() - 1)]);
            }
        }
        lemma_settled_stays(nodes, waiting, chunks, (steps - 1) as nat);
    }
}

/// Expanding the whole hierarchy a second time changes nothing. Where the
/// walk from the root that loads every proxy it meets is over after some
/// steps, a second such walk through the octree that the first one left,
/// over the same hierarchy file, leaves that octree as it is; it is over
/// after one step for each node.
pub proof fn lemma_expanding_twice(nodes: Seq<NodeModel>, chunks: Chunks, steps: nat, again: nat)
    requires
        tree_wf(nodes),
        expanded(nodes, seq![NodeId(0)], chunks, steps) is Some,
        again >= visit_order(expanded(nodes, seq![NodeId(0)], chunks, steps).unwrap(), 0).len(),
    ensures
        expanded(
            expanded(nodes, seq![NodeId(0)], chunks, steps).unwrap(),
            seq![NodeId(0)],
            chunks,
            again,
        ) == expanded(nodes, seq![NodeId(0)], chunks, steps),
{
    let start = seq![NodeId(0)];
    assert forall|key: int| 0 <= key < nodes.len() implies #[trigger] settled(nodes, key, chunks)
        || walk_order(nodes, start).contains(key) by {
        lemma_visit_reaches(nodes, key);
        lemma_walk_holds(nodes, start, 0, key);
    }
    lemma_expanded_settles(nodes, start, chunks, steps);
    let once = expanded(nodes, start, chunks, steps).unwrap();
    assert(walk_order(once, start) =~= visit_order(once, 0)) by {
        assert(start.drop_last() =~= Seq::<NodeId>::empty());
        assert(walk_order(once, Seq::<NodeId>::empty()) =~= seq![]);
    }
    lemma_settled_stays(once, start, chunks, again);
}

} // verus!
