//! Bookkeeping of the avoidance search: the grid that counts search nodes per cell, and the walk
//! back along a search tree to a start node.

use vstd::prelude::*;
use std::collections::{HashMap, HashSet};
use crate::qtree::qtree::{cell_key, key_of};

verus! {

broadcast use vstd::std_specs::hash::group_hash_axioms;

/// The search nodes in each grid cell, keyed by `cell_key` of the cell.
pub type GridMap = HashMap<i64, HashSet<usize>>;

/// The key of the cell `idx` in a grid map.
pub open spec fn grid_key(idx: [i32; 2]) -> i64 {
    cell_key(idx[0] as int, idx[1] as int) as i64
}

/// The nodes recorded in the cell `idx` of a grid map.
pub open spec fn grid_cell(grid_map: Map<i64, HashSet<usize>>, idx: [i32; 2]) -> Set<usize> {
    let k = grid_key(idx);
    if grid_map.contains_key(k) {
        grid_map[k]@
    } else {
        Set::empty()
    }
}

/// Every cell of a grid map holds finitely many nodes.
pub open spec fn grid_finite(grid_map: Map<i64, HashSet<usize>>) -> bool {
    forall|k: i64| #[trigger] grid_map.contains_key(k) ==> grid_map[k]@.finite()
}

/// An empty grid map.
pub fn new_grid_map() -> (res: GridMap)
    ensures
        res@ == Map::<i64, HashSet<usize>>::empty(),
        grid_finite(res@),
{
    HashMap::new()
}

/// Recording a node in a cell of a grid map whose cells are finite raises that cell's count by
/// one, unless the node was already there.
pub proof fn lemma_grid_count(g0: Map<i64, HashSet<usize>>, g1: Map<i64, HashSet<usize>>, idx: [i32; 2], value: usize)
    requires
        grid_finite(g0),
        grid_cell(g1, idx) == grid_cell(g0, idx).insert(value),
    ensures
        grid_cell(g1, idx).len() == grid_cell(g0, idx).len() + if grid_cell(g0, idx).contains(value) { 0int } else { 1int },
{
    let c = grid_cell(g0, idx);
    assert(c.finite());
    if c.contains(value) {
        assert(c.insert(value) =~= c);
    }
}

/// Records the node `value` in the cell `idx`.
pub fn insert_to_grid_map(grid_map: &mut GridMap, idx: [i32; 2], value: usize)
    ensures
        grid_cell(final(grid_map)@, idx) == grid_cell(old(grid_map)@, idx).insert(value),
        grid_finite(old(grid_map)@) ==> grid_finite(final(grid_map)@),
        final(grid_map)@.contains_key(grid_key(idx)),
        forall|k: i64| k != grid_key(idx) ==> #[trigger] final(grid_map)@.contains_key(k) == old(grid_map)@.contains_key(k),
        forall|k: i64| k != grid_key(idx) && old(grid_map)@.contains_key(k) ==> #[trigger] final(grid_map)@[k] == old(grid_map)@[k],
{
    let key = key_of(idx);
    let mut cell = match grid_map.remove(&key) {
        Some(cell) => cell,
        None => HashSet::new(),
    };
    cell.insert(value);
    grid_map.insert(key, cell);
}

/// The number of nodes recorded in the cell `idx`.
pub fn count_from_grid_map(grid_map: &mut GridMap, idx: [i32; 2]) -> (res: usize)
    ensures
        res == grid_cell(old(grid_map)@, idx).len(),
        final(grid_map)@ == old(grid_map)@,
{
    match grid_map.get(&key_of(idx)) {
        Some(cell) => cell.len(),
        None => 0,
    }
}

/// What the walk back along a search tree reads of a node: the node it was reached from, and
/// whether it is still passable (neither blocked nor pruned).
#[derive(Clone, Copy, Debug, PartialEq, Eq, Structural)]
pub struct NodeLink {
    pub from: Option<usize>,
    pub passable: bool,
}

/// The node `k` steps back from `node` along the links, if the walk gets that far.
pub open spec fn ancestor(nodes: Seq<NodeLink>, node: usize, k: nat) -> Option<usize>
    decreases k,
{
    if k == 0 {
        Some(node)
    } else {
        match ancestor(nodes, node, (k - 1) as nat) {
            Some(a) => if a < nodes.len() { nodes[a as int].from } else { None },
            None => None,
        }
    }
}

/// The walk back from `node` comes to a node that was reached from nowhere within `k` steps.
pub open spec fn walk_ends(nodes: Seq<NodeLink>, node: usize, k: nat) -> bool {
    ancestor(nodes, node, k) is Some && nodes[ancestor(nodes, node, k)->0 as int].from is None
}

/// The `m`-th node back from `node` is a start node reached through passable nodes only, and
/// no node before it is a start node.
pub open spec fn connects_at(start_set: Set<usize>, nodes: Seq<NodeLink>, node: usize, m: nat) -> bool {
    &&& m >= 1
    &&& ancestor(nodes, node, m) is Some
    &&& start_set.contains(ancestor(nodes, node, m)->0)
    &&& forall|j: nat| 1 <= j <= m ==> nodes[(#[trigger] ancestor(nodes, node, j))->0 as int].passable
    &&& forall|j: nat| 1 <= j < m ==> !start_set.contains((#[trigger] ancestor(nodes, node, j))->0)
}

/// A walk that ends after `e` steps goes no further.
proof fn lemma_ancestor_stops(nodes: Seq<NodeLink>, node: usize, e: nat, k: nat)
    requires
        walk_ends(nodes, node, e),
        e < k,
    ensures
        ancestor(nodes, node, k) is None,
    decreases k,
{
    if k > e + 1 {
        lemma_ancestor_stops(nodes, node, e, (k - 1) as nat);
    }
}

/// The walk back from `node` stays on the node list until it ends, within `k` steps.
pub open spec fn chain_ends(nodes: Seq<NodeLink>, node: usize, k: nat) -> bool {
    &&& walk_ends(nodes, node, k)
    &&& forall|j: nat| j <= k ==> (#[trigger] ancestor(nodes, node, j)) is Some && ancestor(nodes, node, j)->0 < nodes.len()
}

/// Walks back from `node` towards the start nodes. Returns the nodes passed, ending with the
/// first start node met, or `None` where a node on the way is not passable or the walk ends
/// before it meets a start node.
pub fn can_connect_goal(start_set: &HashSet<usize>, nodes: &[NodeLink], node: usize) -> (res: Option<Vec<usize>>)
    requires
        node < nodes@.len(),
        exists|e: nat| chain_ends(nodes@, node, e),
    ensures
        res is Some <==> exists|m: nat| connects_at(start_set@, nodes@, node, m),
        match res {
            Some(path) => {
                &&& connects_at(start_set@, nodes@, node, path.len() as nat)
                &&& forall|j: int| 0 <= j < path.len() ==> path@[j] == ancestor(nodes@, node, (j + 1) as nat)->0
            },
            None => true,
        },
{
    let ghost e: nat = choose|e: nat| chain_ends(nodes@, node, e);
    let mut cur = node;
    let mut path: Vec<usize> = Vec::new();
    while nodes[cur].from.is_some()
        invariant
            node < nodes@.len(),
            chain_ends(nodes@, node, e),
            path.len() <= e,
            ancestor(nodes@, node, path.len() as nat) == Some(cur),
            cur < nodes@.len(),
            forall|j: int| 0 <= j < path.len() ==> path@[j] == ancestor(nodes@, node, (j + 1) as nat)->0,
            forall|j: nat| 1 <= j <= path.len() ==> nodes@[(#[trigger] ancestor(nodes@, node, j))->0 as int].passable,
            forall|j: nat| 1 <= j <= path.len() ==> !start_set@.contains((#[trigger] ancestor(nodes@, node, j))->0),
        decreases e - path.len(),
    {
        let next_node = match nodes[cur].from {
            Some(n) => n,
            None => cur,
        };
        proof {
            let k = (path.len() + 1) as nat;
            assert(ancestor(nodes@, node, k) == Some(next_node));
            if path.len() == e {
                assert(nodes@[cur as int].from is None);
            }
            assert(ancestor(nodes@, node, k) is Some && ancestor(nodes@, node, k)->0 < nodes@.len());
        }
        if !nodes[next_node].passable {
            proof {
                assert forall|m: nat| !connects_at(start_set@, nodes@, node, m) by {
                    let k = (path.len() + 1) as nat;
                    if connects_at(start_set@, nodes@, node, m) {
                        if m < k {
                            assert(start_set@.contains(ancestor(nodes@, node, m)->0));
                        } else {
                            assert(nodes@[ancestor(nodes@, node, k)->0 as int].passable);
                        }
                    }
                }
            }
            return None;
        }
        path.push(next_node);
        if start_set.contains(&next_node) {
            proof {
                assert(connects_at(start_set@, nodes@, node, path.len() as nat));
            }
            return Some(path);
        }
        cur = next_node;
    }
    proof {
        assert forall|m: nat| !connects_at(start_set@, nodes@, node, m) by {
            if connects_at(start_set@, nodes@, node, m) {
                if m > path.len() {
                    lemma_ancestor_stops(nodes@, node, path.len() as nat, m);
                } else {
                    assert(start_set@.contains(ancestor(nodes@, node, m)->0));
                }
            }
        }
    }
    None
}

/// Which overlays of the avoidance search are drawn.
#[derive(Clone, Copy, Debug, PartialEq, Eq, Structural)]
pub struct AvoidanceRenderParams {
    pub visible: bool,
    pub circle_visible: bool,
    pub shape_visible: bool,
    pub cost_visible: bool,
    pub grid_visible: bool,
}

impl AvoidanceRenderParams {
    /// The search is drawn, none of its overlays.
    pub fn new() -> (res: Self)
        ensures
            res == (AvoidanceRenderParams {
                visible: true,
                circle_visible: false,
                shape_visible: false,
                cost_visible: false,
                grid_visible: false,
            }),
    {
        Self {
            visible: true,
            circle_visible: false,
            shape_visible: false,
            cost_visible: false,
            grid_visible: false,
        }
    }
}

} // verus!
