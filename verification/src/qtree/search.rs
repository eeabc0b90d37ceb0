//! Search over the cells of the quad tree: a breadth-first exploration from a start cell through
//! neighboring cells that are not blocked, and the path finding built on it.

use vstd::prelude::*;
use vstd::arithmetic::power2::pow2;
use std::collections::HashMap;
use super::CellState;
use super::qtree::{QTree, blocked, cell_key, key_of, lemma_cell_key_injective};
use super::adjacency::{touches, lemma_neighbors_touch, lemma_touching_is_neighbor};
use super::cache_map::CacheMap;

verus! {

broadcast use vstd::std_specs::hash::group_hash_axioms;

/// A cell of the quad tree: its level and its index in that level.
pub type QTreeIdx = (usize, [i32; 2]);

/// A cell reached by a search: at what cost, and from which earlier entry.
#[derive(Clone, Copy, Debug)]
pub struct SearchEntry {
    pub level: usize,
    pub idx: [i32; 2],
    pub cost: usize,
    pub from: Option<usize>,
}

/// When a search stops: on meeting a cell as the neighbor of the cell being expanded, or on
/// expanding a cell at a cost of at least the given one.
#[derive(Clone, Copy, Debug)]
pub enum SearchGoal {
    Cell(QTreeIdx),
    Cost(usize),
}

/// The result of a search: the cells reached, in the order reached, the first being the
/// start, and the entry that was being expanded when the goal was met, if it was.
pub struct SearchOutcome {
    pub entries: Vec<SearchEntry>,
    pub stopped_at: Option<usize>,
}

/// The search may pass through a cell in state `st`: it is no obstacle, and an agent in it is
/// one that `ignore` ignores.
pub open spec fn passable<F: Fn(usize) -> bool>(st: CellState, ignore: &F) -> bool {
    match st {
        CellState::Obstacle => false,
        CellState::Occupied(id) => ignore.ensures((id,), true),
        _ => true,
    }
}

/// The cell `c` is present in the tree and the search may pass through it.
pub open spec fn passable_cell<F: Fn(usize) -> bool>(t: &QTree, ignore: &F, c: QTreeIdx) -> bool {
    t.cell(c.0 as int, c.1[0] as int, c.1[1] as int) matches Some(st) && passable(st, ignore)
}

/// `ignore` answers every agent the same way each time.
pub open spec fn deterministic<F: Fn(usize) -> bool>(ignore: &F) -> bool {
    &&& forall|id: usize| ignore.requires((id,))
    &&& forall|id: usize, a: bool, b: bool| ignore.ensures((id,), a) && ignore.ensures((id,), b) ==> a == b
}

/// The cell of an entry.
pub open spec fn entry_cell(e: SearchEntry) -> QTreeIdx {
    (e.level, e.idx)
}

/// The entries form a search tree from `start`: every later entry is a passable neighbor of
/// the earlier entry it was reached from, one step costlier, and no cell is entered twice.
#[verifier::opaque]
pub open spec fn search_tree_valid<F: Fn(usize) -> bool>(t: &QTree, ignore: &F, start: QTreeIdx, es: Seq<SearchEntry>) -> bool {
    &&& es.len() >= 1
    &&& entry_cell(es[0]) == start
    &&& es[0].cost == 0
    &&& es[0].from is None
    &&& forall|j: int| 0 < j < es.len() ==> {
        let e = #[trigger] es[j];
        &&& e.from matches Some(f) && f < j
        &&& e.cost == es[e.from->0 as int].cost + 1
        &&& t.neighbors_spec(es[e.from->0 as int].level as int, es[e.from->0 as int].idx).contains(entry_cell(e))
        &&& in_level(es[e.from->0 as int].level as int, es[e.from->0 as int].idx)
        &&& passable_cell(t, ignore, entry_cell(e))
    }
    &&& forall|i: int, j: int| 0 <= i < j < es.len() ==> entry_cell(#[trigger] es[i]) != entry_cell(#[trigger] es[j])
}

/// The costs never decrease along the entries, and they span at most one step from the entry
/// `head` on.
#[verifier::opaque]
pub open spec fn breadth_first(es: Seq<SearchEntry>, head: int) -> bool {
    &&& forall|i: int, j: int| 0 <= i <= j < es.len() ==> (#[trigger] es[i]).cost <= (#[trigger] es[j]).cost
    &&& forall|j: int| 0 <= j < es.len() ==> (#[trigger] es[j]).cost <= j
    &&& head < es.len() ==> es[es.len() - 1].cost <= es[head].cost + 1
}

/// The closed maps hold, for each level, the key of each cell reached, mapped to its entry.
#[verifier::opaque]
pub open spec fn closed_matches(closed: Seq<HashMap<i64, usize>>, es: Seq<SearchEntry>) -> bool {
    &&& forall|j: int| 0 <= j < es.len() ==> {
        let e = #[trigger] es[j];
        &&& e.level < closed.len()
        &&& closed[e.level as int]@.contains_key(cell_key(e.idx[0] as int, e.idx[1] as int) as i64)
        &&& closed[e.level as int]@[cell_key(e.idx[0] as int, e.idx[1] as int) as i64] == j
    }
    &&& forall|l: int, k: i64| 0 <= l < closed.len() && #[trigger] closed[l]@.contains_key(k) ==> {
        let j = closed[l]@[k] as int;
        &&& 0 <= j < es.len()
        &&& es[j].level == l
        &&& cell_key(es[j].idx[0] as int, es[j].idx[1] as int) as i64 == k
    }
}

/// The cells present in the first `n` levels of the tree.
pub open spec fn present_cells(levels: Seq<HashMap<i64, CellState>>, n: int) -> Set<(int, i64)> {
    Set::new(|p: (int, i64)| 0 <= p.0 < n && p.0 < levels.len() && levels[p.0]@.contains_key(p.1))
}

proof fn lemma_present_cells_finite(levels: Seq<HashMap<i64, CellState>>, n: int)
    ensures
        present_cells(levels, n).finite(),
    decreases n,
{
    if n <= 0 {
        assert(present_cells(levels, n) =~= Set::empty());
    } else {
        lemma_present_cells_finite(levels, n - 1);
        if n - 1 < levels.len() {
            let dom = levels[n - 1]@.dom();
            let f = |k: i64| (n - 1, k);
            dom.lemma_map_finite(f);
            assert(present_cells(levels, n) =~= present_cells(levels, n - 1).union(dom.map(f))) by {
                assert forall|p: (int, i64)| present_cells(levels, n).contains(p) implies
                    present_cells(levels, n - 1).union(dom.map(f)).contains(p) by {
                    if p.0 == n - 1 {
                        assert(f(p.1) == p);
                    }
                }
            }
        } else {
            assert(present_cells(levels, n) =~= present_cells(levels, n - 1));
        }
    }
}

/// The cells that the closed maps hold.
pub open spec fn closed_cells(closed: Seq<HashMap<i64, usize>>) -> Set<(int, i64)> {
    Set::new(|p: (int, i64)| 0 <= p.0 < closed.len() && closed[p.0]@.contains_key(p.1))
}

/// An index that lies in its level.
pub open spec fn in_level(level: int, idx: [i32; 2]) -> bool {
    0 <= idx[0] < pow2(level as nat) && 0 <= idx[1] < pow2(level as nat)
}

/// The goal is met while expanding the entry `e`.
pub open spec fn goal_met(t: &QTree, goal: SearchGoal, e: SearchEntry) -> bool {
    match goal {
        SearchGoal::Cell(g) => t.neighbors_spec(e.level as int, e.idx).contains(g),
        SearchGoal::Cost(d) => d <= e.cost && t.neighbors_spec(e.level as int, e.idx).len() > 0,
    }
}

/// The neighbor `n` of an expanded entry was looked at: it is not the goal cell, and it was
/// reached when it is a passable cell of the tree.
pub open spec fn neighbor_seen<F: Fn(usize) -> bool>(t: &QTree, ignore: &F, goal: SearchGoal, es: Seq<SearchEntry>, n: QTreeIdx) -> bool {
    &&& (goal matches SearchGoal::Cell(g) ==> n != g)
    &&& (passable_cell(t, ignore, n)
        ==> exists|i: int| 0 <= i < es.len() && entry_cell(#[trigger] es[i]) == n)
}

/// The entry `e` was expanded without meeting the goal.
pub open spec fn expanded<F: Fn(usize) -> bool>(t: &QTree, ignore: &F, goal: SearchGoal, es: Seq<SearchEntry>, e: SearchEntry) -> bool {
    in_level(e.level as int, e.idx) ==> {
        &&& (goal matches SearchGoal::Cost(d) ==> (t.neighbors_spec(e.level as int, e.idx).len() > 0 ==> e.cost < d))
        &&& forall|k: int| 0 <= k < t.neighbors_spec(e.level as int, e.idx).len() ==>
            neighbor_seen(t, ignore, goal, es, #[trigger] t.neighbors_spec(e.level as int, e.idx)[k])
    }
}

/// What a search keeps true between the expansions of its entries.
pub open spec fn search_inv<F: Fn(usize) -> bool>(
    t: &QTree, ignore: &F, start: QTreeIdx, es: Seq<SearchEntry>, closed: Seq<HashMap<i64, usize>>,
    head: int, universe: Set<(int, i64)>,
) -> bool {
    &&& closed.len() == t.levels.len()
    &&& universe == present_cells(t.levels@, closed.len() as int)
    &&& universe.finite()
    &&& 0 <= head <= es.len()
    &&& search_tree_valid(t, ignore, start, es)
    &&& breadth_first(es, head)
    &&& closed_matches(closed, es)
    &&& closed_cells(closed).subset_of(universe)
    &&& closed_cells(closed).finite()
    &&& closed_cells(closed).len() == es.len()
}

proof fn lemma_entry_facts(closed: Seq<HashMap<i64, usize>>, es: Seq<SearchEntry>, head: int, j: int)
    requires
        closed_matches(closed, es),
        breadth_first(es, head),
        0 <= j < es.len(),
    ensures
        es[j].level < closed.len(),
        es[j].cost <= j,
        es[j].cost <= es[es.len() - 1].cost,
        0 <= head <= j ==> es[head].cost <= es[j].cost,
{
    reveal(closed_matches);
    reveal(breadth_first);
    assert(es[j] == es[j]);
}

proof fn lemma_known_cell(closed: Seq<HashMap<i64, usize>>, es: Seq<SearchEntry>, l: int, key: i64)
    requires
        closed_matches(closed, es),
        0 <= l < closed.len(),
        closed[l]@.contains_key(key),
    ensures
        closed[l]@[key] < es.len(),
        es[closed[l]@[key] as int].level == l,
        cell_key(es[closed[l]@[key] as int].idx[0] as int, es[closed[l]@[key] as int].idx[1] as int) as i64 == key,
{
    reveal(closed_matches);
}

proof fn lemma_entry_known(closed: Seq<HashMap<i64, usize>>, es: Seq<SearchEntry>, j: int)
    requires
        closed_matches(closed, es),
        0 <= j < es.len(),
    ensures
        es[j].level < closed.len(),
        closed[es[j].level as int]@.contains_key(cell_key(es[j].idx[0] as int, es[j].idx[1] as int) as i64),
{
    reveal(closed_matches);
    assert(es[j] == es[j]);
}

/// The step of one entry back along the search tree.
proof fn lemma_tree_step<F: Fn(usize) -> bool>(t: &QTree, ignore: &F, start: QTreeIdx, es: Seq<SearchEntry>, j: int)
    requires
        search_tree_valid(t, ignore, start, es),
        0 <= j < es.len(),
    ensures
        j == 0 <==> es[j].from is None,
        j == 0 ==> entry_cell(es[j]) == start && es[j].cost == 0,
        j > 0 ==> {
            let f = es[j].from->0 as int;
            &&& 0 <= f < j
            &&& es[j].cost == es[f].cost + 1
            &&& t.neighbors_spec(es[f].level as int, es[f].idx).contains(entry_cell(es[j]))
            &&& in_level(es[f].level as int, es[f].idx)
            &&& passable_cell(t, ignore, entry_cell(es[j]))
        },
{
    reveal(search_tree_valid);
    assert(es[j] == es[j]);
}

impl QTree {
    /// Looks at the neighbors of the entry `cur`, which is being expanded: stops when one meets
    /// the goal, and otherwise reaches each passable neighbor not reached yet.
    fn expand_entry<F: Fn(usize) -> bool>(
        &self,
        ignore: &F,
        goal: SearchGoal,
        entries: &mut Vec<SearchEntry>,
        closed: &mut Vec<HashMap<i64, usize>>,
        cur: usize,
        Ghost(start): Ghost<QTreeIdx>,
        Ghost(universe): Ghost<Set<(int, i64)>>,
    ) -> (met: bool)
        requires
            self.levels.len() <= 30,
            deterministic(ignore),
            search_inv(self, ignore, start, old(entries)@, old(closed)@, cur + 1, universe),
            cur < old(entries).len(),
            in_level(old(entries)@[cur as int].level as int, old(entries)@[cur as int].idx),
            old(entries)@[old(entries).len() - 1].cost <= old(entries)@[cur as int].cost + 1,
        ensures
            search_inv(self, ignore, start, final(entries)@, final(closed)@, cur + 1, universe),
            old(entries).len() <= final(entries).len(),
            forall|i: int| 0 <= i < old(entries).len() ==> final(entries)@[i] == old(entries)@[i],
            met ==> goal_met(self, goal, final(entries)@[cur as int]),
            !met ==> expanded(self, ignore, goal, final(entries)@, final(entries)@[cur as int]),
            forall|j: int| 0 <= j < cur && expanded(self, ignore, goal, old(entries)@, old(entries)@[j]) ==>
                expanded(self, ignore, goal, final(entries)@, #[trigger] final(entries)@[j]),
    {
        let state = entries[cur];
        let ghost es0 = entries@;
        proof {
            lemma_entry_facts(closed@, entries@, (cur + 1) as int, cur as int);
            vstd::arithmetic::power2::lemma2_to64();
        }
        let neighbors = self.find_neighbors(state.level, state.idx);
        let ghost nbs = self.neighbors_spec(state.level as int, state.idx);
        let mut k: usize = 0;
        while k < neighbors.len()
            invariant
                self.levels.len() <= 30,
                deterministic(ignore),
                search_inv(self, ignore, start, entries@, closed@, cur + 1, universe),
                cur < es0.len(),
                es0 == old(entries)@,
                es0.len() <= entries.len(),
                forall|i: int| 0 <= i < es0.len() ==> entries@[i] == es0[i],
                state == es0[cur as int],
                in_level(state.level as int, state.idx),
                neighbors@ == nbs,
                nbs == self.neighbors_spec(state.level as int, state.idx),
                k <= neighbors.len(),
                entries@[entries.len() - 1].cost <= state.cost + 1,
                state.cost < usize::MAX,
                k > 0 ==> (goal matches SearchGoal::Cost(d) ==> state.cost < d),
                forall|kk: int| 0 <= kk < k ==> neighbor_seen(self, ignore, goal, entries@, #[trigger] nbs[kk]),
            decreases neighbors.len() - k,
        {
            let (nei_level, nei_idx) = neighbors[k];
            let met = match goal {
                SearchGoal::Cell(g) => g.0 == nei_level && g.1[0] == nei_idx[0] && g.1[1] == nei_idx[1],
                SearchGoal::Cost(d) => d <= state.cost,
            };
            if met {
                proof {
                    assert(nbs[k as int] == (nei_level, nei_idx));
                    if let SearchGoal::Cell(g) = goal {
                        assert(g.1 =~= nei_idx);
                    }
                    assert(nbs.contains((nei_level, nei_idx)));
                    assert forall|j: int| 0 <= j < cur && expanded(self, ignore, goal, es0, es0[j]) implies
                        expanded(self, ignore, goal, entries@, #[trigger] entries@[j]) by {
                        lemma_expanded_grow(self, ignore, goal, es0, entries@, es0[j]);
                    }
                }
                return true;
            }
            let new_cost = state.cost + 1;
            let cell = if nei_level < self.levels.len() {
                match self.levels[nei_level].get(&key_of(nei_idx)) {
                    Some(c) => Some(*c),
                    None => None,
                }
            } else {
                None
            };
            let ghost es_before = entries@;
            let ghost closed_start = closed@;
            if let Some(cell) = cell {
                if !blocked(cell, ignore) {
                    let key = key_of(nei_idx);
                    let skip = match closed[nei_level].get(&key) {
                        Some(j) => {
                            proof {
                                lemma_known_cell(closed@, entries@, nei_level as int, key);
                            }
                            entries[*j].cost <= new_cost
                        },
                        None => false,
                    };
                    if !skip {
                        proof {
                            if closed@[nei_level as int]@.contains_key(key) {
                                let j = closed@[nei_level as int]@[key] as int;
                                lemma_known_cell(closed@, entries@, nei_level as int, key);
                                lemma_entry_facts(closed@, entries@, (cur + 1) as int, j);
                            }
                            assert forall|i: int| 0 <= i < entries.len() implies entry_cell(#[trigger] entries@[i]) != (nei_level, nei_idx) by {
                                if entry_cell(entries@[i]) == (nei_level, nei_idx) {
                                    lemma_entry_known(closed@, entries@, i);
                                }
                            }
                            assert(self.cell(nei_level as int, nei_idx[0] as int, nei_idx[1] as int) == Some(cell));
                            assert(nbs[k as int] == (nei_level, nei_idx));
                        }
                        let ghost closed_before = closed@;
                        entries.push(SearchEntry { level: nei_level, idx: nei_idx, cost: new_cost, from: Some(cur) });
                        closed[nei_level].insert(key, entries.len() - 1);
                        proof {
                            let e = entries@[entries.len() - 1];
                            lemma_push_tree(self, ignore, start, es_before, entries@, nei_level, nei_idx, cur as int);
                            lemma_push_breadth_first(es_before, entries@, e, cur as int);
                            assert(universe.contains((nei_level as int, key)));
                            lemma_push_closed(es_before, entries@, closed_before, closed@, nei_level, nei_idx, key, e, universe);
                        }
                    }
                }
            }
            proof {
                lemma_seen_grow(self, ignore, goal, es_before, entries@, 0, nbs, k as int);
                let n = (nei_level, nei_idx);
                assert(nbs[k as int] == n);
                if let SearchGoal::Cell(g) = goal {
                    if n == g {
                        assert(g.1[0] == nei_idx[0] && g.1[1] == nei_idx[1]);
                    }
                }
                if let Some(st) = self.cell(nei_level as int, nei_idx[0] as int, nei_idx[1] as int) {
                    if passable(st, ignore) {
                        assert(cell == Some(st));
                        let kk = cell_key(nei_idx[0] as int, nei_idx[1] as int) as i64;
                        assert(closed@[nei_level as int]@.contains_key(kk)) by {
                            if !closed_start[nei_level as int]@.contains_key(kk) {
                                assert(entries.len() == es_before.len() + 1);
                            }
                        }
                        lemma_known_cell(closed@, entries@, nei_level as int, kk);
                        let j = closed@[nei_level as int]@[kk] as int;
                        lemma_cell_key_fits(entries@[j].idx[0], entries@[j].idx[1]);
                        lemma_cell_key_fits(nei_idx[0], nei_idx[1]);
                        lemma_cell_key_injective(entries@[j].idx[0] as int, entries@[j].idx[1] as int, nei_idx[0] as int, nei_idx[1] as int);
                        assert(entries@[j].idx =~= nei_idx);
                        assert(entry_cell(entries@[j]) == n);
                    }
                }
                assert(neighbor_seen(self, ignore, goal, entries@, nbs[k as int]));
            }
            k += 1;
        }
        proof {
            assert forall|j: int| 0 <= j < cur && expanded(self, ignore, goal, es0, es0[j]) implies
                expanded(self, ignore, goal, entries@, #[trigger] entries@[j]) by {
                lemma_expanded_grow(self, ignore, goal, es0, entries@, es0[j]);
            }
            lemma_expanded_grow(self, ignore, goal, entries@, entries@, entries@[cur as int]);
        }
        false
    }

    /// Explore the quad tree structure from given start index. `goal` will give a condition to
    /// terminate the search. The cells are expanded in the order reached, which is the order
    /// of their costs.
    pub fn explore<F: Fn(usize) -> bool>(&self, ignore: &F, start: QTreeIdx, goal: SearchGoal) -> (res: SearchOutcome)
        requires
            self.levels.len() <= 30,
            deterministic(ignore),
            start.0 < self.levels.len(),
            self.cell(start.0 as int, start.1[0] as int, start.1[1] as int) is Some,
        ensures
            search_tree_valid(self, ignore, start, res.entries@),
            breadth_first(res.entries@, res.entries.len() as int),
            match res.stopped_at {
                Some(c) => {
                    &&& c < res.entries.len()
                    &&& goal_met(self, goal, res.entries@[c as int])
                    &&& in_level(res.entries@[c as int].level as int, res.entries@[c as int].idx)
                    &&& forall|j: int| 0 <= j < c ==> expanded(self, ignore, goal, res.entries@, #[trigger] res.entries@[j])
                },
                None => forall|j: int| 0 <= j < res.entries.len() ==>
                    expanded(self, ignore, goal, res.entries@, #[trigger] res.entries@[j]),
            },
    {
        let nlevels = self.levels.len();
        let mut closed: Vec<HashMap<i64, usize>> = Vec::new();
        while closed.len() < nlevels
            invariant
                closed.len() <= nlevels,
                forall|l: int| 0 <= l < closed.len() ==> (#[trigger] closed@[l])@ == Map::<i64, usize>::empty(),
            decreases nlevels - closed.len(),
        {
            closed.push(HashMap::new());
        }
        let mut entries: Vec<SearchEntry> = Vec::new();
        entries.push(SearchEntry { level: start.0, idx: start.1, cost: 0, from: None });
        let ghost before = closed@;
        let start_key = key_of(start.1);
        closed[start.0].insert(start_key, 0);
        let ghost universe = present_cells(self.levels@, nlevels as int);
        proof {
            lemma_present_cells_finite(self.levels@, nlevels as int);
            reveal(search_tree_valid);
            reveal(breadth_first);
            reveal(closed_matches);
            assert forall|l: int, k: i64| 0 <= l < closed.len() && #[trigger] closed@[l]@.contains_key(k) implies {
                let j = closed@[l]@[k] as int;
                &&& 0 <= j < entries.len()
                &&& entries@[j].level == l
                &&& cell_key(entries@[j].idx[0] as int, entries@[j].idx[1] as int) as i64 == k
            } by {
                if l != start.0 {
                    assert(closed@[l] == before[l]);
                }
            }
            assert(closed_cells(closed@) =~= set![(start.0 as int, start_key)]) by {
                assert forall|p: (int, i64)| #[trigger] closed_cells(closed@).contains(p) implies p == (start.0 as int, start_key) by {
                    if p.0 != start.0 {
                        assert(closed@[p.0] == before[p.0]);
                    }
                }
            }
            assert(closed_cells(closed@).subset_of(universe));
        }
        let mut head: usize = 0;
        while head < entries.len()
            invariant
                self.levels.len() <= 30,
                deterministic(ignore),
                search_inv(self, ignore, start, entries@, closed@, head as int, universe),
                forall|j: int| 0 <= j < head ==> expanded(self, ignore, goal, entries@, #[trigger] entries@[j]),
            decreases universe.len() - entries.len(), entries.len() - head,
        {
            let state = entries[head];
            let cur = head;
            let ghost es_pop = entries@;
            proof {
                vstd::set_lib::lemma_len_subset(closed_cells(closed@), universe);
                lemma_entry_facts(closed@, entries@, head as int, cur as int);
                reveal(breadth_first);
            }
            if state.idx[0] >= 0 && state.idx[1] >= 0 && state.level < 30
                && (state.idx[0] as u64) < (1u64 << (state.level as u64))
                && (state.idx[1] as u64) < (1u64 << (state.level as u64))
            {
                proof {
                    vstd::arithmetic::power2::lemma2_to64();
                    vstd::arithmetic::power2::lemma_pow2_strictly_increases(state.level as nat, 30);
                    vstd::bits::lemma_u64_shl_is_mul(1, state.level as u64);
                    assert(breadth_first(entries@, (cur + 1) as int));
                }
                let met = self.expand_entry(ignore, goal, &mut entries, &mut closed, cur, Ghost(start), Ghost(universe));
                if met {
                    proof {
                        assert(entries@[cur as int] == state);
                        assert forall|j: int| 0 <= j < cur implies expanded(self, ignore, goal, entries@, #[trigger] entries@[j]) by {
                            assert(expanded(self, ignore, goal, es_pop, es_pop[j]));
                        }
                        lemma_breadth_first_all(entries@, (cur + 1) as int);
                    }
                    return SearchOutcome { entries, stopped_at: Some(cur) };
                }
            } else {
                proof {
                    assert(!in_level(state.level as int, state.idx)) by {
                        vstd::arithmetic::power2::lemma2_to64();
                        vstd::arithmetic::power2::lemma_pow2_strictly_increases(state.level as nat, 30);
                        vstd::bits::lemma_u64_shl_is_mul(1, state.level as u64);
                    }
                    assert(breadth_first(entries@, (cur + 1) as int));
                    lemma_seen_grow(self, ignore, goal, entries@, entries@, cur as int, Seq::empty(), 0);
                }
            }
            head += 1;
            proof {
                assert forall|j: int| 0 <= j < head implies expanded(self, ignore, goal, entries@, #[trigger] entries@[j]) by {
                    if j < cur {
                        assert(entries@[j] == es_pop[j]);
                    }
                }
                vstd::set_lib::lemma_len_subset(closed_cells(closed@), universe);
            }
        }
        proof {
            lemma_breadth_first_all(entries@, head as int);
        }
        SearchOutcome { entries, stopped_at: None }
    }
}


/// The order of the costs holds whatever entry is taken as the head.
proof fn lemma_breadth_first_all(es: Seq<SearchEntry>, head: int)
    requires
        breadth_first(es, head),
    ensures
        breadth_first(es, es.len() as int),
{
    reveal(breadth_first);
}

/// The key of a cell with `i32` coordinates fits in `i64`.
proof fn lemma_cell_key_fits(x: i32, y: i32)
    ensures
        cell_key(x as int, y as int) as i64 == cell_key(x as int, y as int),
{
    assert(i64::MIN <= cell_key(x as int, y as int) <= i64::MAX);
}

/// Appending entries keeps an expanded entry expanded.
proof fn lemma_expanded_grow<F: Fn(usize) -> bool>(
    t: &QTree, ignore: &F, goal: SearchGoal, es: Seq<SearchEntry>, es2: Seq<SearchEntry>, e: SearchEntry,
)
    requires
        es.len() <= es2.len(),
        forall|i: int| 0 <= i < es.len() ==> es2[i] == es[i],
        expanded(t, ignore, goal, es, e),
    ensures
        expanded(t, ignore, goal, es2, e),
{
    if in_level(e.level as int, e.idx) {
        assert forall|kk: int| 0 <= kk < t.neighbors_spec(e.level as int, e.idx).len() implies
            neighbor_seen(t, ignore, goal, es2, #[trigger] t.neighbors_spec(e.level as int, e.idx)[kk]) by {
            let n = t.neighbors_spec(e.level as int, e.idx)[kk];
            assert(neighbor_seen(t, ignore, goal, es, n));
            if passable_cell(t, ignore, n) {
                let i = choose|i: int| 0 <= i < es.len() && entry_cell(#[trigger] es[i]) == n;
                assert(entry_cell(es2[i]) == n);
            }
        }
    }
}

/// Appending entries keeps what was seen of the expanded entries.
proof fn lemma_seen_grow<F: Fn(usize) -> bool>(
    t: &QTree, ignore: &F, goal: SearchGoal, es: Seq<SearchEntry>, es2: Seq<SearchEntry>,
    cur: int, nbs: Seq<QTreeIdx>, k: int,
)
    requires
        es.len() <= es2.len(),
        forall|i: int| 0 <= i < es.len() ==> es2[i] == es[i],
        0 <= cur <= es.len(),
        forall|j: int| 0 <= j < cur ==> expanded(t, ignore, goal, es, #[trigger] es[j]),
        forall|kk: int| 0 <= kk < k ==> neighbor_seen(t, ignore, goal, es, #[trigger] nbs[kk]),
    ensures
        forall|j: int| 0 <= j < cur ==> expanded(t, ignore, goal, es2, #[trigger] es2[j]),
        forall|kk: int| 0 <= kk < k ==> neighbor_seen(t, ignore, goal, es2, #[trigger] nbs[kk]),
{
    assert forall|n: QTreeIdx| #[trigger] neighbor_seen(t, ignore, goal, es, n) implies neighbor_seen(t, ignore, goal, es2, n) by {
        if passable_cell(t, ignore, n) {
            let i = choose|i: int| 0 <= i < es.len() && entry_cell(#[trigger] es[i]) == n;
            assert(entry_cell(es2[i]) == n);
        }
    }
    assert forall|j: int| 0 <= j < cur implies expanded(t, ignore, goal, es2, #[trigger] es2[j]) by {
        assert(es2[j] == es[j]);
        let e = es[j];
        if in_level(e.level as int, e.idx) {
            assert forall|kk: int| 0 <= kk < t.neighbors_spec(e.level as int, e.idx).len() implies
                neighbor_seen(t, ignore, goal, es2, #[trigger] t.neighbors_spec(e.level as int, e.idx)[kk]) by {
                assert(neighbor_seen(t, ignore, goal, es, t.neighbors_spec(e.level as int, e.idx)[kk]));
            }
        }
    }
}

/// Reaching a new passable neighbor of the entry being expanded keeps the search tree valid.
proof fn lemma_push_tree<F: Fn(usize) -> bool>(
    t: &QTree, ignore: &F, start: QTreeIdx, es: Seq<SearchEntry>, es2: Seq<SearchEntry>,
    l: usize, idx: [i32; 2], cur: int,
)
    requires
        search_tree_valid(t, ignore, start, es),
        0 <= cur < es.len() <= usize::MAX,
        es[cur].cost + 1 <= usize::MAX,
        t.neighbors_spec(es[cur].level as int, es[cur].idx).contains((l, idx)),
        in_level(es[cur].level as int, es[cur].idx),
        passable_cell(t, ignore, (l, idx)),
        forall|i: int| 0 <= i < es.len() ==> entry_cell(#[trigger] es[i]) != (l, idx),
        es2 == es.push(SearchEntry { level: l, idx, cost: (es[cur].cost + 1) as usize, from: Some(cur as usize) }),
    ensures
        search_tree_valid(t, ignore, start, es2),
{
    reveal(search_tree_valid);
    let n = es.len() as int;
    assert forall|j: int| 0 < j < es2.len() implies {
        let e = #[trigger] es2[j];
        &&& e.from matches Some(f) && f < j
        &&& e.cost == es2[e.from->0 as int].cost + 1
        &&& t.neighbors_spec(es2[e.from->0 as int].level as int, es2[e.from->0 as int].idx).contains(entry_cell(e))
        &&& in_level(es2[e.from->0 as int].level as int, es2[e.from->0 as int].idx)
        &&& passable_cell(t, ignore, entry_cell(e))
    } by {
        if j < n {
            assert(es2[j] == es[j]);
            assert(es2[es[j].from->0 as int] == es[es[j].from->0 as int]);
        } else {
            assert(es2[cur] == es[cur]);
        }
    }
    assert forall|i: int, j: int| 0 <= i < j < es2.len() implies entry_cell(#[trigger] es2[i]) != entry_cell(#[trigger] es2[j]) by {
        if j < n {
            assert(es2[i] == es[i] && es2[j] == es[j]);
        } else {
            assert(es2[i] == es[i]);
        }
    }
}

/// Reaching a neighbor of the entry being expanded, one step costlier, keeps the costs in
/// breadth-first order.
proof fn lemma_push_breadth_first(es: Seq<SearchEntry>, es2: Seq<SearchEntry>, e: SearchEntry, cur: int)
    requires
        breadth_first(es, cur + 1),
        0 <= cur < es.len(),
        es[es.len() - 1].cost <= es[cur].cost + 1,
        e.cost == es[cur].cost + 1,
        es2 == es.push(e),
    ensures
        breadth_first(es2, cur + 1),
        es2[es2.len() - 1].cost <= es2[cur].cost + 1,
{
    reveal(breadth_first);
    let n = es.len() as int;
    let head = cur + 1;
    assert(es2[cur] == es[cur]);
    assert forall|i: int, j: int| 0 <= i <= j < es2.len() implies (#[trigger] es2[i]).cost <= (#[trigger] es2[j]).cost by {
        if j < n {
            assert(es2[i] == es[i] && es2[j] == es[j]);
        } else if i < n {
            assert(es2[i] == es[i]);
            assert(es[i].cost <= es[cur].cost || es[i].cost <= es[n - 1].cost);
            if i <= cur {
                assert(es[i].cost <= es[cur].cost);
            } else {
                assert(es[i].cost <= es[n - 1].cost);
            }
        }
    }
    assert forall|j: int| 0 <= j < es2.len() implies (#[trigger] es2[j]).cost <= j by {
        if j < n {
            assert(es2[j] == es[j]);
        } else {
            assert(es[cur].cost <= cur);
        }
    }
    if head < es2.len() {
        if head < n {
            assert(es[cur].cost <= es[head].cost);
            assert(es2[head] == es[head]);
        }
    }
}

/// Recording a new cell in the closed maps keeps them matching the entries, and the count of
/// closed cells equal to the count of entries.
proof fn lemma_push_closed(
    es: Seq<SearchEntry>, es2: Seq<SearchEntry>,
    closed: Seq<HashMap<i64, usize>>, closed2: Seq<HashMap<i64, usize>>,
    l: usize, idx: [i32; 2], key: i64, e: SearchEntry, universe: Set<(int, i64)>,
)
    requires
        closed_matches(closed, es),
        closed_cells(closed).subset_of(universe),
        closed_cells(closed).finite(),
        closed_cells(closed).len() == es.len(),
        universe.contains((l as int, key)),
        es.len() < usize::MAX,
        l < closed.len(),
        key == cell_key(idx[0] as int, idx[1] as int) as i64,
        forall|i: int| 0 <= i < es.len() ==> entry_cell(#[trigger] es[i]) != (l, idx),
        e.level == l,
        e.idx == idx,
        es2 == es.push(e),
        closed2.len() == closed.len(),
        closed2[l as int]@ == closed[l as int]@.insert(key, es.len() as usize),
        forall|l2: int| 0 <= l2 < closed.len() && l2 != l ==> closed2[l2] == closed[l2],
    ensures
        closed_matches(closed2, es2),
        closed_cells(closed2).subset_of(universe),
        closed_cells(closed2).finite(),
        closed_cells(closed2).len() == es2.len(),
{
    reveal(closed_matches);
    let n = es.len() as int;
    assert(!closed[l as int]@.contains_key(key)) by {
        if closed[l as int]@.contains_key(key) {
            let j = closed[l as int]@[key] as int;
            lemma_cell_key_fits(es[j].idx[0], es[j].idx[1]);
            lemma_cell_key_fits(idx[0], idx[1]);
            lemma_cell_key_injective(es[j].idx[0] as int, es[j].idx[1] as int, idx[0] as int, idx[1] as int);
            assert(es[j].idx =~= idx);
            assert(entry_cell(es[j]) == (l, idx));
        }
    }
    assert forall|j: int| 0 <= j < es2.len() implies {
        let e = #[trigger] es2[j];
        &&& e.level < closed2.len()
        &&& closed2[e.level as int]@.contains_key(cell_key(e.idx[0] as int, e.idx[1] as int) as i64)
        &&& closed2[e.level as int]@[cell_key(e.idx[0] as int, e.idx[1] as int) as i64] == j
    } by {
        if j < n {
            let ej = es[j];
            assert(es2[j] == ej);
            let kj = cell_key(ej.idx[0] as int, ej.idx[1] as int) as i64;
            if ej.level == l && kj == key {
                lemma_cell_key_fits(ej.idx[0], ej.idx[1]);
                lemma_cell_key_fits(idx[0], idx[1]);
                lemma_cell_key_injective(ej.idx[0] as int, ej.idx[1] as int, idx[0] as int, idx[1] as int);
                assert(ej.idx =~= idx);
                assert(entry_cell(es[j]) == (l, idx));
            }
        }
    }
    assert forall|l2: int, k: i64| 0 <= l2 < closed2.len() && #[trigger] closed2[l2]@.contains_key(k) implies {
        let j = closed2[l2]@[k] as int;
        &&& 0 <= j < es2.len()
        &&& es2[j].level == l2
        &&& cell_key(es2[j].idx[0] as int, es2[j].idx[1] as int) as i64 == k
    } by {
        if l2 == l && k == key {
        } else {
            assert(closed[l2]@.contains_key(k));
            let j = closed[l2]@[k] as int;
            assert(closed2[l2]@[k] == closed[l2]@[k]);
            assert(es2[j] == es[j]);
        }
    }
    assert(closed_cells(closed2) =~= closed_cells(closed).insert((l as int, key))) by {
        assert forall|p: (int, i64)| #[trigger] closed_cells(closed2).contains(p) <==> closed_cells(closed).insert((l as int, key)).contains(p) by {
            if 0 <= p.0 < closed.len() && p.0 != l {
                assert(closed2[p.0] == closed[p.0]);
            }
        }
    }
    assert(!closed_cells(closed).contains((l as int, key)));
}

/// Why a path could not be found.
#[derive(Clone, Copy, Debug, PartialEq, Eq, Structural)]
pub enum PathFindError {
    StartBlocked,
    GoalBlocked,
    SearchFailed,
}

impl PathFindError {
    /// The name of the error, as it is shown to the user.
    pub fn message(&self) -> (s: String)
        ensures
            s@ == match self {
                PathFindError::StartBlocked => "StartBlocked"@,
                PathFindError::GoalBlocked => "GoalBlocked"@,
                PathFindError::SearchFailed => "SearchFailed"@,
            },
    {
        match self {
            PathFindError::StartBlocked => String::from_str("StartBlocked"),
            PathFindError::GoalBlocked => String::from_str("GoalBlocked"),
            PathFindError::SearchFailed => String::from_str("SearchFailed"),
        }
    }
}

/// The edges that a search followed: edge `i` joins the nodes `2 i` and `2 i + 1`, the cell
/// expanded and the cell it reached.
pub struct SearchTree {
    pub nodes: Vec<QTreeIdx>,
    pub edges: Vec<[usize; 2]>,
}

impl SearchTree {
    pub fn new() -> (res: Self)
        ensures
            res.nodes.len() == 0,
            res.edges.len() == 0,
    {
        SearchTree { nodes: Vec::new(), edges: Vec::new() }
    }

    pub fn get_nodes(&self) -> (res: &[QTreeIdx])
        ensures
            res@ == self.nodes@,
    {
        self.nodes.as_slice()
    }

    pub fn get_edges(&self) -> (res: &[[usize; 2]])
        ensures
            res@ == self.edges@,
    {
        self.edges.as_slice()
    }
}

/// Every edge of `tree` joins a cell to a passable neighbor of it, the edges laid out as
/// `SearchTree` says.
pub open spec fn tree_valid<F: Fn(usize) -> bool>(t: &QTree, ignore: &F, tree: &SearchTree) -> bool {
    &&& tree.nodes.len() == 2 * tree.edges.len()
    &&& forall|i: int| 0 <= i < tree.edges.len() ==> {
        &&& (#[trigger] tree.edges@[i])[0] == 2 * i
        &&& tree.edges@[i][1] == 2 * i + 1
        &&& t.neighbors_spec(tree.nodes@[2 * i].0 as int, tree.nodes@[2 * i].1).contains(tree.nodes@[2 * i + 1])
        &&& passable_cell(t, ignore, tree.nodes@[2 * i + 1])
    }
}

/// The search that built `tree` from `start` reached the cell `c`.
pub open spec fn tree_reaches(tree: &SearchTree, start: QTreeIdx, c: QTreeIdx) -> bool {
    c == start || exists|i: int| 0 <= i < tree.nodes.len() && tree.nodes@[i] == c
}

/// The search that built `tree` from `start` looked at every neighbor of every cell it
/// reached, found `goal` among none of them, and reached every passable one: no path of
/// passable neighbors leads from `start` to a neighbor of `goal`'s.
pub open spec fn search_exhausted<F: Fn(usize) -> bool>(t: &QTree, ignore: &F, tree: &SearchTree, start: QTreeIdx, goal: QTreeIdx) -> bool {
    forall|c: QTreeIdx| #[trigger] tree_reaches(tree, start, c) && in_level(c.0 as int, c.1) ==>
        forall|k: int| 0 <= k < t.neighbors_spec(c.0 as int, c.1).len() ==> {
            let n = #[trigger] t.neighbors_spec(c.0 as int, c.1)[k];
            &&& n != goal
            &&& (passable_cell(t, ignore, n) ==> tree_reaches(tree, start, n))
        }
}

/// The cell of `level` that holds the bottom-level position `pos`.
pub open spec fn cell_at(t: &QTree, pos: [i32; 2], level: int) -> QTreeIdx {
    (level as usize, [t.cell_of(pos, level).0 as i32, t.cell_of(pos, level).1 as i32])
}

/// The uniform cell that holds the bottom-level position `pos`, when the search may pass
/// through it.
pub open spec fn located<F: Fn(usize) -> bool>(t: &QTree, ignore: &F, pos: [i32; 2]) -> Option<QTreeIdx> {
    match t.lookup(pos) {
        Some((l, st)) => if passable(st, ignore) { Some(cell_at(t, pos, l as int)) } else { None },
        None => None,
    }
}

/// `path` leads back from `goal` to `start`: it ends at `start`, each cell is a passable
/// neighbor of the cell after it and touches it along an edge, no cell occurs twice, and it
/// begins at `goal` or at a neighbor of it that touches it.
pub open spec fn is_path<F: Fn(usize) -> bool>(t: &QTree, ignore: &F, path: Seq<QTreeIdx>, start: QTreeIdx, goal: QTreeIdx) -> bool {
    &&& path.len() >= 1
    &&& path[path.len() - 1] == start
    &&& path[0] == goal || (t.neighbors_spec(path[0].0 as int, path[0].1).contains(goal) && touches(path[0], goal))
    &&& forall|i: int| 0 <= i < path.len() - 1 ==> t.neighbors_spec(path[i + 1].0 as int, path[i + 1].1).contains(#[trigger] path[i])
    &&& forall|i: int| 0 <= i < path.len() - 1 ==> touches(path[i + 1], #[trigger] path[i])
    &&& forall|i: int| 0 <= i < path.len() ==>
        passable_cell(t, ignore, #[trigger] path[i])
    &&& forall|i: int, j: int| 0 <= i < j < path.len() ==> #[trigger] path[i] != #[trigger] path[j]
}

/// The tree that follows the entries of a search: entry `j` after the first gives the edge
/// `j - 1`, from the cell it was reached from to its own cell.
pub open spec fn tree_of_entries(tree: &SearchTree, es: Seq<SearchEntry>) -> bool {
    &&& tree.nodes.len() == 2 * (es.len() - 1)
    &&& tree.edges.len() == es.len() - 1
    &&& forall|j: int| 0 < j < es.len() ==> {
        &&& tree.nodes@[2 * j - 1] == entry_cell(#[trigger] es[j])
        &&& tree.nodes@[2 * j - 2] == entry_cell(es[es[j].from->0 as int])
        &&& tree.edges@[j - 1] == [(2 * j - 2) as usize, (2 * j - 1) as usize]
    }
}

/// Builds the tree of the edges that a search followed.
fn build_search_tree(entries: &Vec<SearchEntry>) -> (tree: SearchTree)
    requires
        entries.len() >= 1,
        forall|j: int| 0 < j < entries.len() ==> ((#[trigger] entries@[j]).from matches Some(f) && f < j),
    ensures
        tree_of_entries(&tree, entries@),
{
    let mut tree = SearchTree::new();
    let mut j: usize = 1;
    while j < entries.len()
        invariant
            1 <= j <= entries.len(),
            forall|i: int| 0 < i < entries.len() ==> ((#[trigger] entries@[i]).from matches Some(f) && f < i),
            tree.nodes.len() == 2 * (j - 1),
            tree.edges.len() == j - 1,
            forall|i: int| 0 < i < j ==> {
                &&& tree.nodes@[2 * i - 1] == entry_cell(#[trigger] entries@[i])
                &&& tree.nodes@[2 * i - 2] == entry_cell(entries@[entries@[i].from->0 as int])
                &&& tree.edges@[i - 1] == [(2 * i - 2) as usize, (2 * i - 1) as usize]
            },
        decreases entries.len() - j,
    {
        let e = entries[j];
        let f = match e.from {
            Some(f) => f,
            None => 0,
        };
        let from = entries[f];
        let a = tree.nodes.len();
        tree.nodes.push((from.level, from.idx));
        let b = tree.nodes.len();
        tree.nodes.push((e.level, e.idx));
        tree.edges.push([a, b]);
        proof {
            assert forall|i: int| 0 < i <= j implies {
                &&& tree.nodes@[2 * i - 1] == entry_cell(#[trigger] entries@[i])
                &&& tree.nodes@[2 * i - 2] == entry_cell(entries@[entries@[i].from->0 as int])
                &&& tree.edges@[i - 1] == [(2 * i - 2) as usize, (2 * i - 1) as usize]
            } by {
                if i == j {
                    assert(tree.edges@[i - 1] =~= [(2 * i - 2) as usize, (2 * i - 1) as usize]);
                }
            }
        }
        j += 1;
    }
    tree
}

/// The tree built from the entries of a valid search is valid.
proof fn lemma_tree_of_entries<F: Fn(usize) -> bool>(t: &QTree, ignore: &F, start: QTreeIdx, es: Seq<SearchEntry>, tree: &SearchTree)
    requires
        search_tree_valid(t, ignore, start, es),
        tree_of_entries(tree, es),
    ensures
        tree_valid(t, ignore, tree),
{
    assert forall|i: int| 0 <= i < tree.edges.len() implies {
        &&& (#[trigger] tree.edges@[i])[0] == 2 * i
        &&& tree.edges@[i][1] == 2 * i + 1
        &&& t.neighbors_spec(tree.nodes@[2 * i].0 as int, tree.nodes@[2 * i].1).contains(tree.nodes@[2 * i + 1])
        &&& passable_cell(t, ignore, tree.nodes@[2 * i + 1])
    } by {
        let j = i + 1;
        lemma_tree_step(t, ignore, start, es, j);
        let f = es[j].from->0 as int;
        assert(tree.nodes@[2 * j - 1] == entry_cell(es[j]));
        assert(tree.nodes@[2 * j - 2] == entry_cell(es[f]));
        assert(tree.edges@[j - 1] == [(2 * j - 2) as usize, (2 * j - 1) as usize]);
        assert(2 * j - 2 == 2 * i && 2 * j - 1 == 2 * i + 1);
    }
}

/// The tree built from the entries of a valid search reaches exactly the cells of the entries.
proof fn lemma_tree_reaches_entries<F: Fn(usize) -> bool>(t: &QTree, ignore: &F, start: QTreeIdx, es: Seq<SearchEntry>, tree: &SearchTree)
    requires
        search_tree_valid(t, ignore, start, es),
        tree_of_entries(tree, es),
    ensures
        forall|c: QTreeIdx| #[trigger] tree_reaches(tree, start, c) <==> exists|j: int| 0 <= j < es.len() && entry_cell(#[trigger] es[j]) == c,
{
    lemma_tree_step(t, ignore, start, es, 0);
    assert forall|c: QTreeIdx| #[trigger] tree_reaches(tree, start, c) implies exists|j: int| 0 <= j < es.len() && entry_cell(#[trigger] es[j]) == c by {
        if c == start {
            assert(entry_cell(es[0]) == c);
        } else {
            let i = choose|i: int| 0 <= i < tree.nodes.len() && tree.nodes@[i] == c;
            if i % 2 == 1 {
                let j = (i + 1) / 2;
                assert(tree.nodes@[2 * j - 1] == entry_cell(es[j]));
            } else {
                let j = (i + 2) / 2;
                lemma_tree_step(t, ignore, start, es, j);
                assert(tree.nodes@[2 * j - 2] == entry_cell(es[es[j].from->0 as int]));
                let f = es[j].from->0 as int;
                assert(entry_cell(es[f]) == c);
            }
        }
    }
    assert forall|c: QTreeIdx| (exists|j: int| 0 <= j < es.len() && entry_cell(#[trigger] es[j]) == c) implies #[trigger] tree_reaches(tree, start, c) by {
        let j = choose|j: int| 0 <= j < es.len() && entry_cell(#[trigger] es[j]) == c;
        if j > 0 {
            assert(tree.nodes@[2 * j - 1] == c);
        }
    }
}

/// What `path_find` gives for the positions `start` and `end`: the tree that the search
/// followed, and either a path that leads from a neighbor of the goal cell back to the start
/// cell, or the error that says why there is none.
pub open spec fn path_found<F: Fn(usize) -> bool>(t: &QTree, ignore: &F, start: [i32; 2], end: [i32; 2],
    res: (Result<Vec<QTreeIdx>, PathFindError>, SearchTree)) -> bool {
    &&& tree_valid(t, ignore, &res.1)
    &&& match res.0 {
        Err(PathFindError::StartBlocked) => t.lookup(start) is None,
        Err(PathFindError::GoalBlocked) => t.lookup(start) is Some
            && (located(t, ignore, start) is None || located(t, ignore, end) is None),
        Err(PathFindError::SearchFailed) => {
            &&& located(t, ignore, start) matches Some(s)
            &&& located(t, ignore, end) matches Some(g)
            &&& s != g
            &&& search_exhausted(t, ignore, &res.1, s, g)
        },
        Ok(path) => {
            &&& located(t, ignore, start) matches Some(s)
            &&& located(t, ignore, end) matches Some(g)
            &&& is_path(t, ignore, path@, s, g)
            &&& (s == g ==> path@ == seq![s])
            &&& tree_reaches(&res.1, s, path@[0])
        },
    }
}

impl QTree {
    /// Finds a path of passable cells from the cell holding the bottom-level position `start`
    /// to a neighbor of the cell holding `end`. The path runs from that neighbor back to the
    /// start cell; the tree holds the edges that the search followed.
    pub fn path_find<F: Fn(usize) -> bool>(&self, ignore: &F, start: [i32; 2], end: [i32; 2])
        -> (res: (Result<Vec<QTreeIdx>, PathFindError>, SearchTree))
        requires
            self.shallow(),
            self.levels.len() <= 30,
            deterministic(ignore),
        ensures
            path_found(self, ignore, start, end, res),
    {
        let start_found = match self.find_by_idx(start) {
            Some(f) => f,
            None => return (Err(PathFindError::StartBlocked), SearchTree::new()),
        };
        if blocked(start_found.1, ignore) {
            return (Err(PathFindError::GoalBlocked), SearchTree::new());
        }
        let end_found = match self.find_by_idx(end) {
            Some(f) => f,
            None => return (Err(PathFindError::GoalBlocked), SearchTree::new()),
        };
        if blocked(end_found.1, ignore) {
            return (Err(PathFindError::GoalBlocked), SearchTree::new());
        }
        let start_idx: QTreeIdx = (start_found.0, self.to_idx(start, start_found.0));
        let end_idx: QTreeIdx = (end_found.0, self.to_idx(end, end_found.0));
        proof {
            assert(start_idx.1 =~= cell_at(self, start, start_found.0 as int).1);
            assert(end_idx.1 =~= cell_at(self, end, end_found.0 as int).1);
        }
        if start_idx.0 == end_idx.0 && start_idx.1[0] == end_idx.1[0] && start_idx.1[1] == end_idx.1[1] {
            let mut path: Vec<QTreeIdx> = Vec::new();
            path.push(start_idx);
            proof {
                assert(start_idx.1 =~= end_idx.1);
            }
            return (Ok(path), SearchTree::new());
        }
        self.search_path(ignore, start_idx, end_idx)
    }

    /// Searches from the cell `s` for the cell `g`: a path back from a neighbor of `g` to `s`,
    /// or `SearchFailed` with the exhausted tree.
    fn search_path<F: Fn(usize) -> bool>(&self, ignore: &F, s: QTreeIdx, g: QTreeIdx)
        -> (res: (Result<Vec<QTreeIdx>, PathFindError>, SearchTree))
        requires
            self.levels.len() <= 30,
            deterministic(ignore),
            s.0 < self.levels.len(),
            passable_cell(self, ignore, s),
            s != g,
        ensures
            tree_valid(self, ignore, &res.1),
            match res.0 {
                Ok(path) => is_path(self, ignore, path@, s, g) && tree_reaches(&res.1, s, path@[0]),
                Err(e) => e == PathFindError::SearchFailed && search_exhausted(self, ignore, &res.1, s, g),
            },
    {
        let outcome = self.explore(ignore, s, SearchGoal::Cell(g));
        let entries = outcome.entries;
        proof {
            reveal(search_tree_valid);
        }
        let tree = build_search_tree(&entries);
        proof {
            lemma_tree_of_entries(self, ignore, s, entries@, &tree);
            lemma_tree_reaches_entries(self, ignore, s, entries@, &tree);
        }
        match outcome.stopped_at {
            Some(c) => {
                let path = trace_back::<F>(&entries, c, Ghost(self), Ghost(ignore), Ghost(s));
                proof {
                    assert(tree_reaches(&tree, s, entry_cell(entries@[c as int])));
                    lemma_path_touches(self, ignore, path@, g);
                }
                (Ok(path), tree)
            },
            None => {
                proof {
                    lemma_search_exhausted(self, ignore, entries@, &tree, s, g);
                }
                (Err(PathFindError::SearchFailed), tree)
            },
        }
    }
}

/// The cells of the entries from `from` on.
pub open spec fn cells_from(es: Seq<SearchEntry>, from: int) -> Seq<QTreeIdx> {
    es.subrange(from, es.len() as int).map_values(|e: SearchEntry| entry_cell(e))
}

/// `contour` is what a breadth-first search from `start` had reached but not yet expanded when
/// it first expanded a cell, with neighbors, at a cost of at least `distance`; or nothing, when
/// the search ran out of cells before.
pub open spec fn is_contour<F: Fn(usize) -> bool>(t: &QTree, ignore: &F, start: QTreeIdx, distance: usize, contour: Seq<QTreeIdx>) -> bool {
    exists|es: Seq<SearchEntry>, stop: Option<usize>| {
        &&& search_tree_valid(t, ignore, start, es)
        &&& breadth_first(es, es.len() as int)
        &&& #[trigger] contour_stop(t, ignore, distance, es, stop)
        &&& contour == match stop {
            Some(c) => cells_from(es, c + 1),
            None => Seq::empty(),
        }
    }
}

/// Where a search for a contour at `distance` stopped: at the first entry expanded at a cost of
/// at least `distance`, every entry before it expanded; or nowhere, every entry expanded.
pub open spec fn contour_stop<F: Fn(usize) -> bool>(t: &QTree, ignore: &F, distance: usize, es: Seq<SearchEntry>, stop: Option<usize>) -> bool {
    match stop {
        Some(c) => {
            &&& c < es.len()
            &&& goal_met(t, SearchGoal::Cost(distance), es[c as int])
            &&& forall|j: int| 0 <= j < c ==> expanded(t, ignore, SearchGoal::Cost(distance), es, #[trigger] es[j])
        },
        None => forall|j: int| 0 <= j < es.len() ==> expanded(t, ignore, SearchGoal::Cost(distance), es, #[trigger] es[j]),
    }
}

impl QTree {
    /// The cells on the front of a breadth-first search from the cell holding the bottom-level
    /// position `start`, when it first gets `distance` steps away; `None` when the search
    /// cannot start there.
    pub fn find_contour<F: Fn(usize) -> bool>(&self, ignore: &F, start: [i32; 2], distance: usize) -> (res: Option<Vec<QTreeIdx>>)
        requires
            self.shallow(),
            self.levels.len() <= 30,
            deterministic(ignore),
        ensures
            match res {
                None => located(self, ignore, start) is None,
                Some(contour) => located(self, ignore, start) matches Some(s) && is_contour(self, ignore, s, distance, contour@),
            },
    {
        let start_found = match self.find_by_idx(start) {
            Some(f) => f,
            None => return None,
        };
        if blocked(start_found.1, ignore) {
            return None;
        }
        let start_idx: QTreeIdx = (start_found.0, self.to_idx(start, start_found.0));
        proof {
            assert(start_idx.1 =~= cell_at(self, start, start_found.0 as int).1);
        }
        let outcome = self.explore(ignore, start_idx, SearchGoal::Cost(distance));
        let entries = outcome.entries;
        let mut contour: Vec<QTreeIdx> = Vec::new();
        if let Some(c) = outcome.stopped_at {
            let mut i = c + 1;
            while i < entries.len()
                invariant
                    c < entries.len(),
                    c + 1 <= i <= entries.len(),
                    contour@ == cells_from(entries@.subrange(0, i as int), c + 1),
                decreases entries.len() - i,
            {
                let e = entries[i];
                contour.push((e.level, e.idx));
                proof {
                    assert(contour@ =~= cells_from(entries@.subrange(0, i + 1), c + 1));
                }
                i += 1;
            }
            proof {
                assert(entries@.subrange(0, entries.len() as int) =~= entries@);
            }
        }
        proof {
            assert(contour_stop(self, ignore, distance, entries@, outcome.stopped_at));
            assert(contour@ =~= match outcome.stopped_at {
                Some(c) => cells_from(entries@, c + 1),
                None => Seq::empty(),
            });
        }
        Some(contour)
    }
}

/// A search that expanded every entry without meeting the goal cell leaves a tree that is
/// exhausted: closed under passable neighbors, with the goal among no neighbors.
proof fn lemma_search_exhausted<F: Fn(usize) -> bool>(t: &QTree, ignore: &F, es: Seq<SearchEntry>, tree: &SearchTree,
    start: QTreeIdx, goal: QTreeIdx)
    requires
        forall|j: int| 0 <= j < es.len() ==> expanded(t, ignore, SearchGoal::Cell(goal), es, #[trigger] es[j]),
        forall|c: QTreeIdx| #[trigger] tree_reaches(tree, start, c) <==> exists|j: int| 0 <= j < es.len() && entry_cell(#[trigger] es[j]) == c,
    ensures
        search_exhausted(t, ignore, tree, start, goal),
{
    assert forall|c: QTreeIdx| #[trigger] tree_reaches(tree, start, c) && in_level(c.0 as int, c.1) implies
        forall|k: int| 0 <= k < t.neighbors_spec(c.0 as int, c.1).len() ==> {
            let n = #[trigger] t.neighbors_spec(c.0 as int, c.1)[k];
            &&& n != goal
            &&& (passable_cell(t, ignore, n) ==> tree_reaches(tree, start, n))
        } by {
        let j = choose|j: int| 0 <= j < es.len() && entry_cell(#[trigger] es[j]) == c;
        assert(expanded(t, ignore, SearchGoal::Cell(goal), es, es[j]));
        assert forall|k: int| 0 <= k < t.neighbors_spec(c.0 as int, c.1).len() implies {
            let n = #[trigger] t.neighbors_spec(c.0 as int, c.1)[k];
            &&& n != goal
            &&& (passable_cell(t, ignore, n) ==> tree_reaches(tree, start, n))
        } by {
            let n = t.neighbors_spec(c.0 as int, c.1)[k];
            assert(neighbor_seen(t, ignore, SearchGoal::Cell(goal), es, n));
            if passable_cell(t, ignore, n) {
                let i = choose|i: int| 0 <= i < es.len() && entry_cell(#[trigger] es[i]) == n;
                assert(tree_reaches(tree, start, n));
            }
        }
    }
}

/// Consecutive cells of a traced path touch, and so do its first cell and the goal among its
/// neighbors.
proof fn lemma_path_touches<F: Fn(usize) -> bool>(t: &QTree, ignore: &F, path: Seq<QTreeIdx>, goal: QTreeIdx)
    requires
        t.levels.len() <= 30,
        path.len() >= 1,
        in_level(path[0].0 as int, path[0].1),
        t.neighbors_spec(path[0].0 as int, path[0].1).contains(goal),
        forall|i: int| 0 <= i < path.len() - 1 ==> t.neighbors_spec(path[i + 1].0 as int, path[i + 1].1).contains(#[trigger] path[i]),
        forall|i: int| 0 <= i < path.len() - 1 ==> in_level(path[i + 1].0 as int, #[trigger] path[i + 1].1),
        forall|i: int| 0 <= i < path.len() ==> passable_cell(t, ignore, #[trigger] path[i]),
    ensures
        touches(path[0], goal),
        forall|i: int| 0 <= i < path.len() - 1 ==> touches(path[i + 1], #[trigger] path[i]),
{
    assert forall|i: int| 0 <= i < path.len() - 1 implies touches(path[i + 1], #[trigger] path[i]) by {
        let p = path[i + 1];
        assert(passable_cell(t, ignore, p));
        assert(in_level(p.0 as int, p.1));
        lemma_neighbors_touch(t, p.0 as int, p.1, path[i]);
    }
    let p0 = path[0];
    assert(passable_cell(t, ignore, p0));
    lemma_neighbors_touch(t, p0.0 as int, p0.1, goal);
}

/// The cell `c` is a uniform cell of the tree, lying in its level, that the search may pass
/// through.
pub open spec fn open_leaf<F: Fn(usize) -> bool>(t: &QTree, ignore: &F, c: QTreeIdx) -> bool {
    &&& t.cell(c.0 as int, c.1[0] as int, c.1[1] as int) matches Some(st) && st != CellState::Mixed && passable(st, ignore)
    &&& in_level(c.0 as int, c.1)
}

/// `chain` walks from `start` through open uniform cells, each touching the one before it.
pub open spec fn touching_chain<F: Fn(usize) -> bool>(t: &QTree, ignore: &F, chain: Seq<QTreeIdx>, start: QTreeIdx) -> bool {
    &&& chain.len() >= 1
    &&& chain[0] == start
    &&& forall|k: int| 0 <= k < chain.len() ==> open_leaf(t, ignore, #[trigger] chain[k])
    &&& forall|k: int| 0 <= k < chain.len() - 1 ==> touches(#[trigger] chain[k], chain[k + 1])
}

/// The failed-search law: in a tree consistent with its cache, once a search from `start` has
/// exhausted its tree without meeting `goal`, every walk through touching open cells from
/// `start` stays among the cells it reached, and none of them touches `goal`: no path leads
/// to the goal.
pub proof fn lemma_failed_search_no_path<F: Fn(usize) -> bool>(t: &QTree, cache: &CacheMap, ignore: &F, tree: &SearchTree,
    start: QTreeIdx, goal: QTreeIdx, chain: Seq<QTreeIdx>)
    requires
        t.consistent(cache),
        t.levels.len() <= 30,
        search_exhausted(t, ignore, tree, start, goal),
        touching_chain(t, ignore, chain, start),
        goal.0 < t.levels.len(),
        in_level(goal.0 as int, goal.1),
        t.cell(goal.0 as int, goal.1[0] as int, goal.1[1] as int) matches Some(st) && st != CellState::Mixed,
    ensures
        forall|k: int| 0 <= k < chain.len() ==> tree_reaches(tree, start, #[trigger] chain[k]) && !touches(chain[k], goal),
    decreases chain.len(),
{
    let n = chain.len() as int;
    if n > 1 {
        let prefix = chain.subrange(0, n - 1);
        assert forall|k: int| 0 <= k < prefix.len() implies open_leaf(t, ignore, #[trigger] prefix[k]) by {
            assert(prefix[k] == chain[k]);
        }
        assert forall|k: int| 0 <= k < prefix.len() - 1 implies touches(#[trigger] prefix[k], prefix[k + 1]) by {
            assert(prefix[k] == chain[k] && prefix[k + 1] == chain[k + 1]);
        }
        lemma_failed_search_no_path(t, cache, ignore, tree, start, goal, prefix);
        let c = chain[n - 2];
        assert(c == prefix[n - 2]);
        assert(tree_reaches(tree, start, c));
        assert(open_leaf(t, ignore, c));
        assert(open_leaf(t, ignore, chain[n - 1]));
        assert(touches(chain[n - 2], chain[n - 1]));
        lemma_touching_is_neighbor(t, cache, c.0 as int, c.1, chain[n - 1]);
        let nbs = t.neighbors_spec(c.0 as int, c.1);
        let i = choose|i: int| 0 <= i < nbs.len() && nbs[i] == chain[n - 1];
        assert(nbs[i] == chain[n - 1]);
        assert(passable_cell(t, ignore, chain[n - 1]));
        assert(tree_reaches(tree, start, chain[n - 1]));
        if touches(chain[n - 1], goal) {
            lemma_touching_is_neighbor(t, cache, chain[n - 1].0 as int, chain[n - 1].1, goal);
            let nbs2 = t.neighbors_spec(chain[n - 1].0 as int, chain[n - 1].1);
            let i2 = choose|i: int| 0 <= i < nbs2.len() && nbs2[i] == goal;
            assert(nbs2[i2] == goal);
        }
        assert forall|k: int| 0 <= k < chain.len() implies tree_reaches(tree, start, #[trigger] chain[k]) && !touches(chain[k], goal) by {
            if k < n - 1 {
                assert(chain[k] == prefix[k]);
            }
        }
    } else {
        assert(chain[0] == start);
        assert(tree_reaches(tree, start, start));
        if touches(start, goal) {
            lemma_touching_is_neighbor(t, cache, start.0 as int, start.1, goal);
            let nbs = t.neighbors_spec(start.0 as int, start.1);
            let i = choose|i: int| 0 <= i < nbs.len() && nbs[i] == goal;
            assert(nbs[i] == goal);
        }
    }
}

/// Follows the entries back from entry `c` to the start, collecting their cells.
fn trace_back<F: Fn(usize) -> bool>(entries: &Vec<SearchEntry>, c: usize, Ghost(t): Ghost<&QTree>, Ghost(ignore): Ghost<&F>,
    Ghost(start): Ghost<QTreeIdx>) -> (path: Vec<QTreeIdx>)
    requires
        search_tree_valid(t, ignore, start, entries@),
        c < entries.len(),
        passable_cell(t, ignore, start),
    ensures
        path.len() >= 1,
        path@[0] == entry_cell(entries@[c as int]),
        path@[path.len() - 1] == start,
        forall|i: int| 0 <= i < path.len() - 1 ==> t.neighbors_spec(path@[i + 1].0 as int, path@[i + 1].1).contains(#[trigger] path@[i]),
        forall|i: int| 0 <= i < path.len() - 1 ==> in_level(path@[i + 1].0 as int, #[trigger] path@[i + 1].1),
        forall|i: int| 0 <= i < path.len() ==>
            passable_cell(t, ignore, #[trigger] path@[i]),
        forall|i: int, j: int| 0 <= i < j < path.len() ==> #[trigger] path@[i] != #[trigger] path@[j],
{
    let mut path: Vec<QTreeIdx> = Vec::new();
    let mut node = c;
    path.push((entries[c].level, entries[c].idx));
    let ghost mut ids: Seq<int> = seq![c as int];
    proof {
        lemma_tree_step(t, ignore, start, entries@, c as int);
    }
    while entries[node].from.is_some()
        invariant
            search_tree_valid(t, ignore, start, entries@),
            passable_cell(t, ignore, start),
            node < entries.len(),
            path.len() >= 1,
            ids.len() == path.len(),
            ids[ids.len() - 1] == node,
            path@[0] == entry_cell(entries@[c as int]),
            forall|i: int| 0 <= i < ids.len() ==> 0 <= #[trigger] ids[i] < entries.len() && path@[i] == entry_cell(entries@[ids[i]]),
            forall|i: int, j: int| 0 <= i < j < ids.len() ==> #[trigger] ids[i] > #[trigger] ids[j],
            forall|i: int| 0 <= i < path.len() - 1 ==> t.neighbors_spec(path@[i + 1].0 as int, path@[i + 1].1).contains(#[trigger] path@[i]),
            forall|i: int| 0 <= i < path.len() - 1 ==> in_level(path@[i + 1].0 as int, #[trigger] path@[i + 1].1),
            forall|i: int| 0 <= i < path.len() ==>
                passable_cell(t, ignore, #[trigger] path@[i]),
        decreases node,
    {
        proof {
            lemma_tree_step(t, ignore, start, entries@, node as int);
        }
        let f = match entries[node].from {
            Some(f) => f,
            None => node,
        };
        let ghost old_path = path@;
        let ghost old_ids = ids;
        path.push((entries[f].level, entries[f].idx));
        proof {
            ids = ids.push(f as int);
            lemma_tree_step(t, ignore, start, entries@, f as int);
            assert(path@[path.len() - 2] == entry_cell(entries@[node as int]));
            assert forall|i: int| 0 <= i < path.len() - 1 implies t.neighbors_spec(path@[i + 1].0 as int, path@[i + 1].1).contains(#[trigger] path@[i]) by {
                if i < path.len() - 2 {
                    assert(path@[i] == old_path[i] && path@[i + 1] == old_path[i + 1]);
                }
            }
            assert forall|i: int| 0 <= i < path.len() - 1 implies in_level(path@[i + 1].0 as int, #[trigger] path@[i + 1].1) by {
                if i < path.len() - 2 {
                    assert(path@[i + 1] == old_path[i + 1]);
                }
            }
            assert forall|i: int| 0 <= i < path.len() implies
                passable_cell(t, ignore, #[trigger] path@[i]) by {
                if i < path.len() - 1 {
                    assert(path@[i] == old_path[i]);
                } else if f == 0 {
                    assert(entry_cell(entries@[0]) == start);
                }
            }
            assert forall|i: int| 0 <= i < ids.len() implies 0 <= #[trigger] ids[i] < entries.len() && path@[i] == entry_cell(entries@[ids[i]]) by {
                if i < ids.len() - 1 {
                    assert(ids[i] == old_ids[i]);
                    assert(path@[i] == old_path[i]);
                }
            }
            assert forall|i: int, j: int| 0 <= i < j < ids.len() implies #[trigger] ids[i] > #[trigger] ids[j] by {
                if j < ids.len() - 1 {
                    assert(ids[i] == old_ids[i] && ids[j] == old_ids[j]);
                } else {
                    assert(ids[i] == old_ids[i]);
                    assert(old_ids[i] >= old_ids[old_ids.len() - 1]);
                }
            }
        }
        node = f;
    }
    proof {
        lemma_tree_step(t, ignore, start, entries@, node as int);
        reveal(search_tree_valid);
        assert forall|i: int, j: int| 0 <= i < j < path.len() implies #[trigger] path@[i] != #[trigger] path@[j] by {
            assert(ids[i] > ids[j]);
            assert(entry_cell(entries@[ids[j]]) != entry_cell(entries@[ids[i]]));
        }
    }
    path
}

} // verus!
