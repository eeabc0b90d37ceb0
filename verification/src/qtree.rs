//! Quad tree based pathfinder

pub mod cache_map;
pub mod qtree;
pub mod search;
pub mod adjacency;

use vstd::prelude::*;
use vstd::arithmetic::power2::{pow2, lemma_pow2_unfold, lemma_pow2_pos};
use self::cache_map::{CacheMap, in_rect};
use self::qtree::{QTree, root_cell, key_of, merged, lemma_merged_idempotent};
use self::search::{QTreeIdx, PathFindError, SearchTree, deterministic, path_found};

pub use self::cache_map::FRESH_TICKS;

verus! {

/// A rectangle of pixels, `[x0, y0, x1, y1]`, with `x1` and `y1` exclusive.
pub type Rect = [i32; 4];

/// The rectangle holds exactly one pixel.
pub open spec fn unit_rect(r: Rect) -> bool {
    r[2] == r[0] + 1 && r[3] == r[1] + 1
}

/// The state of a pixel or of a whole cell of the quad tree.
#[derive(Debug, Clone, Copy, PartialEq, Eq, Structural)]
pub enum CellState {
    Obstacle,
    Occupied(usize),
    Free,
    Mixed,
}

/// The error of `log2ceil` on an argument below 2.
#[derive(Debug, Clone, Copy, PartialEq, Eq, Structural)]
pub struct Log2CeilError;

impl Log2CeilError {
    /// The message that the error displays.
    pub fn message(&self) -> (s: String)
        ensures
            s@ == "Log2 cannot receive 0"@,
    {
        String::from_str("Log2 cannot receive 0")
    }
}

/// `r` is the ceiling of the base 2 logarithm of `u`: `2^(r-1) < u <= 2^r`.
pub open spec fn is_log2ceil(u: int, r: int) -> bool {
    &&& 1 <= r
    &&& pow2((r - 1) as nat) < u
    &&& u <= pow2(r as nat)
}

/// The number of bits needed to address `u` positions: `ceil(log2(u))`, for `u >= 2`.
pub fn log2ceil(u: usize) -> (res: Result<usize, Log2CeilError>)
    ensures
        u < 2 <==> res is Err,
        res matches Ok(r) ==> is_log2ceil(u as int, r as int),
{
    if u < 2 {
        return Err(Log2CeilError);
    }
    // Find the smallest r with u <= 2^r.
    let mut r: usize = 1;
    let mut p: usize = 2;
    proof {
        lemma_pow2_unfold(1);
        lemma_pow2_pos(0);
        assert(pow2(0) == 1) by { vstd::arithmetic::power2::lemma2_to64(); }
    }
    while p < u
        invariant
            1 <= r < usize::BITS,
            p as int == pow2(r as nat),
            2 <= p,
            pow2((r - 1) as nat) < u,
            2 <= u,
        decreases usize::BITS - r,
    {
        proof {
            lemma_pow2_unfold((r + 1) as nat);
        }
        if p > usize::MAX / 2 {
            // The next power of two no longer fits in a usize, and it is the answer.
            proof {
                assert(u <= usize::MAX);
                vstd::arithmetic::power2::lemma2_to64();
            }
            return Ok(r + 1);
        }
        r = r + 1;
        p = p * 2;
        proof {
            if r >= usize::BITS {
                vstd::arithmetic::power2::lemma2_to64();
                vstd::arithmetic::power2::lemma_pow2_strictly_increases((usize::BITS - 1) as nat, (r - 1) as nat);
                assert(false);
            }
        }
    }
    Ok(r)
}

/// Halving the cell index of level `level` gives the cell index of level `level - 1`.
pub proof fn lemma_div_half(v: int, top: int, level: int)
    requires
        0 <= v,
        1 <= level <= top,
    ensures
        (v / pow2((top - level) as nat) as int) / 2 == v / pow2((top - (level - 1)) as nat) as int,
{
    qtree::lemma_div_pow2_compose(v, (top - level) as nat, 1);
    assert(pow2(1) == 2) by { vstd::arithmetic::power2::lemma2_to64(); }
    assert((top - level) as nat + 1 == (top - (level - 1)) as nat);
}

/// The cell index of a board pixel at `level` lies in the level's range.
pub proof fn lemma_cell_pos_range(t: QTree, pos: [i32; 2], level: int, size: int)
    requires
        0 <= level <= t.toplevel <= 30,
        size == pow2(t.toplevel as nat),
        0 <= pos[0] < size,
        0 <= pos[1] < size,
    ensures
        0 <= pos[0] as int / t.side(level) < pow2(level as nat),
        0 <= pos[1] as int / t.side(level) < pow2(level as nat),
{
    vstd::arithmetic::power2::lemma_pow2_pos((t.toplevel - level) as nat);
    vstd::arithmetic::power2::lemma_pow2_adds(level as nat, (t.toplevel - level) as nat);
    qtree::lemma_div_range(pos[0] as int, t.side(level), pos[0] as int / t.side(level));
    qtree::lemma_div_range(pos[1] as int, t.side(level), pos[1] as int / t.side(level));
    vstd::arithmetic::div_mod::lemma_div_pos_is_pos(pos[0] as int, t.side(level));
    vstd::arithmetic::div_mod::lemma_div_pos_is_pos(pos[1] as int, t.side(level));
    if pos[0] as int / t.side(level) >= pow2(level as nat) {
        assert(pow2(level as nat) * t.side(level) <= (pos[0] as int / t.side(level)) * t.side(level)) by (nonlinear_arith)
            requires pos[0] as int / t.side(level) >= pow2(level as nat), t.side(level) > 0;
    }
    if pos[1] as int / t.side(level) >= pow2(level as nat) {
        assert(pow2(level as nat) * t.side(level) <= (pos[1] as int / t.side(level)) * t.side(level)) by (nonlinear_arith)
            requires pos[1] as int / t.side(level) >= pow2(level as nat), t.side(level) > 0;
    }
}

/// The longer side of a board shape.
pub open spec fn shape_extent(shape: (usize, usize)) -> int {
    if shape.0 < shape.1 { shape.1 as int } else { shape.0 as int }
}

/// A navigation mesh that can find a path and update quickly using quad tree.
///
/// It consists of two parts; actual quad tree and bitmap cache to allow updating
/// existing quad tree quickly.
#[derive(Debug)]
pub struct QTreeSearcher {
    qtree: QTree,
    cache_map: CacheMap,
}

impl QTreeSearcher {
    /// The quad tree.
    pub closed spec fn tree(&self) -> QTree {
        self.qtree
    }

    /// The pixel cache.
    pub closed spec fn cache(&self) -> CacheMap {
        self.cache_map
    }

    /// The quad tree describes the cache (see `QTree::consistent`).
    pub open spec fn consistent(&self) -> bool {
        self.tree().consistent(&self.cache())
    }

    /// Nothing has been recorded yet.
    pub open spec fn is_fresh(&self) -> bool {
        &&& self.tree().levels.len() == 0
        &&& self.cache().wf()
        &&& self.cache().buf_len() == 0
    }

    pub fn new() -> (res: Self)
        ensures
            res.is_fresh(),
            res.tree().toplevel == 0,
            res.cache().spec_size() == 0,
    {
        Self { qtree: QTree::new(), cache_map: CacheMap::new() }
    }

    pub fn get_cache_map(&self) -> (res: &CacheMap)
        ensures
            *res == self.cache(),
    {
        &self.cache_map
    }

    pub fn get_qtree(&self) -> (res: &QTree)
        ensures
            *res == self.tree(),
    {
        &self.qtree
    }

    /// Builds the cache and the quad tree for a board of the given shape, whose pixel
    /// `(x, y)` has the state `f([x, y, x + 1, y + 1])`. Fails when the board is narrower
    /// than 2 pixels in both directions. On a fresh searcher, level 0 holds only the root cell
    /// and every cell stored holds the state of its square (`Mixed` where it was split). A
    /// fresh searcher needs a board with a pixel, or one that is refused anyway (the cache would
    /// otherwise name no state for the pixels off the board); sides are at most `0x8000`, so that
    /// the square cache of `2^30` cells stays addressable.
    pub fn initialize<F: Fn(Rect) -> CellState>(&mut self, shape: (usize, usize), f: &F) -> (res: Result<(), Log2CeilError>)
        requires
            forall|r: int| #[trigger] is_log2ceil(shape_extent(shape), r)
                ==> old(self).tree().levels.len() <= r + 1,
            old(self).cache().wf(),
            shape.0 <= 0x8000,
            shape.1 <= 0x8000,
            old(self).cache().buf_len() > 0 || (shape.0 > 0 && shape.1 > 0) || (shape.0 < 2 && shape.1 < 2),
            forall|r: Rect| f.requires((r,)),
        ensures
            res is Err <==> shape.0 < 2 && shape.1 < 2,
            res is Err ==> *final(self) == *old(self),
            res is Ok ==> {
                let c = final(self).cache();
                &&& is_log2ceil(shape_extent(shape), final(self).tree().toplevel as int)
                &&& c.wf()
                &&& c.spec_size() == pow2(final(self).tree().toplevel as nat)
                &&& forall|x: int, y: int| 0 <= x < shape.0 && 0 <= y < shape.1 ==>
                    f.ensures(([x as i32, y as i32, (x + 1) as i32, (y + 1) as i32],), #[trigger] c.pixel(x, y))
                &&& forall|x: int, y: int| c.in_bounds(x, y) && !(x < shape.0 && y < shape.1) ==>
                    #[trigger] c.pixel(x, y) == c.states()[0]
                &&& (old(self).is_fresh() && forall|r: Rect, st: CellState| unit_rect(r) && #[trigger] f.ensures((r,), st) ==> st != CellState::Mixed)
                    ==> final(self).consistent()
                &&& old(self).is_fresh() ==> forall|x: int, y: int|
                    (#[trigger] final(self).tree().cell(0, x, y) is Some) <==> (x == 0 && y == 0)
                &&& old(self).is_fresh() ==> forall|l: int, x: int, y: int| #[trigger] final(self).tree().cell(l, x, y) is Some
                    ==> final(self).tree().cell(l, x, y) == Some(final(self).tree().rebuilt_state(&c, l, [x as i32, y as i32]))
            },
    {
        let max_size = if shape.0 < shape.1 { shape.1 } else { shape.0 };
        let topbit = match log2ceil(max_size) {
            Ok(t) => t,
            Err(e) => return Err(e),
        };
        proof {
            assert(is_log2ceil(shape_extent(shape), topbit as int));
            vstd::arithmetic::power2::lemma2_to64();
            if topbit > 15 {
                vstd::arithmetic::power2::lemma_pow2_strictly_increases(15, (topbit - 1) as nat);
            }
            if topbit < 30 {
                vstd::arithmetic::power2::lemma_pow2_strictly_increases(topbit as nat, 30);
            }
            if topbit < 15 {
                vstd::arithmetic::power2::lemma_pow2_strictly_increases(topbit as nat, 15);
            }
            assert(pow2(topbit as nat) * pow2(topbit as nat) <= 0x8000 * 0x8000) by (nonlinear_arith)
                requires pow2(topbit as nat) <= 0x8000;
        }
        let ghost fresh = self.is_fresh();
        self.qtree.toplevel = topbit;
        self.cache_map.cache(topbit, shape, f);
        proof {
            if fresh && forall|r: Rect, st: CellState| unit_rect(r) && #[trigger] f.ensures((r,), st) ==> st != CellState::Mixed {
                assert(self.cache_map.pixel(0, 0) != CellState::Mixed);
                assert forall|x: int, y: int| self.cache_map.in_bounds(x, y) implies #[trigger] self.cache_map.pixel(x, y) != CellState::Mixed by {
                    if x < shape.0 && y < shape.1 {
                        assert(f.ensures(([x as i32, y as i32, (x + 1) as i32, (y + 1) as i32],), self.cache_map.pixel(x, y)));
                    }
                }
            }
        }
        let ghost t0 = self.qtree;
        proof {
            vstd::arithmetic::power2::lemma_pow2_pos(0);
        }
        self.qtree.recurse_update(0, [0, 0], &self.cache_map);
        proof {
            if fresh && forall|r: Rect, st: CellState| unit_rect(r) && #[trigger] f.ensures((r,), st) ==> st != CellState::Mixed {
                assert forall|px: int, py: int| t0.in_region(0, root_cell(), px, py) && self.cache_map.in_bounds(px, py)
                    implies #[trigger] self.cache_map.pixel(px, py) != CellState::Mixed by {}
                assert(t0.region_unmixed(&self.cache_map, 0, root_cell()));
                assert(t0.empty_below(&self.cache_map, 0, root_cell()));
                assert([0i32, 0i32] =~= root_cell());
            }
            if fresh {
                assert forall|l: int, x: int, y: int| #[trigger] self.qtree.cell(l, x, y) is Some implies
                    self.qtree.cell(l, x, y) == Some(self.qtree.rebuilt_state(&self.cache_map, l, [x as i32, y as i32])) by {
                    assert(t0.cell(l, x, y) is None);
                    if !self::qtree::in_subtree(0, [0i32, 0i32], l, x, y) {
                        assert(self.qtree.cell(l, x, y) == t0.cell(l, x, y));
                    }
                    assert(t0.rebuilt_state(&self.cache_map, l, [x as i32, y as i32])
                        == self.qtree.rebuilt_state(&self.cache_map, l, [x as i32, y as i32]));
                }
                assert forall|x: int, y: int| (#[trigger] self.qtree.cell(0, x, y) is Some) <==> (x == 0 && y == 0) by {
                    vstd::arithmetic::power2::lemma2_to64();
                    if !(x == 0 && y == 0) {
                        assert(!self::qtree::in_subtree(0, [0i32, 0i32], 0, x, y));
                        assert(t0.cell(0, x, y) is None);
                    }
                }
            }
        }
        Ok(())
    }

    pub fn start_update(&mut self)
        requires
            old(self).cache().wf(),
        ensures
            final(self).tree() == old(self).tree(),
            final(self).cache().wf(),
            final(self).cache().snapshot() == (match old(self).cache().snapshot() {
                Some(p) if p.len() == old(self).cache().indices().len() => Some(p),
                _ => Some(old(self).cache().indices()),
            }),
            final(self).cache().indices() == old(self).cache().indices(),
            final(self).cache().states() == old(self).cache().states(),
            forall|x: int, y: int| #[trigger] final(self).cache().pixel(x, y) == old(self).cache().pixel(x, y),
            forall|x: int, y: int| #[trigger] final(self).cache().fresh_ticks(x, y) == old(self).cache().fresh_ticks(x, y),
            final(self).cache().spec_size() == old(self).cache().spec_size(),
            final(self).cache().spec_topbit() == old(self).cache().spec_topbit(),
            old(self).consistent() ==> final(self).consistent(),
    {
        self.cache_map.start_update();
        proof {
            if old(self).consistent() {
                QTree::lemma_same_pixels_consistent(self.qtree, &old(self).cache_map, &self.cache_map);
            }
        }
    }

    /// Sets the pixel at `pos` to `pix` and brings the quad tree up to date: the uniform cell
    /// that held the pixel is set (at the bottom level) or rebuilt from the cache, and
    /// homogeneous siblings are merged upwards.
    pub fn update(&mut self, pos: [i32; 2], pix: CellState) -> (res: Result<(), String>)
        requires
            old(self).cache().wf(),
            old(self).tree().shallow(),
            old(self).cache().spec_size() == pow2(old(self).tree().toplevel as nat),
        ensures
            final(self).cache().wf(),
            final(self).tree().shallow(),
            final(self).tree().toplevel == old(self).tree().toplevel,
            final(self).cache().spec_size() == old(self).cache().spec_size(),
            final(self).cache().snapshot() == old(self).cache().snapshot(),
            !old(self).cache().in_bounds(pos[0] as int, pos[1] as int) <==> (res matches Err(e) && e@ == "Out of bounds!"@),
            !old(self).cache().in_bounds(pos[0] as int, pos[1] as int) ==> *final(self) == *old(self),
            res matches Err(e) ==> e@ == "Out of bounds!"@ || e@ == "Could not find a cell to update"@,
            old(self).cache().in_bounds(pos[0] as int, pos[1] as int) ==> {
                &&& final(self).cache().pixel(pos[0] as int, pos[1] as int) == pix
                &&& forall|x: int, y: int| final(self).cache().in_bounds(x, y) && !(x == pos[0] && y == pos[1]) ==>
                    #[trigger] final(self).cache().pixel(x, y) == old(self).cache().pixel(x, y)
            },
            old(self).consistent() && pix != CellState::Mixed ==> final(self).consistent()
                && (res is Ok <==> old(self).cache().in_bounds(pos[0] as int, pos[1] as int)),
            old(self).consistent() && pix != CellState::Mixed && old(self).cache().in_bounds(pos[0] as int, pos[1] as int) ==>
                (final(self).tree().lookup(pos) matches Some((_, st)) && (st == CellState::Free) == (pix == CellState::Free)),
            old(self).cache().in_bounds(pos[0] as int, pos[1] as int) && old(self).cache().pixel(pos[0] as int, pos[1] as int) == pix
                ==> *final(self) == *old(self) && res is Ok,
            old(self).cache().in_bounds(pos[0] as int, pos[1] as int) && old(self).cache().pixel(pos[0] as int, pos[1] as int) != pix
                && res is Ok ==> final(self).tree().cells()
                == merged(final(self).tree().cells(), final(self).tree().toplevel as int, pos[0] as int, pos[1] as int),
    {
        let ghost c0 = self.cache_map;
        let ghost t0 = self.qtree;
        let res = match self.cache_map.update(pos, pix) {
            Ok(r) => r,
            Err(e) => return Err(e),
        };
        if !res {
            proof {
                if old(self).consistent() && pix != CellState::Mixed && c0.in_bounds(pos[0] as int, pos[1] as int) {
                    QTree::lemma_same_pixels_consistent(self.qtree, &c0, &self.cache_map);
                    self.lemma_lookup_agrees(pos[0] as int, pos[1] as int);
                    assert([pos[0] as int as i32, pos[1] as int as i32] =~= pos);
                }
            }
            return Ok(());
        }
        let ghost c1 = self.cache_map;
        let mut level = self.qtree.toplevel;
        let mut cell_pos = pos;
        proof {
            vstd::arithmetic::div_mod::lemma_div_basics(pos[0] as int);
            vstd::arithmetic::div_mod::lemma_div_basics(pos[1] as int);
            assert(t0.side(t0.toplevel as int) == 1) by { vstd::arithmetic::power2::lemma2_to64(); }
        }
        loop
            invariant
                self.qtree == t0,
                t0 == old(self).qtree,
                c0 == old(self).cache_map,
                self.cache_map == c1,
                c1.wf(),
                c1.spec_size() == c0.spec_size(),
                c1.snapshot() == c0.snapshot(),
                c1.pixel(pos[0] as int, pos[1] as int) == pix,
                c0.pixel(pos[0] as int, pos[1] as int) != pix,
                forall|x: int, y: int| c1.in_bounds(x, y) && !(x == pos[0] && y == pos[1]) ==>
                    #[trigger] c1.pixel(x, y) == c0.pixel(x, y),
                t0.shallow(),
                c1.spec_size() == pow2(t0.toplevel as nat),
                (pix != CellState::Mixed ==> QTree::one_pixel_changed(&c0, &c1, pos, pix)),
                level <= t0.toplevel,
                c0.in_bounds(pos[0] as int, pos[1] as int),
                cell_pos[0] == pos[0] as int / t0.side(level as int),
                cell_pos[1] == pos[1] as int / t0.side(level as int),
                forall|l: int| level < l <= t0.toplevel ==> !#[trigger] t0.leaf_of(pos[0] as int, pos[1] as int, l),
            decreases level,
        {
            let tile = if level < self.qtree.levels.len() {
                match self.qtree.levels[level].get(&key_of(cell_pos)) {
                    Some(t) => Some(*t),
                    None => None,
                }
            } else {
                None
            };
            if let Some(tile) = tile {
                if !matches!(tile, CellState::Mixed) {
                    let toplevel = self.qtree.toplevel;
                    proof {
                        assert(t0.leaf_of(pos[0] as int, pos[1] as int, level as int));
                    }
                    if level == toplevel {
                        proof {
                            assert(t0.side(t0.toplevel as int) == 1) by { vstd::arithmetic::power2::lemma2_to64(); }
                            vstd::arithmetic::div_mod::lemma_div_basics(pos[0] as int);
                            vstd::arithmetic::div_mod::lemma_div_basics(pos[1] as int);
                            assert(cell_pos[0] == pos[0] && cell_pos[1] == pos[1]);
                        }
                        self.qtree.insert(level, cell_pos, pix);
                        proof {
                            if t0.consistent(&c0) && pix != CellState::Mixed {
                                QTree::lemma_set_bottom_consistent(t0, self.qtree, &c0, &c1, pos, pix);
                            }
                        }
                    } else {
                        self.qtree.insert(level, cell_pos, CellState::Mixed);
                        let ghost t1 = self.qtree;
                        proof {
                            lemma_cell_pos_range(t0, pos, level as int, c0.spec_size());
                        }
                        self.qtree.recurse_update(level, cell_pos, &self.cache_map);
                        proof {
                            if t0.consistent(&c0) && pix != CellState::Mixed {
                                QTree::lemma_rebuild_consistent(t0, t1, self.qtree, &c0, &c1, pos, pix, level as int, cell_pos);
                            }
                        }
                    }
                    let ghost tb = self.qtree;
                    self.qtree.try_merge(self.qtree.toplevel, pos);
                    proof {
                        assert(self.qtree.cells() =~= merged(tb.cells(), tb.toplevel as int, pos[0] as int, pos[1] as int));
                        lemma_merged_idempotent(tb.cells(), tb.toplevel as int, pos[0] as int, pos[1] as int);
                        if old(self).consistent() && pix != CellState::Mixed {
                            self.lemma_lookup_agrees(pos[0] as int, pos[1] as int);
                            assert([pos[0] as int as i32, pos[1] as int as i32] =~= pos);
                        }
                    }
                    return Ok(());
                }
            }
            if level == 0 {
                proof {
                    if t0.consistent(&c0) {
                        t0.lemma_root_region(&c0, pos[0] as int, pos[1] as int);
                        assert(t0.pixel_built(&c0, 0, pos[0] as int, pos[1] as int));
                        assert(!t0.leaf_of(pos[0] as int, pos[1] as int, 0));
                        assert(false);
                    }
                }
                proof {
                    reveal_strlit("Could not find a cell to update");
                    reveal_strlit("Out of bounds!");
                    assert("Could not find a cell to update"@.len() != "Out of bounds!"@.len());
                }
                let e = String::from_str("Could not find a cell to update");
                proof {
                    assert(e@ != "Out of bounds!"@);
                }
                return Err(e);
            }
            proof {
                lemma_div_half(pos[0] as int, t0.toplevel as int, level as int);
                lemma_div_half(pos[1] as int, t0.toplevel as int, level as int);
                vstd::arithmetic::power2::lemma_pow2_pos((t0.toplevel - level) as nat);
                vstd::arithmetic::div_mod::lemma_div_pos_is_pos(pos[0] as int, t0.side(level as int));
                vstd::arithmetic::div_mod::lemma_div_pos_is_pos(pos[1] as int, t0.side(level as int));
                assert(cell_pos[0] >= 0 && cell_pos[1] >= 0);
            }
            level -= 1;
            cell_pos = [cell_pos[0] / 2, cell_pos[1] / 2];
        }
    }

    pub fn finish_update(&mut self)
        requires
            old(self).cache().wf(),
        ensures
            final(self).tree() == old(self).tree(),
            final(self).cache().wf(),
            forall|x: int, y: int| #[trigger] final(self).cache().pixel(x, y) == old(self).cache().pixel(x, y),
            final(self).cache().indices() == old(self).cache().indices(),
            final(self).cache().spec_size() == old(self).cache().spec_size(),
            old(self).consistent() ==> final(self).consistent(),
            match old(self).cache().snapshot() {
                None => final(self).cache() == old(self).cache(),
                Some(prev) => {
                    let c = old(self).cache();
                    let n = if prev.len() < c.indices().len() { prev.len() } else { c.indices().len() };
                    &&& final(self).cache().snapshot() matches Some(next)
                    &&& next.len() == prev.len()
                    &&& forall|i: int| 0 <= i < prev.len() ==>
                        #[trigger] next[i] == if i < n { c.indices()[i] } else { prev[i] }
                    &&& forall|x: int, y: int| c.in_bounds(x, y) ==>
                        #[trigger] final(self).cache().fresh_ticks(x, y) == cache_map::aged_ticks(
                            c.fresh_ticks(x, y),
                            x + y * c.spec_size() < n && prev[x + y * c.spec_size()] != c.indices()[x + y * c.spec_size()],
                        )
                },
            },
    {
        self.cache_map.finish_update();
        proof {
            if old(self).consistent() {
                QTree::lemma_same_pixels_consistent(self.qtree, &old(self).cache_map, &self.cache_map);
            }
        }
    }

    /// The quad tree finds an obstacle cell at pixel `(x, y)`.
    pub open spec fn obstacle_at(&self, x: int, y: int) -> bool {
        self.tree().lookup([x as i32, y as i32]) matches Some((_, CellState::Obstacle))
    }

    /// Whether the bottom-level position `pos` has a uniform cell, and its level and state.
    pub fn find_by_idx(&self, pos: [i32; 2]) -> (res: Option<(usize, CellState)>)
        requires
            self.tree().shallow(),
        ensures
            res == self.tree().lookup(pos),
    {
        self.qtree.find_by_idx(pos)
    }

    /// Finds a path of passable cells between the cells holding the bottom-level positions
    /// `start` and `end` (see `QTree::path_find`).
    pub fn path_find<F: Fn(usize) -> bool>(&self, ignore: &F, start: [i32; 2], end: [i32; 2])
        -> (res: (Result<Vec<QTreeIdx>, PathFindError>, SearchTree))
        requires
            self.tree().shallow(),
            self.tree().levels.len() <= 30,
            deterministic(ignore),
        ensures
            path_found(&self.tree(), ignore, start, end, res),
    {
        self.qtree.path_find(ignore, start, end)
    }

    /// Whether some pixel of `rect` lies in an obstacle cell of the quad tree.
    pub fn check_collision(&self, rect: &Rect) -> (res: bool)
        requires
            self.tree().shallow(),
        ensures
            res == exists|x: int, y: int| in_rect(*rect, x, y)
                && #[trigger] self.obstacle_at(x, y),
    {
        let mut x = rect[0];
        while x < rect[2]
            invariant
                self.tree().shallow(),
                rect[0] <= x,
                x <= rect[2] || x == rect[0],
                forall|x2: int, y2: int| in_rect(*rect, x2, y2) && x2 < x ==>
                    !#[trigger] self.obstacle_at(x2, y2),
            decreases rect[2] - x,
        {
            let mut y = rect[1];
            while y < rect[3]
                invariant
                    self.tree().shallow(),
                    rect[0] <= x < rect[2],
                    rect[1] <= y,
                    y <= rect[3] || y == rect[1],
                    forall|x2: int, y2: int| in_rect(*rect, x2, y2) && (x2 < x || (x2 == x && y2 < y)) ==>
                        !#[trigger] self.obstacle_at(x2, y2),
                decreases rect[3] - y,
            {
                if let Some((_, cell)) = self.qtree.find_by_idx([x, y]) {
                    if matches!(cell, CellState::Obstacle) {
                        proof {
                            assert(in_rect(*rect, x as int, y as int));
                            assert(self.obstacle_at(x as int, y as int));
                        }
                        return true;
                    }
                }
                y += 1;
            }
            x += 1;
        }
        false
    }

    /// The lookup law: in a consistent searcher, every pixel of the board lies in a cell of
    /// uniform state, and that state is `Free` exactly when the pixel is free.
    pub proof fn lemma_lookup_agrees(&self, x: int, y: int)
        requires
            self.consistent(),
            self.cache().in_bounds(x, y),
        ensures
            self.tree().lookup([x as i32, y as i32]) matches Some((l, st)) && st != CellState::Mixed
                && (st == CellState::Free) == (self.cache().pixel(x, y) == CellState::Free),
    {
        let t = self.tree();
        let c = self.cache();
        let pos = [x as i32, y as i32];
        assert(c.spec_size() <= 0x4000_0000) by {
            vstd::arithmetic::power2::lemma2_to64();
            if t.toplevel < 30 { vstd::arithmetic::power2::lemma_pow2_strictly_increases(t.toplevel as nat, 30); }
        }
        t.lemma_root_region(&c, x, y);
        assert(t.pixel_built(&c, 0, x, y));
        let ls = choose|l: int| 0 <= l <= t.toplevel && #[trigger] t.leaf_of(x, y, l) && t.leaf_agrees(&c, x, y, l);
        assert(t.leaf_of(x, y, ls));
        assert forall|l: int| 0 <= l <= t.toplevel implies #[trigger] t.uniform_at(pos, l) == t.leaf_of(x, y, l) by {
            vstd::arithmetic::power2::lemma_pow2_pos((t.toplevel - l) as nat);
            assert(t.cell_of(pos, l) == (x / t.side(l), y / t.side(l)));
        }
        assert(t.uniform_at(pos, ls));
        assert(ls < t.levels.len());
        let l = choose|l: int| 0 <= l < t.levels.len() && #[trigger] t.uniform_at(pos, l)
            && forall|l2: int| l < l2 < t.levels.len() ==> !#[trigger] t.uniform_at(pos, l2);
        if ls > l {
            assert(!t.uniform_at(pos, ls));
        }
        assert(t.leaf_of(x, y, l));
        assert(l == ls);
    }
}

} // verus!
