//! The quad tree that divides the board into cells of uniform state for navigation.

use vstd::prelude::*;
use vstd::arithmetic::power2::pow2;
use std::collections::HashMap;
use super::CellState;
use super::cache_map::{CacheMap, in_rect};

verus! {

broadcast use vstd::std_specs::hash::group_hash_axioms;

/// Integer division rounding toward zero, as Rust's `/` on signed integers does.
pub open spec fn trunc_div(a: int, b: int) -> int {
    if a >= 0 { a / b } else { -((-a) / b) }
}

/// The key under which the cell `(x, y)` of a level is stored.
pub open spec fn cell_key(x: int, y: int) -> int {
    x * 0x1_0000_0000 + (y + 0x8000_0000)
}

/// Distinct cells of i32 coordinates have distinct keys.
pub proof fn lemma_cell_key_injective(x1: int, y1: int, x2: int, y2: int)
    requires
        i32::MIN <= x1 <= i32::MAX,
        i32::MIN <= y1 <= i32::MAX,
        i32::MIN <= x2 <= i32::MAX,
        i32::MIN <= y2 <= i32::MAX,
        cell_key(x1, y1) == cell_key(x2, y2),
    ensures
        x1 == x2,
        y1 == y2,
{
}

/// The key of the cell `pos`.
pub fn key_of(pos: [i32; 2]) -> (k: i64)
    ensures
        k == cell_key(pos[0] as int, pos[1] as int),
{
    (pos[0] as i64) * 0x1_0000_0000i64 + (pos[1] as i64 + 0x8000_0000i64)
}

/// `v` lies in the `a`-th run of `w` consecutive integers exactly when `v / w == a`.
pub proof fn lemma_div_range(v: int, w: int, a: int)
    requires
        0 < w,
    ensures
        (a * w <= v < (a + 1) * w) <==> v / w == a,
{
    vstd::arithmetic::div_mod::lemma_fundamental_div_mod(v, w);
    if a * w <= v < (a + 1) * w {
        assert((a + 1) * w == a * w + w) by (nonlinear_arith);
        vstd::arithmetic::div_mod::lemma_fundamental_div_mod_converse(v, w, a, v - a * w);
    }
    if v / w == a {
        assert(w * (v / w) == a * w) by (nonlinear_arith)
            requires
                v / w == a,
        ;
        assert((a + 1) * w == a * w + w) by (nonlinear_arith);
    }
}

/// Dividing by `2^a` and then by `2^b` divides by `2^(a + b)`.
pub proof fn lemma_div_pow2_compose(v: int, a: nat, b: nat)
    requires
        0 <= v,
    ensures
        (v / pow2(a) as int) / pow2(b) as int == v / pow2(a + b) as int,
        0 <= v / pow2(a) as int,
{
    vstd::arithmetic::power2::lemma_pow2_pos(a);
    vstd::arithmetic::power2::lemma_pow2_pos(b);
    vstd::arithmetic::power2::lemma_pow2_adds(a, b);
    vstd::arithmetic::div_mod::lemma_div_denominator(v, pow2(a) as int, pow2(b) as int);
    vstd::arithmetic::div_mod::lemma_div_pos_is_pos(v, pow2(a) as int);
}

/// The single cell of level 0.
pub open spec fn root_cell() -> [i32; 2] {
    [0i32, 0i32]
}

/// The cell `(x, y)` of level `l` lies in the subtree of the cell `parent` of `level`.
pub open spec fn in_subtree(level: int, parent: [i32; 2], l: int, x: int, y: int) -> bool {
    &&& level <= l
    &&& 0 <= x
    &&& 0 <= y
    &&& x / pow2((l - level) as nat) as int == parent[0]
    &&& y / pow2((l - level) as nat) as int == parent[1]
}

/// The side of a cell from which a neighbor is searched.
#[derive(Debug, Clone, Copy, PartialEq, Eq, Structural)]
pub enum Side {
    Left,
    Top,
    Right,
    Bottom,
}

/// The two children of cell `idx` that touch its `side`, in search order.
pub open spec fn side_children(idx: [i32; 2], side: Side) -> ([i32; 2], [i32; 2]) {
    let x = (idx[0] * 2) as i32;
    let y = (idx[1] * 2) as i32;
    let x1 = (idx[0] * 2 + 1) as i32;
    let y1 = (idx[1] * 2 + 1) as i32;
    match side {
        Side::Left => ([x, y], [x, y1]),
        Side::Top => ([x, y], [x1, y]),
        Side::Right => ([x1, y], [x1, y1]),
        Side::Bottom => ([x, y1], [x1, y1]),
    }
}

/// Whether four sibling cells share one state.
#[derive(Debug, PartialEq, Eq, Structural)]
pub enum Homogeneity {
    Homogeneous(CellState),
    Heterogeneous,
}

/// Folds one more sibling into the verdict so far: a missing sibling gives no verdict, equal
/// ones keep it, different ones make it `Heterogeneous`.
pub fn combine(acc: Option<Homogeneity>, cur: Option<Homogeneity>) -> (res: Option<Homogeneity>)
    ensures
        res == match (acc, cur) {
            (Some(a), Some(c)) => if a == c { Some(a) } else { Some(Homogeneity::Heterogeneous) },
            _ => None,
        },
{
    match (acc, cur) {
        (Some(a), Some(c)) => if a == c { Some(a) } else { Some(Homogeneity::Heterogeneous) },
        _ => None,
    }
}

/// The verdict on one sibling cell: its state, or none where it is missing.
pub open spec fn sibling_verdict(c: Option<CellState>) -> Option<Homogeneity> {
    match c {
        Some(st) => Some(Homogeneity::Homogeneous(st)),
        None => None,
    }
}

/// `combine` on verdicts.
pub open spec fn combined(acc: Option<Homogeneity>, cur: Option<Homogeneity>) -> Option<Homogeneity> {
    match (acc, cur) {
        (Some(a), Some(c)) => if a == c { Some(a) } else { Some(Homogeneity::Heterogeneous) },
        _ => None,
    }
}

/// The verdict on the four children of `par` at `level`, folded in the order
/// `(0, 0)`, `(0, 1)`, `(1, 0)`, `(1, 1)`.
pub open spec fn merge_verdict(c: spec_fn(int, int, int) -> Option<CellState>, level: int, px: int, py: int) -> Option<Homogeneity> {
    combined(
        combined(
            combined(sibling_verdict(c(level, 2 * px, 2 * py)), sibling_verdict(c(level, 2 * px, 2 * py + 1))),
            sibling_verdict(c(level, 2 * px + 1, 2 * py)),
        ),
        sibling_verdict(c(level, 2 * px + 1, 2 * py + 1)),
    )
}

/// The cells after the four children of `(px, py)` at `level` are merged into their parent,
/// which gets the state `s`.
pub open spec fn merge_once(c: spec_fn(int, int, int) -> Option<CellState>, level: int, px: int, py: int, s: CellState)
    -> spec_fn(int, int, int) -> Option<CellState>
{
    |l: int, x: int, y: int|
        if l == level && (x == 2 * px || x == 2 * px + 1) && (y == 2 * py || y == 2 * py + 1) {
            None
        } else if l == level - 1 && x == px && y == py {
            Some(s)
        } else {
            c(l, x, y)
        }
}

/// The cells after merging upwards from the cell `(x, y)` of `level`: where its four siblings
/// share a state they become their parent and the merge goes on from the parent; where one is
/// missing the merge goes on from the parent with nothing changed; where they differ it stops.
pub open spec fn merged(c: spec_fn(int, int, int) -> Option<CellState>, level: int, x: int, y: int)
    -> spec_fn(int, int, int) -> Option<CellState>
    decreases level,
{
    if level < 1 {
        c
    } else {
        match merge_verdict(c, level, x / 2, y / 2) {
            Some(Homogeneity::Homogeneous(s)) => merged(merge_once(c, level, x / 2, y / 2, s), level - 1, x / 2, y / 2),
            Some(Homogeneity::Heterogeneous) => c,
            None => merged(c, level - 1, x / 2, y / 2),
        }
    }
}

/// Merging upwards from a cell of `level` leaves the levels below it (larger numbers) alone.
pub proof fn lemma_merged_frame(c: spec_fn(int, int, int) -> Option<CellState>, level: int, x: int, y: int, l: int, x2: int, y2: int)
    requires
        l > level,
    ensures
        merged(c, level, x, y)(l, x2, y2) == c(l, x2, y2),
    decreases level,
{
    if level >= 1 {
        match merge_verdict(c, level, x / 2, y / 2) {
            Some(Homogeneity::Homogeneous(s)) => {
                lemma_merged_frame(merge_once(c, level, x / 2, y / 2, s), level - 1, x / 2, y / 2, l, x2, y2);
            },
            Some(Homogeneity::Heterogeneous) => {},
            None => {
                lemma_merged_frame(c, level - 1, x / 2, y / 2, l, x2, y2);
            },
        }
    }
}

/// Merging twice from the same cell merges no more than merging once: what one merge leaves
/// has nothing left to merge along that cell's ancestors.
pub proof fn lemma_merged_idempotent(c: spec_fn(int, int, int) -> Option<CellState>, level: int, x: int, y: int)
    ensures
        merged(merged(c, level, x, y), level, x, y) == merged(c, level, x, y),
    decreases level,
{
    if level >= 1 {
        let px = x / 2;
        let py = y / 2;
        let m = merged(c, level, x, y);
        match merge_verdict(c, level, px, py) {
            Some(Homogeneity::Homogeneous(s)) => {
                let c1 = merge_once(c, level, px, py, s);
                lemma_merged_idempotent(c1, level - 1, px, py);
                lemma_merged_frame(c1, level - 1, px, py, level, 2 * px, 2 * py);
                lemma_merged_frame(c1, level - 1, px, py, level, 2 * px, 2 * py + 1);
                lemma_merged_frame(c1, level - 1, px, py, level, 2 * px + 1, 2 * py);
                lemma_merged_frame(c1, level - 1, px, py, level, 2 * px + 1, 2 * py + 1);
                assert(merge_verdict(m, level, px, py) is None);
            },
            Some(Homogeneity::Heterogeneous) => {},
            None => {
                lemma_merged_idempotent(c, level - 1, px, py);
                lemma_merged_frame(c, level - 1, px, py, level, 2 * px, 2 * py);
                lemma_merged_frame(c, level - 1, px, py, level, 2 * px, 2 * py + 1);
                lemma_merged_frame(c, level - 1, px, py, level, 2 * px + 1, 2 * py);
                lemma_merged_frame(c, level - 1, px, py, level, 2 * px + 1, 2 * py + 1);
                assert(merge_verdict(m, level, px, py) is None);
            },
        }
    }
}

/// A quad tree to divide space for navigation.
///
/// Level `l` holds cells of side `2^(toplevel - l)` pixels; cell `(x, y)` of level `l` covers
/// the pixels from `(x, y) * side` up to, and not including, `(x + 1, y + 1) * side`. A cell
/// holds either a uniform state or `Mixed`, which means that its four children are to be
/// consulted instead.
#[derive(Debug)]
pub struct QTree {
    pub toplevel: usize,
    pub levels: Vec<HashMap<i64, CellState>>,
}

impl QTree {
    /// The state stored for cell `(x, y)` of `level`, if any.
    pub open spec fn cell(&self, level: int, x: int, y: int) -> Option<CellState> {
        if 0 <= level < self.levels.len() && i32::MIN <= x <= i32::MAX && i32::MIN <= y <= i32::MAX
            && self.levels@[level]@.contains_key(cell_key(x, y) as i64) {
            Some(self.levels@[level]@[cell_key(x, y) as i64])
        } else {
            None
        }
    }

    pub fn new() -> (res: Self)
        ensures
            res.toplevel == 0,
            res.levels.len() == 0,
    {
        Self { toplevel: 0, levels: Vec::new() }
    }

    /// The side, in pixels, of the cells of `level`: `2^(toplevel - level)`.
    pub fn width(&self, level: usize) -> (res: usize)
        requires
            level <= self.toplevel,
            self.toplevel <= 30,
        ensures
            res == pow2((self.toplevel - level) as nat),
    {
        proof {
            vstd::arithmetic::power2::lemma2_to64();
            if self.toplevel - level < 30 {
                vstd::arithmetic::power2::lemma_pow2_strictly_increases((self.toplevel - level) as nat, 30);
            }
            vstd::bits::lemma_usize_shl_is_mul(1, (self.toplevel - level) as usize);
        }
        1 << (self.toplevel - level)
    }

    /// Stores `state` for the cell `pos` of `level`, creating the missing levels.
    pub fn insert(&mut self, level: usize, pos: [i32; 2], state: CellState)
        requires
            level < usize::MAX,
        ensures
            final(self).toplevel == old(self).toplevel,
            final(self).levels.len() == if old(self).levels.len() <= level { level + 1 } else { old(self).levels.len() as int },
            final(self).cell(level as int, pos[0] as int, pos[1] as int) == Some(state),
            forall|l: int, x: int, y: int| !(l == level && x == pos[0] && y == pos[1]) ==>
                #[trigger] final(self).cell(l, x, y) == old(self).cell(l, x, y),
    {
        while self.levels.len() <= level
            invariant
                self.toplevel == old(self).toplevel,
                old(self).levels.len() <= self.levels.len(),
                old(self).levels.len() <= level ==> self.levels.len() <= level + 1,
                old(self).levels.len() > level ==> self.levels.len() == old(self).levels.len(),
                forall|l: int| 0 <= l < old(self).levels.len() ==> #[trigger] self.levels@[l] == old(self).levels@[l],
                forall|l: int| old(self).levels.len() <= l < self.levels.len() ==> #[trigger] self.levels@[l]@ == Map::<i64, CellState>::empty(),
            decreases level + 1 - self.levels.len(),
        {
            self.levels.push(HashMap::new());
        }
        let k = key_of(pos);
        self.levels[level].insert(k, state);
        proof {
            assert forall|l: int, x: int, y: int| !(l == level && x == pos[0] && y == pos[1]) implies
                #[trigger] self.cell(l, x, y) == old(self).cell(l, x, y) by {
                if l == level && i32::MIN <= x <= i32::MAX && i32::MIN <= y <= i32::MAX && cell_key(x, y) == k {
                    lemma_cell_key_injective(x, y, pos[0] as int, pos[1] as int);
                }
            }
        }
    }

    /// Scales the bottom-level index `pos` to the index of the cell of `level` that holds it.
    pub fn to_idx(&self, pos: [i32; 2], level: usize) -> (res: [i32; 2])
        requires
            level <= self.toplevel,
            self.toplevel <= 30,
        ensures
            res[0] == trunc_div(pos[0] as int, pow2((self.toplevel - level) as nat) as int),
            res[1] == trunc_div(pos[1] as int, pow2((self.toplevel - level) as nat) as int),
    {
        let w = self.width(level) as i32;
        proof {
            vstd::arithmetic::power2::lemma2_to64();
            vstd::arithmetic::power2::lemma_pow2_pos((self.toplevel - level) as nat);
            if self.toplevel - level < 30 {
                vstd::arithmetic::power2::lemma_pow2_strictly_increases((self.toplevel - level) as nat, 30);
            }
        }
        [pos[0] / w, pos[1] / w]
    }

    /// The index of the cell of `level` that holds the bottom-level position `pos`, as `to_idx`
    /// computes it.
    pub open spec fn cell_of(&self, pos: [i32; 2], level: int) -> (int, int) {
        (trunc_div(pos[0] as int, pow2((self.toplevel - level) as nat) as int),
         trunc_div(pos[1] as int, pow2((self.toplevel - level) as nat) as int))
    }

    /// The cell of `level` that holds `pos` has a uniform state (present and not `Mixed`).
    pub open spec fn uniform_at(&self, pos: [i32; 2], level: int) -> bool {
        let c = self.cell_of(pos, level);
        self.cell(level, c.0, c.1) matches Some(s) && s != CellState::Mixed
    }

    /// The levels are few enough for every cell side to be a power of two of at most 2^30.
    pub open spec fn shallow(&self) -> bool {
        &&& self.toplevel <= 30
        &&& self.levels.len() <= self.toplevel + 1
    }

    /// The deepest level whose cell holding the bottom-level position `pos` has a uniform
    /// state, with that state; `None` when no level has one.
    pub open spec fn lookup(&self, pos: [i32; 2]) -> Option<(usize, CellState)> {
        if exists|l: int| 0 <= l < self.levels.len() && #[trigger] self.uniform_at(pos, l) {
            let l = choose|l: int| 0 <= l < self.levels.len() && #[trigger] self.uniform_at(pos, l)
                && forall|l2: int| l < l2 < self.levels.len() ==> !#[trigger] self.uniform_at(pos, l2);
            Some((l as usize, self.cell(l, self.cell_of(pos, l).0, self.cell_of(pos, l).1).unwrap()))
        } else {
            None
        }
    }

    /// Finds the deepest level whose cell holding the bottom-level position `pos` has a
    /// uniform state, and returns that level with the state.
    pub fn find_by_idx(&self, pos: [i32; 2]) -> (res: Option<(usize, CellState)>)
        requires
            self.shallow(),
        ensures
            match res {
                Some((l, s)) => {
                    &&& l < self.levels.len()
                    &&& self.uniform_at(pos, l as int)
                    &&& self.cell(l as int, self.cell_of(pos, l as int).0, self.cell_of(pos, l as int).1) == Some(s)
                    &&& forall|l2: int| l < l2 < self.levels.len() ==> !#[trigger] self.uniform_at(pos, l2)
                },
                None => forall|l2: int| 0 <= l2 < self.levels.len() ==> !#[trigger] self.uniform_at(pos, l2),
            },
            res == self.lookup(pos),
    {
        let mut level = self.levels.len();
        while level > 0
            invariant
                self.shallow(),
                level <= self.levels.len(),
                forall|l2: int| level <= l2 < self.levels.len() ==> !#[trigger] self.uniform_at(pos, l2),
            decreases level,
        {
            level -= 1;
            let cell_pos = self.to_idx(pos, level);
            let k = key_of(cell_pos);
            let found = match self.levels[level].get(&k) {
                Some(CellState::Obstacle) => Some((level, CellState::Obstacle)),
                Some(CellState::Free) => Some((level, CellState::Free)),
                Some(CellState::Occupied(id)) => Some((level, CellState::Occupied(*id))),
                _ => None,
            };
            if found.is_some() {
                proof {
                    assert(self.uniform_at(pos, level as int));
                    let l = choose|l: int| 0 <= l < self.levels.len() && #[trigger] self.uniform_at(pos, l)
                        && forall|l2: int| l < l2 < self.levels.len() ==> !#[trigger] self.uniform_at(pos, l2);
                    if l < level {
                        assert(!self.uniform_at(pos, level as int));
                    }
                    assert(l == level);
                }
                return found;
            }
        }
        None
    }

    /// The side, in pixels, of the cells of level `l`.
    pub open spec fn side(&self, l: int) -> int {
        pow2((self.toplevel - l) as nat) as int
    }

    /// The pixel `(px, py)` lies in the cell `parent` of `level`.
    pub open spec fn in_region(&self, level: int, parent: [i32; 2], px: int, py: int) -> bool {
        &&& 0 <= px
        &&& 0 <= py
        &&& px / self.side(level) == parent[0]
        &&& py / self.side(level) == parent[1]
    }

    /// The cell of level `l` that holds pixel `(px, py)` has a uniform state.
    pub open spec fn leaf_of(&self, px: int, py: int, l: int) -> bool {
        self.cell(l, px / self.side(l), py / self.side(l)) matches Some(s) && s != CellState::Mixed
    }

    /// The state of the cell of level `l` that holds pixel `(px, py)` tells truly whether the
    /// pixel is free.
    pub open spec fn leaf_agrees(&self, cache: &CacheMap, px: int, py: int, l: int) -> bool {
        self.cell(l, px / self.side(l), py / self.side(l)) matches Some(s)
            && ((s == CellState::Free) == (cache.pixel(px, py) == CellState::Free))
    }

    /// Every pixel of the cell `parent` of `level` has exactly one uniform cell among the levels
    /// from `level` down, that cell's state agrees with the pixel, and no cell lies below it.
    pub open spec fn built(&self, cache: &CacheMap, level: int, parent: [i32; 2]) -> bool {
        forall|px: int, py: int| #![trigger self.in_region(level, parent, px, py)]
            self.in_region(level, parent, px, py) && cache.in_bounds(px, py) ==> self.pixel_built(cache, level, px, py)
    }

    /// Pixel `(px, py)` has exactly one uniform cell among the levels from `level` down, that
    /// cell's state agrees with the pixel, and no cell lies below it.
    pub open spec fn pixel_built(&self, cache: &CacheMap, level: int, px: int, py: int) -> bool {
        &&& exists|l: int| level <= l <= self.toplevel && #[trigger] self.leaf_of(px, py, l) && self.leaf_agrees(cache, px, py, l)
        &&& forall|l1: int, l2: int| level <= l1 <= self.toplevel && level <= l2 <= self.toplevel && #[trigger] self.leaf_of(px, py, l1)
            && #[trigger] self.leaf_of(px, py, l2) ==> l1 == l2
        &&& forall|l1: int, l2: int| level <= l1 < l2 <= self.toplevel && #[trigger] self.leaf_of(px, py, l1)
            ==> #[trigger] self.cell(l2, px / self.side(l2), py / self.side(l2)) is None
    }

    /// No cell lies strictly below the cell `parent` of `level`.
    pub open spec fn empty_below(&self, cache: &CacheMap, level: int, parent: [i32; 2]) -> bool {
        forall|px: int, py: int, l: int| self.in_region(level, parent, px, py) && cache.in_bounds(px, py)
            && level < l <= self.toplevel ==> #[trigger] self.cell(l, px / self.side(l), py / self.side(l)) is None
    }

    /// No pixel of the cell `parent` of `level` is `Mixed` in the cache.
    pub open spec fn region_unmixed(&self, cache: &CacheMap, level: int, parent: [i32; 2]) -> bool {
        forall|px: int, py: int| self.in_region(level, parent, px, py) && cache.in_bounds(px, py)
            ==> #[trigger] cache.pixel(px, py) != CellState::Mixed
    }

    /// The rectangle of pixels that the cell `parent` of `level` covers.
    pub open spec fn cell_rect(&self, level: int, parent: [i32; 2]) -> [i32; 4] {
        let w = self.side(level);
        [(parent[0] * w) as i32, (parent[1] * w) as i32, ((parent[0] + 1) * w) as i32, ((parent[1] + 1) * w) as i32]
    }

    /// What `recurse_update` stores for the cell `parent` of `level`.
    pub open spec fn rebuilt_state(&self, cache: &CacheMap, level: int, parent: [i32; 2]) -> CellState {
        let q = cache.query_spec(self.cell_rect(level, parent));
        if self.toplevel <= level || q != CellState::Mixed { q } else { CellState::Mixed }
    }

    /// Facts about the pixel rectangle of a cell.
    proof fn lemma_cell_rect(&self, level: int, parent: [i32; 2])
        requires
            self.toplevel <= 30,
            0 <= level <= self.toplevel,
            0 <= parent[0] < pow2(level as nat),
            0 <= parent[1] < pow2(level as nat),
        ensures
            ({
                let r = self.cell_rect(level, parent);
                let w = self.side(level);
                &&& 1 <= w <= pow2(self.toplevel as nat) <= 0x4000_0000
                &&& r[0] == parent[0] * w
                &&& r[2] == r[0] + w
                &&& r[3] == r[1] + w
                &&& (parent[0] + 1) * w <= pow2(self.toplevel as nat)
                &&& (parent[1] + 1) * w <= pow2(self.toplevel as nat)
                &&& r[1] == parent[1] * w
                &&& r[2] == (parent[0] + 1) * w
                &&& r[3] == (parent[1] + 1) * w
                &&& 0 <= r[0] < r[2] <= pow2(self.toplevel as nat)
                &&& 0 <= r[1] < r[3] <= pow2(self.toplevel as nat)
                &&& forall|px: int, py: int| 0 <= px && 0 <= py ==>
                    (#[trigger] in_rect(r, px, py) <==> self.in_region(level, parent, px, py))
            }),
    {
        let w = self.side(level);
        let top = pow2(self.toplevel as nat) as int;
        vstd::arithmetic::power2::lemma_pow2_pos(level as nat);
        let pl = pow2(level as nat) as int;
        vstd::arithmetic::power2::lemma_pow2_pos((self.toplevel - level) as nat);
        vstd::arithmetic::power2::lemma_pow2_adds(level as nat, (self.toplevel - level) as nat);
        assert(top == pl * w);
        assert(w <= pl * w) by (nonlinear_arith) requires 1 <= pl, 0 < w;
        vstd::arithmetic::power2::lemma2_to64();
        if self.toplevel < 30 {
            vstd::arithmetic::power2::lemma_pow2_strictly_increases(self.toplevel as nat, 30);
        }
        assert((parent[0] + 1) * w <= pl * w) by (nonlinear_arith)
            requires parent[0] + 1 <= pl, 0 < w;
        assert((parent[1] + 1) * w <= pl * w) by (nonlinear_arith)
            requires parent[1] + 1 <= pl, 0 < w;
        assert(0 <= parent[0] * w) by (nonlinear_arith)
            requires 0 <= parent[0], 0 < w;
        assert(0 <= parent[1] * w) by (nonlinear_arith)
            requires 0 <= parent[1], 0 < w;
        assert((parent[0] + 1) * w == parent[0] * w + w) by (nonlinear_arith);
        assert((parent[1] + 1) * w == parent[1] * w + w) by (nonlinear_arith);
        let r = self.cell_rect(level, parent);
        assert forall|px: int, py: int| 0 <= px && 0 <= py implies
            (#[trigger] in_rect(r, px, py) <==> self.in_region(level, parent, px, py)) by {
            lemma_div_range(px, w, parent[0] as int);
            lemma_div_range(py, w, parent[1] as int);
        }
    }

    /// The cell of level `l` that holds a pixel of the cell `c` of `lc` lies in the subtree of `c`.
    proof fn lemma_pixel_cell_in_subtree(&self, lc: int, c: [i32; 2], l: int, px: int, py: int)
        requires
            0 <= lc <= l <= self.toplevel,
            self.in_region(lc, c, px, py),
        ensures
            in_subtree(lc, c, l, px / self.side(l), py / self.side(l)),
    {
        lemma_div_pow2_compose(px, (self.toplevel - l) as nat, (l - lc) as nat);
        lemma_div_pow2_compose(py, (self.toplevel - l) as nat, (l - lc) as nat);
        assert((self.toplevel - l) as nat + (l - lc) as nat == (self.toplevel - lc) as nat);
    }

    /// A pixel of the cell `parent` of `level` lies in exactly the child of `parent` that
    /// division by the child side names, and that child is one of the four children.
    proof fn lemma_pixel_child(&self, level: int, parent: [i32; 2], px: int, py: int)
        requires
            0 <= level < self.toplevel,
            self.in_region(level, parent, px, py),
        ensures
            ({
                let cx = px / self.side(level + 1);
                let cy = py / self.side(level + 1);
                &&& cx == 2 * parent[0] || cx == 2 * parent[0] + 1
                &&& cy == 2 * parent[1] || cy == 2 * parent[1] + 1
            }),
    {
        let cx = px / self.side(level + 1);
        let cy = py / self.side(level + 1);
        lemma_div_pow2_compose(px, (self.toplevel - (level + 1)) as nat, 1);
        lemma_div_pow2_compose(py, (self.toplevel - (level + 1)) as nat, 1);
        assert((self.toplevel - (level + 1)) as nat + 1 == (self.toplevel - level) as nat);
        assert(pow2(1) == 2) by { vstd::arithmetic::power2::lemma2_to64(); }
        lemma_div_range(cx, 2, parent[0] as int);
        lemma_div_range(cy, 2, parent[1] as int);
    }

    /// The subtree of a child of `parent` lies in the subtree of `parent`.
    proof fn lemma_child_subtree(level: int, parent: [i32; 2], child: [i32; 2], l: int, x: int, y: int)
        requires
            0 <= level,
            child[0] == 2 * parent[0] || child[0] == 2 * parent[0] + 1,
            child[1] == 2 * parent[1] || child[1] == 2 * parent[1] + 1,
            in_subtree(level + 1, child, l, x, y),
        ensures
            in_subtree(level, parent, l, x, y),
    {
        lemma_div_pow2_compose(x, (l - (level + 1)) as nat, 1);
        lemma_div_pow2_compose(y, (l - (level + 1)) as nat, 1);
        assert((l - (level + 1)) as nat + 1 == (l - level) as nat);
        assert(pow2(1) == 2) by { vstd::arithmetic::power2::lemma2_to64(); }
        lemma_div_range(child[0] as int, 2, parent[0] as int);
        lemma_div_range(child[1] as int, 2, parent[1] as int);
    }

    /// A pixel of the cell `child` of `lc` lies in the cell `parent` of `lc - 1`.
    proof fn lemma_child_region(&self, lc: int, parent: [i32; 2], child: [i32; 2], px: int, py: int)
        requires
            1 <= lc <= self.toplevel,
            child[0] == 2 * parent[0] || child[0] == 2 * parent[0] + 1,
            child[1] == 2 * parent[1] || child[1] == 2 * parent[1] + 1,
            self.in_region(lc, child, px, py),
        ensures
            self.in_region(lc - 1, parent, px, py),
    {
        lemma_div_pow2_compose(px, (self.toplevel - lc) as nat, 1);
        lemma_div_pow2_compose(py, (self.toplevel - lc) as nat, 1);
        assert((self.toplevel - lc) as nat + 1 == (self.toplevel - (lc - 1)) as nat);
        assert(pow2(1) == 2) by { vstd::arithmetic::power2::lemma2_to64(); }
        lemma_div_range(child[0] as int, 2, parent[0] as int);
        lemma_div_range(child[1] as int, 2, parent[1] as int);
    }

    /// Whether pixel `(px, py)` is built depends only on the cells that hold it.
    pub proof fn lemma_pixel_built_frame(t1: &QTree, t2: &QTree, cache: &CacheMap, level: int, px: int, py: int)
        requires
            t1.toplevel == t2.toplevel,
            forall|l: int| level <= l <= t1.toplevel ==>
                #[trigger] t2.cell(l, px / t1.side(l), py / t1.side(l)) == t1.cell(l, px / t1.side(l), py / t1.side(l)),
        ensures
            t1.pixel_built(cache, level, px, py) ==> t2.pixel_built(cache, level, px, py),
    {
        assert forall|l: int| level <= l <= t1.toplevel implies
            (#[trigger] t2.leaf_of(px, py, l) == t1.leaf_of(px, py, l) && t2.leaf_agrees(cache, px, py, l) == t1.leaf_agrees(cache, px, py, l)) by {
            assert(t2.cell(l, px / t1.side(l), py / t1.side(l)) == t1.cell(l, px / t1.side(l), py / t1.side(l)));
        }
        if t1.pixel_built(cache, level, px, py) {
            let l = choose|l: int| level <= l <= t1.toplevel && #[trigger] t1.leaf_of(px, py, l) && t1.leaf_agrees(cache, px, py, l);
            assert(t2.leaf_of(px, py, l));
            assert forall|l1: int, l2: int| level <= l1 <= t2.toplevel && level <= l2 <= t2.toplevel && #[trigger] t2.leaf_of(px, py, l1)
                    && #[trigger] t2.leaf_of(px, py, l2) implies l1 == l2 by {
                assert(t1.leaf_of(px, py, l1));
                assert(t1.leaf_of(px, py, l2));
            }
            assert forall|l1: int, l2: int| level <= l1 < l2 <= t2.toplevel && #[trigger] t2.leaf_of(px, py, l1)
                    implies #[trigger] t2.cell(l2, px / t2.side(l2), py / t2.side(l2)) is None by {
                assert(t1.leaf_of(px, py, l1));
                assert(t2.cell(l2, px / t1.side(l2), py / t1.side(l2)) == t1.cell(l2, px / t1.side(l2), py / t1.side(l2)));
            }
        }
    }

    /// `built` and `empty_below` depend only on the cells of the subtree.
    proof fn lemma_subtree_frame(t1: &QTree, t2: &QTree, cache: &CacheMap, level: int, c: [i32; 2])
        requires
            t1.toplevel == t2.toplevel,
            0 <= level <= t1.toplevel,
            forall|l: int, x: int, y: int| in_subtree(level, c, l, x, y) ==> #[trigger] t2.cell(l, x, y) == t1.cell(l, x, y),
        ensures
            t1.built(cache, level, c) ==> t2.built(cache, level, c),
            t1.empty_below(cache, level, c) ==> t2.empty_below(cache, level, c),
    {
        assert forall|px: int, py: int| t1.in_region(level, c, px, py) implies
            forall|l: int| level <= l <= t1.toplevel ==>
                #[trigger] t2.cell(l, px / t1.side(l), py / t1.side(l)) == t1.cell(l, px / t1.side(l), py / t1.side(l)) by {
            assert forall|l: int| level <= l <= t1.toplevel implies
                #[trigger] t2.cell(l, px / t1.side(l), py / t1.side(l)) == t1.cell(l, px / t1.side(l), py / t1.side(l)) by {
                t1.lemma_pixel_cell_in_subtree(level, c, l, px, py);
            }
        }
        if t1.built(cache, level, c) {
            assert forall|px: int, py: int| #![trigger t2.in_region(level, c, px, py)]
                t2.in_region(level, c, px, py) && cache.in_bounds(px, py) implies t2.pixel_built(cache, level, px, py) by {
                assert(t1.in_region(level, c, px, py));
                Self::lemma_pixel_built_frame(t1, t2, cache, level, px, py);
            }
        }
        if t1.empty_below(cache, level, c) {
            assert forall|px: int, py: int, l: int| t2.in_region(level, c, px, py) && cache.in_bounds(px, py)
                && level < l <= t2.toplevel implies #[trigger] t2.cell(l, px / t2.side(l), py / t2.side(l)) is None by {
                assert(t1.in_region(level, c, px, py));
                assert(t1.cell(l, px / t1.side(l), py / t1.side(l)) is None);
            }
        }
    }

    /// `ch` is a child of `parent` whose subtree is ready to be rebuilt after `parent` was marked
    /// `Mixed` (state `t1`) in the tree `t0`.
    pub open spec fn child_ready(t0: QTree, t1: QTree, cache: &CacheMap, level: int, parent: [i32; 2], ch: [i32; 2]) -> bool {
        &&& (ch[0] == 2 * parent[0] || ch[0] == 2 * parent[0] + 1)
        &&& (ch[1] == 2 * parent[1] || ch[1] == 2 * parent[1] + 1)
        &&& 0 <= ch[0] < pow2((level + 1) as nat)
        &&& 0 <= ch[1] < pow2((level + 1) as nat)
        &&& (t0.empty_below(cache, level, parent) && t0.region_unmixed(cache, level, parent)) ==>
            (t1.empty_below(cache, level + 1, ch) && t1.region_unmixed(cache, level + 1, ch))
    }

    /// The subtree of the child `ch` is as in `t1`.
    pub open spec fn child_untouched(t1: QTree, t: QTree, level: int, ch: [i32; 2]) -> bool {
        forall|l: int, x: int, y: int| in_subtree(level + 1, ch, l, x, y) ==> #[trigger] t.cell(l, x, y) == t1.cell(l, x, y)
    }

    /// The subtree of the child `ch` has been rebuilt.
    pub open spec fn child_done(t0: QTree, t: QTree, cache: &CacheMap, level: int, parent: [i32; 2], ch: [i32; 2]) -> bool {
        (t0.empty_below(cache, level, parent) && t0.region_unmixed(cache, level, parent)) ==> t.built(cache, level + 1, ch)
    }

    proof fn lemma_child_ready(t0: QTree, t1: QTree, cache: &CacheMap, level: int, parent: [i32; 2], ch: [i32; 2])
        requires
            t0.toplevel == t1.toplevel,
            0 <= level < t0.toplevel,
            (ch[0] == 2 * parent[0] || ch[0] == 2 * parent[0] + 1),
            (ch[1] == 2 * parent[1] || ch[1] == 2 * parent[1] + 1),
            0 <= parent[0] < pow2(level as nat),
            0 <= parent[1] < pow2(level as nat),
            pow2((level + 1) as nat) == 2 * pow2(level as nat),
            forall|l: int, x: int, y: int| !(l == level && x == parent[0] && y == parent[1]) ==>
                #[trigger] t1.cell(l, x, y) == t0.cell(l, x, y),
        ensures
            Self::child_ready(t0, t1, cache, level, parent, ch),
    {
        if t0.empty_below(cache, level, parent) && t0.region_unmixed(cache, level, parent) {
            assert forall|px: int, py: int, l: int| t1.in_region(level + 1, ch, px, py) && cache.in_bounds(px, py)
                && level + 1 < l <= t1.toplevel implies #[trigger] t1.cell(l, px / t1.side(l), py / t1.side(l)) is None by {
                t0.lemma_child_region(level + 1, parent, ch, px, py);
                assert(t0.cell(l, px / t0.side(l), py / t0.side(l)) is None);
            }
            assert forall|px: int, py: int| t1.in_region(level + 1, ch, px, py) && cache.in_bounds(px, py)
                implies #[trigger] cache.pixel(px, py) != CellState::Mixed by {
                t0.lemma_child_region(level + 1, parent, ch, px, py);
            }
        }
    }

    proof fn lemma_mixed_built(t0: QTree, t1: QTree, fin: QTree, cache: &CacheMap, level: int, parent: [i32; 2], c: [[i32; 2]; 4])
        requires
            t0.toplevel == fin.toplevel,
            0 <= level < fin.toplevel,
            fin.cell(level, parent[0] as int, parent[1] as int) == Some(CellState::Mixed),
            c[0][0] == 2 * parent[0] && c[0][1] == 2 * parent[1],
            c[1][0] == 2 * parent[0] && c[1][1] == 2 * parent[1] + 1,
            c[2][0] == 2 * parent[0] + 1 && c[2][1] == 2 * parent[1],
            c[3][0] == 2 * parent[0] + 1 && c[3][1] == 2 * parent[1] + 1,
            forall|i: int| 0 <= i < 4 ==> #[trigger] Self::child_done(t0, fin, cache, level, parent, c[i]),
        ensures
            (t0.empty_below(cache, level, parent) && t0.region_unmixed(cache, level, parent)) ==> fin.built(cache, level, parent),
    {
        if t0.empty_below(cache, level, parent) && t0.region_unmixed(cache, level, parent) {
            assert forall|px: int, py: int| #![trigger fin.in_region(level, parent, px, py)]
                fin.in_region(level, parent, px, py) && cache.in_bounds(px, py) implies fin.pixel_built(cache, level, px, py) by {
                fin.lemma_pixel_child(level, parent, px, py);
                let ch = [(px / fin.side(level + 1)) as i32, (py / fin.side(level + 1)) as i32];
                let i: int = if ch[0] == 2 * parent[0] { if ch[1] == 2 * parent[1] { 0 } else { 1 } }
                    else { if ch[1] == 2 * parent[1] { 2 } else { 3 } };
                assert(c[i] == ch);
                assert(Self::child_done(t0, fin, cache, level, parent, c[i]));
                assert(fin.in_region(level + 1, ch, px, py));
                assert(fin.pixel_built(cache, level + 1, px, py));
                assert(!fin.leaf_of(px, py, level));
                let l = choose|l: int| level + 1 <= l <= fin.toplevel && #[trigger] fin.leaf_of(px, py, l) && fin.leaf_agrees(cache, px, py, l);
                assert(fin.leaf_of(px, py, l));
                assert forall|l1: int, l2: int| level <= l1 <= fin.toplevel && level <= l2 <= fin.toplevel && #[trigger] fin.leaf_of(px, py, l1)
                        && #[trigger] fin.leaf_of(px, py, l2) implies l1 == l2 by {
                    if l1 != level && l2 != level {
                        assert(level + 1 <= l1 && level + 1 <= l2);
                    }
                }
                assert forall|l1: int, l2: int| level <= l1 < l2 <= fin.toplevel && #[trigger] fin.leaf_of(px, py, l1)
                        implies #[trigger] fin.cell(l2, px / fin.side(l2), py / fin.side(l2)) is None by {
                    assert(l1 != level);
                }
            }
        }
    }

    /// Storing the uniform state of the cell `parent` of `level` builds its subtree when no
    /// pixel below it had a uniform cell.
    proof fn lemma_leaf_built(t0: QTree, t: QTree, cache: &CacheMap, level: int, parent: [i32; 2], rect: [i32; 4], state: CellState)
        requires
            t.toplevel == t0.toplevel,
            t.toplevel <= 30,
            0 <= level <= t.toplevel,
            0 <= parent[0] < pow2(level as nat),
            0 <= parent[1] < pow2(level as nat),
            cache.wf(),
            cache.spec_size() == pow2(t.toplevel as nat),
            rect == t.cell_rect(level, parent),
            state == cache.query_spec(rect),
            t.toplevel <= level || state != CellState::Mixed,
            t.cell(level, parent[0] as int, parent[1] as int) == Some(state),
            forall|l: int, x: int, y: int| !(l == level && x == parent[0] && y == parent[1]) ==>
                #[trigger] t.cell(l, x, y) == t0.cell(l, x, y),
        ensures
            (t0.empty_below(cache, level, parent) && t0.region_unmixed(cache, level, parent)) ==> t.built(cache, level, parent),
    {
        if t0.empty_below(cache, level, parent) && t0.region_unmixed(cache, level, parent) {
            t.lemma_cell_rect(level, parent);
            if t.toplevel <= level {
                assert(t.side(level) == 1) by { vstd::arithmetic::power2::lemma2_to64(); }
                vstd::arithmetic::div_mod::lemma_div_basics(parent[0] as int);
                vstd::arithmetic::div_mod::lemma_div_basics(parent[1] as int);
                assert(in_rect(rect, parent[0] as int, parent[1] as int));
                assert(t.in_region(level, parent, parent[0] as int, parent[1] as int));
                assert(cache.pixel(parent[0] as int, parent[1] as int) != CellState::Mixed);
                assert forall|qx: int, qy: int| in_rect(rect, qx, qy) implies qx == parent[0] && qy == parent[1] by {}
            }
            assert(state != CellState::Mixed);
            assert forall|px: int, py: int| #![trigger t.in_region(level, parent, px, py)]
                t.in_region(level, parent, px, py) && cache.in_bounds(px, py) implies t.pixel_built(cache, level, px, py) by {
                assert(in_rect(rect, px, py));
                assert(t.leaf_of(px, py, level));
                assert(t.leaf_agrees(cache, px, py, level));
                assert forall|l: int| level < l <= t.toplevel implies
                    #[trigger] t.cell(l, px / t.side(l), py / t.side(l)) is None by {
                    assert(t0.cell(l, px / t0.side(l), py / t0.side(l)) is None);
                }
                assert forall|l1: int, l2: int| level <= l1 <= t.toplevel && level <= l2 <= t.toplevel && #[trigger] t.leaf_of(px, py, l1)
                        && #[trigger] t.leaf_of(px, py, l2) implies l1 == l2 by {
                    if l1 > level {
                        assert(t.cell(l1, px / t.side(l1), py / t.side(l1)) is None);
                    }
                    if l2 > level {
                        assert(t.cell(l2, px / t.side(l2), py / t.side(l2)) is None);
                    }
                }
                assert forall|l1: int, l2: int| level <= l1 < l2 <= t.toplevel && #[trigger] t.leaf_of(px, py, l1)
                        implies #[trigger] t.cell(l2, px / t.side(l2), py / t.side(l2)) is None by {
                    assert(level < l2);
                }
            }
        }
    }

    /// Rebuilds the subtree of the cell `parent` of `level` from the cache: a cell whose pixels
    /// are not uniform (and that is above the bottom level) is stored as `Mixed` and split into
    /// its four children, the others store their uniform state. Every cell of the subtree that
    /// the rebuild changes holds the state of its square.
    #[verifier::spinoff_prover]
    #[verifier::rlimit(40)]
    pub fn recurse_update(&mut self, level: usize, parent: [i32; 2], cache: &CacheMap)
        requires
            old(self).toplevel <= 30,
            old(self).levels.len() <= old(self).toplevel + 1,
            cache.wf(),
            cache.spec_size() == pow2(old(self).toplevel as nat),
            level <= old(self).toplevel,
            0 <= parent[0] < pow2(level as nat),
            0 <= parent[1] < pow2(level as nat),
        ensures
            final(self).toplevel == old(self).toplevel,
            old(self).levels.len() <= final(self).levels.len() <= final(self).toplevel + 1,
            level < final(self).levels.len(),
            final(self).cell(level as int, parent[0] as int, parent[1] as int)
                == Some(old(self).rebuilt_state(cache, level as int, parent)),
            forall|l: int, x: int, y: int| !in_subtree(level as int, parent, l, x, y) ==>
                #[trigger] final(self).cell(l, x, y) == old(self).cell(l, x, y),
            old(self).empty_below(cache, level as int, parent) && old(self).region_unmixed(cache, level as int, parent)
                ==> final(self).built(cache, level as int, parent),
            forall|l: int, x: int, y: int| in_subtree(level as int, parent, l, x, y) && #[trigger] final(self).cell(l, x, y) != old(self).cell(l, x, y)
                ==> final(self).cell(l, x, y) == Some(old(self).rebuilt_state(cache, l, [x as i32, y as i32])),
        decreases old(self).toplevel - level,
    {
        proof { self.lemma_cell_rect(level as int, parent); }
        let width = self.width(level) as i32;
        assert(width as int == self.side(level as int));
        let x0 = parent[0] * width;
        let y0 = parent[1] * width;
        let rect: [i32; 4] = [x0, y0, x0 + width, y0 + width];
        assert(rect == self.cell_rect(level as int, parent));
        let cell_state = cache.query(rect);
        let ghost t0 = *self;
        if self.toplevel <= level || !matches!(cell_state, CellState::Mixed) {
            self.insert(level, parent, cell_state);
            proof {
                assert forall|l: int, x: int, y: int| !in_subtree(level as int, parent, l, x, y) implies
                    #[trigger] self.cell(l, x, y) == t0.cell(l, x, y) by {
                    if l == level && x == parent[0] && y == parent[1] {
                        assert(pow2(0) == 1) by { vstd::arithmetic::power2::lemma2_to64(); }
                        vstd::arithmetic::div_mod::lemma_div_basics(x);
                        vstd::arithmetic::div_mod::lemma_div_basics(y);
                        assert(in_subtree(level as int, parent, l, x, y));
                    }
                }
                Self::lemma_leaf_built(t0, *self, cache, level as int, parent, rect, cell_state);
                assert forall|l: int, x: int, y: int| in_subtree(level as int, parent, l, x, y) && #[trigger] self.cell(l, x, y) != t0.cell(l, x, y)
                    implies self.cell(l, x, y) == Some(t0.rebuilt_state(cache, l, [x as i32, y as i32])) by {
                    if !(l == level && x == parent[0] && y == parent[1]) {
                        assert(self.cell(l, x, y) == t0.cell(l, x, y));
                    } else {
                        assert([x as i32, y as i32] =~= parent);
                    }
                }
            }
            return;
        }
        self.insert(level, parent, CellState::Mixed);
        let ghost t1 = *self;
        let ghost c = [[(parent[0] * 2) as i32, (parent[1] * 2) as i32], [(parent[0] * 2) as i32, (parent[1] * 2 + 1) as i32],
            [(parent[0] * 2 + 1) as i32, (parent[1] * 2) as i32], [(parent[0] * 2 + 1) as i32, (parent[1] * 2 + 1) as i32]];
        proof {
            vstd::arithmetic::power2::lemma_pow2_unfold((level + 1) as nat);
            vstd::arithmetic::power2::lemma2_to64();
            vstd::arithmetic::power2::lemma_pow2_strictly_increases((level + 1) as nat, 31);
            assert(pow2((level + 1) as nat) <= i32::MAX);
            assert forall|i: int| 0 <= i < 4 implies
                Self::child_ready(t0, t1, cache, level as int, parent, #[trigger] c[i]) by {
                Self::lemma_child_ready(t0, t1, cache, level as int, parent, c[i]);
            }
        }
        let mut x: i32 = 0;
        while x < 2
            invariant
                0 <= x <= 2,
                self.toplevel == t0.toplevel,
                self.toplevel == old(self).toplevel,
                self.toplevel <= 30,
                t0.levels.len() <= self.levels.len() <= self.toplevel + 1,
                level < self.levels.len(),
                level < self.toplevel,
                cache.wf(),
                cache.spec_size() == pow2(self.toplevel as nat),
                0 <= parent[0] < pow2(level as nat),
                0 <= parent[1] < pow2(level as nat),
                pow2((level + 1) as nat) == 2 * pow2(level as nat),
                pow2((level + 1) as nat) <= i32::MAX,
                forall|l: int, x2: int, y2: int| !(in_subtree(level as int, parent, l, x2, y2) && l > level) ==>
                    #[trigger] self.cell(l, x2, y2) == t1.cell(l, x2, y2),
                forall|i: int| 0 <= i < 4 ==> #[trigger] Self::child_ready(t0, t1, cache, level as int, parent, c[i]),
                t1.toplevel == t0.toplevel,
                forall|l: int, x2: int, y2: int| in_subtree(level as int, parent, l, x2, y2) && l > level
                    && #[trigger] self.cell(l, x2, y2) != t1.cell(l, x2, y2)
                    ==> self.cell(l, x2, y2) == Some(t0.rebuilt_state(cache, l, [x2 as i32, y2 as i32])),
                forall|i: int| 0 <= i < 2 * x ==> #[trigger] Self::child_done(t0, *self, cache, level as int, parent, c[i]),
                forall|i: int| 2 * x <= i < 4 ==> #[trigger] Self::child_untouched(t1, *self, level as int, c[i]),
                c[0][0] == 2 * parent[0] && c[0][1] == 2 * parent[1],
                c[1][0] == 2 * parent[0] && c[1][1] == 2 * parent[1] + 1,
                c[2][0] == 2 * parent[0] + 1 && c[2][1] == 2 * parent[1],
                c[3][0] == 2 * parent[0] + 1 && c[3][1] == 2 * parent[1] + 1,
            decreases 2 - x,
        {
            let mut y: i32 = 0;
            while y < 2
                invariant
                    0 <= x < 2,
                    0 <= y <= 2,
                    self.toplevel == t0.toplevel,
                    self.toplevel == old(self).toplevel,
                    self.toplevel <= 30,
                    t0.levels.len() <= self.levels.len() <= self.toplevel + 1,
                    level < self.levels.len(),
                    level < self.toplevel,
                    cache.wf(),
                    cache.spec_size() == pow2(self.toplevel as nat),
                    0 <= parent[0] < pow2(level as nat),
                    0 <= parent[1] < pow2(level as nat),
                    pow2((level + 1) as nat) == 2 * pow2(level as nat),
                    pow2((level + 1) as nat) <= i32::MAX,
                    forall|l: int, x2: int, y2: int| !(in_subtree(level as int, parent, l, x2, y2) && l > level) ==>
                        #[trigger] self.cell(l, x2, y2) == t1.cell(l, x2, y2),
                    forall|i: int| 0 <= i < 4 ==> #[trigger] Self::child_ready(t0, t1, cache, level as int, parent, c[i]),
                    forall|l: int, x2: int, y2: int| in_subtree(level as int, parent, l, x2, y2) && l > level
                        && #[trigger] self.cell(l, x2, y2) != t1.cell(l, x2, y2)
                        ==> self.cell(l, x2, y2) == Some(t0.rebuilt_state(cache, l, [x2 as i32, y2 as i32])),
                    forall|i: int| 0 <= i < 2 * x + y ==> #[trigger] Self::child_done(t0, *self, cache, level as int, parent, c[i]),
                    forall|i: int| 2 * x + y <= i < 4 ==> #[trigger] Self::child_untouched(t1, *self, level as int, c[i]),
                    t1.toplevel == t0.toplevel,
                    c[0][0] == 2 * parent[0] && c[0][1] == 2 * parent[1],
                    c[1][0] == 2 * parent[0] && c[1][1] == 2 * parent[1] + 1,
                    c[2][0] == 2 * parent[0] + 1 && c[2][1] == 2 * parent[1],
                    c[3][0] == 2 * parent[0] + 1 && c[3][1] == 2 * parent[1] + 1,
                decreases 2 - y,
            {
                let child = [parent[0] * 2 + x, parent[1] * 2 + y];
                let ghost before = *self;
                let ghost i = 2 * x + y;
                assert(child[0] == c[i][0] && child[1] == c[i][1]);
                assert(child =~= c[i]);
                proof {
                    assert(Self::child_untouched(t1, before, level as int, c[i]));
                    Self::lemma_subtree_frame(&t1, &before, cache, (level + 1) as int, child);
                }
                self.recurse_update(level + 1, child, cache);
                proof {
                    assert forall|j: int| 2 * x + y < j < 4 implies #[trigger] Self::child_untouched(t1, *self, level as int, c[j]) by {
                        assert forall|l: int, x2: int, y2: int| in_subtree(level + 1, c[j], l, x2, y2) implies
                            #[trigger] self.cell(l, x2, y2) == t1.cell(l, x2, y2) by {
                            assert(!in_subtree(level + 1, c[i], l, x2, y2));
                            assert(Self::child_untouched(t1, before, level as int, c[j]));
                        }
                    }
                    assert forall|j: int| 0 <= j < 2 * x + y + 1 implies #[trigger] Self::child_done(t0, *self, cache, level as int, parent, c[j]) by {
                        if j < i {
                            assert(Self::child_done(t0, before, cache, level as int, parent, c[j]));
                            assert forall|l: int, x2: int, y2: int| in_subtree(level + 1, c[j], l, x2, y2) implies
                                #[trigger] self.cell(l, x2, y2) == before.cell(l, x2, y2) by {
                                assert(!in_subtree(level + 1, c[i], l, x2, y2));
                            }
                            Self::lemma_subtree_frame(&before, &*self, cache, (level + 1) as int, c[j]);
                        } else {
                            assert(Self::child_ready(t0, t1, cache, level as int, parent, c[i]));
                        }
                    }
                    assert forall|l: int, x2: int, y2: int| !(in_subtree(level as int, parent, l, x2, y2) && l > level) implies
                        #[trigger] self.cell(l, x2, y2) == t1.cell(l, x2, y2) by {
                        if in_subtree(level + 1, child, l, x2, y2) {
                            Self::lemma_child_subtree(level as int, parent, child, l, x2, y2);
                        }
                    }
                    assert forall|l: int, x2: int, y2: int| in_subtree(level as int, parent, l, x2, y2) && l > level
                        && #[trigger] self.cell(l, x2, y2) != t1.cell(l, x2, y2)
                        implies self.cell(l, x2, y2) == Some(t0.rebuilt_state(cache, l, [x2 as i32, y2 as i32])) by {
                        if in_subtree(level + 1, child, l, x2, y2) && self.cell(l, x2, y2) != before.cell(l, x2, y2) {
                            assert(before.rebuilt_state(cache, l, [x2 as i32, y2 as i32]) == t0.rebuilt_state(cache, l, [x2 as i32, y2 as i32]));
                        } else {
                            assert(self.cell(l, x2, y2) == before.cell(l, x2, y2));
                        }
                    }
                }
                y += 1;
            }
            x += 1;
        }
        proof {
            Self::lemma_mixed_built(t0, t1, *self, cache, level as int, parent, c);
            assert forall|l: int, x2: int, y2: int| !in_subtree(level as int, parent, l, x2, y2) implies
                #[trigger] self.cell(l, x2, y2) == t0.cell(l, x2, y2) by {
                if l == level && x2 == parent[0] && y2 == parent[1] {
                    assert(pow2(0) == 1) by { vstd::arithmetic::power2::lemma2_to64(); }
                    vstd::arithmetic::div_mod::lemma_div_basics(x2);
                    vstd::arithmetic::div_mod::lemma_div_basics(y2);
                }
                assert(self.cell(l, x2, y2) == t1.cell(l, x2, y2));
            }
            assert forall|l: int, x2: int, y2: int| in_subtree(level as int, parent, l, x2, y2) && #[trigger] self.cell(l, x2, y2) != t0.cell(l, x2, y2)
                implies self.cell(l, x2, y2) == Some(t0.rebuilt_state(cache, l, [x2 as i32, y2 as i32])) by {
                if l == level {
                    assert(pow2(0) == 1) by { vstd::arithmetic::power2::lemma2_to64(); }
                    vstd::arithmetic::div_mod::lemma_div_basics(x2);
                    vstd::arithmetic::div_mod::lemma_div_basics(y2);
                    assert([x2 as i32, y2 as i32] =~= parent);
                    assert(self.cell(l, x2, y2) == t1.cell(l, x2, y2));
                } else {
                    assert(t1.cell(l, x2, y2) == t0.cell(l, x2, y2));
                }
            }
        }
    }

    /// The tree describes the cache: every pixel of the board has exactly one cell of uniform
    /// state, that state is `Free` exactly when the pixel is free, and no cell lies below it.
    pub open spec fn consistent(&self, cache: &CacheMap) -> bool {
        &&& self.shallow()
        &&& cache.wf()
        &&& cache.spec_size() == pow2(self.toplevel as nat)
        &&& cache.unmixed()
        &&& self.built(cache, 0, root_cell())
    }

    /// Every pixel of the board lies in the single cell of level 0.
    pub proof fn lemma_root_region(&self, cache: &CacheMap, px: int, py: int)
        requires
            self.toplevel <= 30,
            cache.spec_size() == pow2(self.toplevel as nat),
            cache.in_bounds(px, py),
        ensures
            self.in_region(0, root_cell(), px, py),
    {
        lemma_div_range(px, self.side(0), 0);
        lemma_div_range(py, self.side(0), 0);
    }

    /// Replacing four sibling cells of one state with their parent holding that state keeps
    /// the tree consistent with the cache.
    #[verifier::spinoff_prover]
    #[verifier::rlimit(40)]
    proof fn lemma_merge_consistent(t0: QTree, t1: QTree, cache: &CacheMap, level: int, par: [i32; 2], pix: CellState)
        requires
            t0.consistent(cache),
            1 <= level <= t0.toplevel,
            t1.toplevel == t0.toplevel,
            t1.levels.len() == t0.levels.len(),
            0 <= par[0],
            0 <= par[1],
            forall|dx: int, dy: int| 0 <= dx < 2 && 0 <= dy < 2 ==>
                #[trigger] t0.cell(level, 2 * par[0] + dx, 2 * par[1] + dy) == Some(pix),
            t1.cell(level - 1, par[0] as int, par[1] as int) == Some(pix),
            forall|dx: int, dy: int| 0 <= dx < 2 && 0 <= dy < 2 ==>
                #[trigger] t1.cell(level, 2 * par[0] + dx, 2 * par[1] + dy) is None,
            forall|l: int, x: int, y: int| !(l == level - 1 && x == par[0] && y == par[1])
                && !(l == level && (x == 2 * par[0] || x == 2 * par[0] + 1) && (y == 2 * par[1] || y == 2 * par[1] + 1))
                ==> #[trigger] t1.cell(l, x, y) == t0.cell(l, x, y),
        ensures
            t1.consistent(cache),
    {
        assert forall|px: int, py: int| #![trigger t1.in_region(0, root_cell(), px, py)]
            t1.in_region(0, root_cell(), px, py) && cache.in_bounds(px, py) implies t1.pixel_built(cache, 0, px, py) by {
            assert(t0.in_region(0, root_cell(), px, py));
            assert(t0.pixel_built(cache, 0, px, py));
            let top = t0.toplevel as int;
            if t0.in_region(level - 1, par, px, py) {
                t0.lemma_pixel_child(level - 1, par, px, py);
                let qx = px / t0.side(level);
                let qy = py / t0.side(level);
                let dx = qx - 2 * par[0];
                let dy = qy - 2 * par[1];
                assert(t0.cell(level, 2 * par[0] + dx, 2 * par[1] + dy) == Some(pix));
                assert(t0.cell(level, qx, qy) == Some(pix));
                let ls = choose|l: int| 0 <= l <= top && #[trigger] t0.leaf_of(px, py, l) && t0.leaf_agrees(cache, px, py, l);
                assert(t0.leaf_of(px, py, ls));
                if pix != CellState::Mixed {
                    assert(t0.leaf_of(px, py, level));
                    assert(ls == level);
                    assert(t1.leaf_of(px, py, level - 1));
                    assert(t1.leaf_agrees(cache, px, py, level - 1));
                    assert forall|l: int| 0 <= l <= top && l != level - 1 implies !#[trigger] t1.leaf_of(px, py, l) by {
                        if l == level {
                        } else if l > level {
                            assert(t0.cell(l, px / t0.side(l), py / t0.side(l)) is None);
                        } else {
                            assert(!t0.leaf_of(px, py, l));
                        }
                    }
                    assert forall|l1: int, l2: int| 0 <= l1 <= top && 0 <= l2 <= top && #[trigger] t1.leaf_of(px, py, l1)
                        && #[trigger] t1.leaf_of(px, py, l2) implies l1 == l2 by {}
                    assert forall|l1: int, l2: int| 0 <= l1 < l2 <= top && #[trigger] t1.leaf_of(px, py, l1)
                        implies #[trigger] t1.cell(l2, px / t1.side(l2), py / t1.side(l2)) is None by {
                        assert(l1 == level - 1);
                        if l2 > level {
                            assert(t0.cell(l2, px / t0.side(l2), py / t0.side(l2)) is None);
                        }
                    }
                } else {
                    assert(!t0.leaf_of(px, py, level));
                    if ls < level {
                        assert(t0.cell(level, px / t0.side(level), py / t0.side(level)) is None);
                    }
                    assert(ls > level);
                    assert(t1.leaf_of(px, py, ls));
                    assert(t1.leaf_agrees(cache, px, py, ls));
                    assert forall|l: int| 0 <= l <= top && #[trigger] t1.leaf_of(px, py, l) implies t0.leaf_of(px, py, l) by {
                        if l == level - 1 || l == level {
                            assert(!t1.leaf_of(px, py, l));
                        }
                    }
                    assert forall|l1: int, l2: int| 0 <= l1 <= top && 0 <= l2 <= top && #[trigger] t1.leaf_of(px, py, l1)
                        && #[trigger] t1.leaf_of(px, py, l2) implies l1 == l2 by {
                        assert(t0.leaf_of(px, py, l1));
                        assert(t0.leaf_of(px, py, l2));
                    }
                    assert forall|l1: int, l2: int| 0 <= l1 < l2 <= top && #[trigger] t1.leaf_of(px, py, l1)
                        implies #[trigger] t1.cell(l2, px / t1.side(l2), py / t1.side(l2)) is None by {
                        assert(t0.leaf_of(px, py, l1));
                        assert(l1 == ls);
                        assert(t0.cell(l2, px / t0.side(l2), py / t0.side(l2)) is None);
                    }
                }
            } else {
                assert forall|l: int| 0 <= l <= top implies
                    #[trigger] t1.cell(l, px / t0.side(l), py / t0.side(l)) == t0.cell(l, px / t0.side(l), py / t0.side(l)) by {
                    if l == level {
                        vstd::arithmetic::power2::lemma_pow2_pos((top - level) as nat);
                        vstd::arithmetic::power2::lemma2_to64();
                        if top < 30 { vstd::arithmetic::power2::lemma_pow2_strictly_increases(top as nat, 30); }
                        let q = [(px / t0.side(level)) as i32, (py / t0.side(level)) as i32];
                        if (q[0] == 2 * par[0] || q[0] == 2 * par[0] + 1) && (q[1] == 2 * par[1] || q[1] == 2 * par[1] + 1) {
                            vstd::arithmetic::div_mod::lemma_div_pos_is_pos(px, t0.side(level));
                            vstd::arithmetic::div_mod::lemma_div_pos_is_pos(py, t0.side(level));
                            vstd::arithmetic::div_mod::lemma_div_is_ordered_by_denominator(px, 1, t0.side(level));
                            vstd::arithmetic::div_mod::lemma_div_is_ordered_by_denominator(py, 1, t0.side(level));
                            vstd::arithmetic::div_mod::lemma_div_basics(px);
                            vstd::arithmetic::div_mod::lemma_div_basics(py);
                            vstd::arithmetic::power2::lemma_pow2_pos((top - level) as nat);
                            assert(t0.in_region(level, q, px, py));
                            t0.lemma_child_region(level, par, q, px, py);
                        }
                    }
                }
                Self::lemma_pixel_built_frame(&t0, &t1, cache, 0, px, py);
            }
        }
    }

    /// The four cells of `level` under the parent `par` are all present, with one state.
    pub open spec fn siblings_uniform(&self, level: int, par: [i32; 2]) -> bool {
        self.cell(level, 2 * par[0], 2 * par[1]) matches Some(s)
            && self.cell(level, 2 * par[0], 2 * par[1] + 1) == Some(s)
            && self.cell(level, 2 * par[0] + 1, 2 * par[1]) == Some(s)
            && self.cell(level, 2 * par[0] + 1, 2 * par[1] + 1) == Some(s)
    }

    /// The cells of the tree, as a function of level and position.
    pub open spec fn cells(&self) -> spec_fn(int, int, int) -> Option<CellState> {
        |l: int, x: int, y: int| self.cell(l, x, y)
    }

    /// A stored cell that has a stored cell below it is `Mixed`.
    pub open spec fn tree_wf(&self) -> bool {
        &&& self.shallow()
        &&& forall|l: int, x: int, y: int, l2: int, x2: int, y2: int|
            #![trigger self.cell(l, x, y), self.cell(l2, x2, y2), pow2((l2 - l) as nat)]
            l < l2 && 0 <= x2 && 0 <= y2 && self.cell(l, x, y) is Some && self.cell(l2, x2, y2) is Some
            && x2 / pow2((l2 - l) as nat) as int == x && y2 / pow2((l2 - l) as nat) as int == y
            ==> self.cell(l, x, y) == Some(CellState::Mixed)
    }

    /// The state that a lookup of `pos` finds, if any.
    pub open spec fn lookup_state(&self, pos: [i32; 2]) -> Option<CellState> {
        match self.lookup(pos) {
            Some(p) => Some(p.1),
            None => None,
        }
    }

    /// `l` is the deepest level whose cell holding `pos` is uniform.
    pub open spec fn deepest_uniform(&self, pos: [i32; 2], l: int) -> bool {
        &&& 0 <= l < self.levels.len()
        &&& self.uniform_at(pos, l)
        &&& forall|l2: int| l < l2 < self.levels.len() ==> !#[trigger] self.uniform_at(pos, l2)
    }

    proof fn lemma_deepest_exists(&self, pos: [i32; 2], l: int)
        requires
            0 <= l < self.levels.len(),
            self.uniform_at(pos, l),
        ensures
            exists|l1: int| #[trigger] self.deepest_uniform(pos, l1),
        decreases self.levels.len() - l,
    {
        if exists|l2: int| l < l2 < self.levels.len() && #[trigger] self.uniform_at(pos, l2) {
            let l2 = choose|l2: int| l < l2 < self.levels.len() && #[trigger] self.uniform_at(pos, l2);
            self.lemma_deepest_exists(pos, l2);
        } else {
            assert(self.deepest_uniform(pos, l));
        }
    }

    /// The lookup finds the deepest uniform cell.
    proof fn lemma_lookup_deepest(&self, pos: [i32; 2], l: int)
        requires
            self.deepest_uniform(pos, l),
        ensures
            self.lookup(pos) == Some((l as usize, self.cell(l, self.cell_of(pos, l).0, self.cell_of(pos, l).1).unwrap())),
    {
        assert(self.uniform_at(pos, l));
        let l1 = choose|l1: int| 0 <= l1 < self.levels.len() && #[trigger] self.uniform_at(pos, l1)
            && forall|l2: int| l1 < l2 < self.levels.len() ==> !#[trigger] self.uniform_at(pos, l2);
        if l1 < l {
            assert(!self.uniform_at(pos, l));
        } else if l < l1 {
            assert(!self.uniform_at(pos, l1));
        }
    }

    /// Two trees that agree on which cells holding `pos` are uniform, and on those cells, look
    /// `pos` up alike.
    proof fn lemma_same_chain(t0: QTree, t1: QTree, pos: [i32; 2])
        requires
            t1.levels.len() == t0.levels.len(),
            t1.toplevel == t0.toplevel,
            forall|l: int| 0 <= l < t0.levels.len() ==> #[trigger] t1.uniform_at(pos, l) == t0.uniform_at(pos, l),
            forall|l: int| 0 <= l < t0.levels.len() && #[trigger] t0.uniform_at(pos, l) ==>
                t1.cell(l, t0.cell_of(pos, l).0, t0.cell_of(pos, l).1) == t0.cell(l, t0.cell_of(pos, l).0, t0.cell_of(pos, l).1),
        ensures
            t1.lookup_state(pos) == t0.lookup_state(pos),
    {
        if exists|l: int| 0 <= l < t0.levels.len() && #[trigger] t0.uniform_at(pos, l) {
            let l = choose|l: int| 0 <= l < t0.levels.len() && #[trigger] t0.uniform_at(pos, l);
            t0.lemma_deepest_exists(pos, l);
            let d = choose|l1: int| #[trigger] t0.deepest_uniform(pos, l1);
            assert(t1.deepest_uniform(pos, d));
            t0.lemma_lookup_deepest(pos, d);
            t1.lemma_lookup_deepest(pos, d);
        } else {
            assert(!exists|l: int| 0 <= l < t1.levels.len() && #[trigger] t1.uniform_at(pos, l));
        }
    }

    /// The cells holding a position, level by level, are each other's descendants.
    proof fn lemma_chain_divides(&self, pos: [i32; 2], l: int, l2: int)
        requires
            self.toplevel <= 30,
            0 <= pos[0],
            0 <= pos[1],
            0 <= l <= l2 <= self.toplevel,
        ensures
            self.cell_of(pos, l2).0 / pow2((l2 - l) as nat) as int == self.cell_of(pos, l).0,
            self.cell_of(pos, l2).1 / pow2((l2 - l) as nat) as int == self.cell_of(pos, l).1,
            0 <= self.cell_of(pos, l2).0,
            0 <= self.cell_of(pos, l2).1,
    {
        let a = (self.toplevel - l2) as nat;
        let b = (l2 - l) as nat;
        assert(a + b == (self.toplevel - l) as nat);
        lemma_div_pow2_compose(pos[0] as int, a, b);
        lemma_div_pow2_compose(pos[1] as int, a, b);
    }

    /// Merging four uniform siblings into their parent keeps a well-formed tree well-formed,
    /// and what every position looks up.
    proof fn lemma_merge_once_lookup(t0: QTree, t1: QTree, level: int, par: [i32; 2], s: CellState)
        requires
            t0.tree_wf(),
            t1.toplevel == t0.toplevel,
            t1.levels.len() == t0.levels.len(),
            1 <= level < t0.levels.len(),
            0 <= par[0],
            0 <= par[1],
            forall|dx: int, dy: int| 0 <= dx < 2 && 0 <= dy < 2 ==>
                #[trigger] t0.cell(level, 2 * par[0] + dx, 2 * par[1] + dy) == Some(s),
            forall|l: int, x: int, y: int| #[trigger] t1.cell(l, x, y)
                == merge_once(t0.cells(), level, par[0] as int, par[1] as int, s)(l, x, y),
        ensures
            t1.tree_wf(),
            forall|pos: [i32; 2]| 0 <= pos[0] && 0 <= pos[1] ==> #[trigger] t1.lookup_state(pos) == t0.lookup_state(pos),
    {
        let top = t0.toplevel as int;
        let px = par[0] as int;
        let py = par[1] as int;
        assert(pow2(1) == 2) by { vstd::arithmetic::power2::lemma2_to64(); }
        // well-formedness
        assert forall|l: int, x: int, y: int, l2: int, x2: int, y2: int|
            #![trigger t1.cell(l, x, y), t1.cell(l2, x2, y2), pow2((l2 - l) as nat)]
            l < l2 && 0 <= x2 && 0 <= y2 && t1.cell(l, x, y) is Some && t1.cell(l2, x2, y2) is Some
            && x2 / pow2((l2 - l) as nat) as int == x && y2 / pow2((l2 - l) as nat) as int == y
            implies t1.cell(l, x, y) == Some(CellState::Mixed) by {
            let is_par = l == level - 1 && x == px && y == py;
            let is_sib2 = l2 == level && (x2 == 2 * px || x2 == 2 * px + 1) && (y2 == 2 * py || y2 == 2 * py + 1);
            let is_par2 = l2 == level - 1 && x2 == px && y2 == py;
            assert(!is_sib2);
            if is_par {
                if s != CellState::Mixed {
                    // the descendant lies under one of the siblings, which had nothing below
                    if l2 == level {
                        assert(x2 / 2 == px && y2 / 2 == py);
                        assert(false);
                    } else {
                        let b = (l2 - level) as nat;
                        lemma_div_pow2_compose(x2, b, 1);
                        lemma_div_pow2_compose(y2, b, 1);
                        assert(b + 1 == (l2 - l) as nat);
                        let sx = x2 / pow2(b) as int;
                        let sy = y2 / pow2(b) as int;
                        assert(sx / 2 == px && sy / 2 == py);
                        assert(t0.cell(level, 2 * px + (sx - 2 * px), 2 * py + (sy - 2 * py)) == Some(s));
                        assert(t0.cell(l2, x2, y2) == t1.cell(l2, x2, y2));
                        assert(t0.cell(level, sx, sy) == Some(CellState::Mixed));
                    }
                }
            } else {
                assert(t1.cell(l, x, y) == t0.cell(l, x, y));
                if is_par2 {
                    // the parent's children were stored below this cell before
                    let b = (level - 1 - l) as nat;
                    lemma_div_pow2_compose(2 * px, 1, b);
                    lemma_div_pow2_compose(2 * py, 1, b);
                    assert(1 + b == (level - l) as nat);
                    assert((2 * px) / 2 == px && (2 * py) / 2 == py);
                    assert(t0.cell(level, 2 * px + 0, 2 * py + 0) == Some(s));
                    assert(t0.cell(level, 2 * px, 2 * py) is Some);
                } else {
                    assert(t1.cell(l2, x2, y2) == t0.cell(l2, x2, y2));
                }
            }
        }
        // lookups
        assert forall|pos: [i32; 2]| 0 <= pos[0] && 0 <= pos[1] implies #[trigger] t1.lookup_state(pos) == t0.lookup_state(pos) by {
            t0.lemma_chain_divides(pos, level - 1, level);
            let cp = t0.cell_of(pos, level - 1);
            let cq = t0.cell_of(pos, level);
            let in_region = cp.0 == px && cp.1 == py;
            if !in_region || s == CellState::Mixed {
                assert forall|l: int| 0 <= l < t0.levels.len() implies
                    #[trigger] t1.uniform_at(pos, l) == t0.uniform_at(pos, l)
                    && (t0.uniform_at(pos, l) ==> t1.cell(l, t0.cell_of(pos, l).0, t0.cell_of(pos, l).1)
                        == t0.cell(l, t0.cell_of(pos, l).0, t0.cell_of(pos, l).1)) by {
                    let c = t0.cell_of(pos, l);
                    assert(cq.0 / 2 == cp.0 && cq.1 / 2 == cp.1);
                    if l == level {
                        if in_region {
                            assert(0 <= cq.0 - 2 * px < 2 && 0 <= cq.1 - 2 * py < 2);
                            assert(t0.cell(level, 2 * px + (cq.0 - 2 * px), 2 * py + (cq.1 - 2 * py)) == Some(s));
                        } else {
                            assert(!((cq.0 == 2 * px || cq.0 == 2 * px + 1) && (cq.1 == 2 * py || cq.1 == 2 * py + 1)));
                            assert(t1.cell(l, c.0, c.1) == t0.cell(l, c.0, c.1));
                        }
                    } else if l == level - 1 {
                        if in_region {
                            assert(t0.cell(level, 2 * px + 0, 2 * py + 0) == Some(s));
                            if t0.cell(level - 1, px, py) is Some {
                                assert((2 * px) / 2 == px && (2 * py) / 2 == py);
                                assert(t0.cell(level, 2 * px, 2 * py) is Some);
                                assert(pow2((level - (level - 1)) as nat) == 2);
                                assert(t0.cell(level - 1, px, py) == Some(CellState::Mixed));
                            }
                        } else {
                            assert(t1.cell(l, c.0, c.1) == t0.cell(l, c.0, c.1));
                        }
                    } else {
                        assert(t1.cell(l, c.0, c.1) == t0.cell(l, c.0, c.1));
                    }
                }
                Self::lemma_same_chain(t0, t1, pos);
            } else {
                // the uniform cell moves up from the sibling to the parent
                assert(t0.cell(level, 2 * px + (cq.0 - 2 * px), 2 * py + (cq.1 - 2 * py)) == Some(s));
                assert(t0.uniform_at(pos, level));
                assert forall|l2: int| level < l2 < t0.levels.len() implies !#[trigger] t0.uniform_at(pos, l2) by {
                    t0.lemma_chain_divides(pos, level, l2);
                    let c2 = t0.cell_of(pos, l2);
                    if t0.cell(l2, c2.0, c2.1) is Some {
                        assert(t0.cell(level, cq.0, cq.1) == Some(CellState::Mixed));
                    }
                }
                assert(t0.deepest_uniform(pos, level));
                t0.lemma_lookup_deepest(pos, level);
                assert(t1.uniform_at(pos, level - 1));
                assert forall|l2: int| level - 1 < l2 < t1.levels.len() implies !#[trigger] t1.uniform_at(pos, l2) by {
                    if l2 > level {
                        assert(!t0.uniform_at(pos, l2));
                        t0.lemma_chain_divides(pos, level, l2);
                        let c2 = t0.cell_of(pos, l2);
                        if t0.cell(l2, c2.0, c2.1) is Some {
                            assert(t0.cell(level, cq.0, cq.1) == Some(CellState::Mixed));
                        }
                    }
                }
                assert(t1.deepest_uniform(pos, level - 1));
                t1.lemma_lookup_deepest(pos, level - 1);
            }
        }
    }

    /// Merges four sibling cells of one state, starting from the ones around `cell_pos` of
    /// `level`, into their parent, and carries on upwards as long as cells merge or a level
    /// lacks some of them. On `level` itself the four siblings are gone when they shared a
    /// state, and nothing changes otherwise. On a well-formed tree (a stored cell with a stored
    /// cell below it is `Mixed`) the tree stays well-formed and every position of the board
    /// looks up the same state as before.
    pub fn try_merge(&mut self, level: usize, cell_pos: [i32; 2])
        requires
            old(self).shallow(),
            level <= old(self).toplevel,
            0 <= cell_pos[0],
            0 <= cell_pos[1],
        ensures
            final(self).toplevel == old(self).toplevel,
            final(self).levels.len() == old(self).levels.len(),
            forall|l: int, x: int, y: int| l > level ==> #[trigger] final(self).cell(l, x, y) == old(self).cell(l, x, y),
            forall|x: int, y: int| #[trigger] final(self).cell(level as int, x, y) ==
                if 1 <= level && old(self).siblings_uniform(level as int, [(cell_pos[0] / 2) as i32, (cell_pos[1] / 2) as i32])
                    && (x == 2 * (cell_pos[0] / 2) || x == 2 * (cell_pos[0] / 2) + 1)
                    && (y == 2 * (cell_pos[1] / 2) || y == 2 * (cell_pos[1] / 2) + 1) {
                    None
                } else {
                    old(self).cell(level as int, x, y)
                },
            forall|cache: CacheMap| #[trigger] old(self).consistent(&cache) ==> final(self).consistent(&cache),
            forall|l: int, x: int, y: int| #[trigger] final(self).cell(l, x, y)
                == merged(old(self).cells(), level as int, cell_pos[0] as int, cell_pos[1] as int)(l, x, y),
            old(self).tree_wf() ==> final(self).tree_wf(),
            old(self).tree_wf() ==> forall|pos: [i32; 2]| 0 <= pos[0] && 0 <= pos[1] ==>
                #[trigger] final(self).lookup_state(pos) == old(self).lookup_state(pos),
        decreases level,
    {
        let ghost t_in = *self;
        if 1 <= level {
            let par = [cell_pos[0] / 2, cell_pos[1] / 2];
            let bx = par[0] * 2;
            let by = par[1] * 2;
            let homogeneous = if level < self.levels.len() {
                let a = match self.levels[level].get(&key_of([bx, by])) { Some(st) => Some(Homogeneity::Homogeneous(*st)), None => None };
                let b = match self.levels[level].get(&key_of([bx, by + 1])) { Some(st) => Some(Homogeneity::Homogeneous(*st)), None => None };
                let c = match self.levels[level].get(&key_of([bx + 1, by])) { Some(st) => Some(Homogeneity::Homogeneous(*st)), None => None };
                let d = match self.levels[level].get(&key_of([bx + 1, by + 1])) { Some(st) => Some(Homogeneity::Homogeneous(*st)), None => None };
                proof {
                    assert(a == sibling_verdict(t_in.cell(level as int, 2 * par[0], 2 * par[1])));
                    assert(b == sibling_verdict(t_in.cell(level as int, 2 * par[0], 2 * par[1] + 1)));
                    assert(c == sibling_verdict(t_in.cell(level as int, 2 * par[0] + 1, 2 * par[1])));
                    assert(d == sibling_verdict(t_in.cell(level as int, 2 * par[0] + 1, 2 * par[1] + 1)));
                }
                combine(combine(combine(a, b), c), d)
            } else {
                None
            };
            proof {
                assert(par[0] as int == cell_pos[0] as int / 2 && par[1] as int == cell_pos[1] as int / 2);
                assert(homogeneous == merge_verdict(t_in.cells(), level as int, par[0] as int, par[1] as int));
            }
            match homogeneous {
                Some(Homogeneity::Homogeneous(pix)) => {
                    let ghost t0 = *self;
                    proof {
                        assert forall|dx: int, dy: int| 0 <= dx < 2 && 0 <= dy < 2 implies
                            #[trigger] t0.cell(level as int, 2 * par[0] + dx, 2 * par[1] + dy) == Some(pix) by {
                            assert(2 * par[0] + dx == bx + dx);
                        }
                    }
                    self.levels[level].remove(&key_of([bx, by]));
                    self.levels[level].remove(&key_of([bx, by + 1]));
                    self.levels[level].remove(&key_of([bx + 1, by]));
                    self.levels[level].remove(&key_of([bx + 1, by + 1]));
                    self.levels[level - 1].insert(key_of(par), pix);
                    let ghost t1 = *self;
                    proof {
                        assert forall|l: int, x: int, y: int| !(l == level - 1 && x == par[0] && y == par[1])
                            && !(l == level && (x == 2 * par[0] || x == 2 * par[0] + 1) && (y == 2 * par[1] || y == 2 * par[1] + 1))
                            implies #[trigger] t1.cell(l, x, y) == t0.cell(l, x, y) by {
                            if i32::MIN <= x <= i32::MAX && i32::MIN <= y <= i32::MAX {
                                if l == level - 1 && cell_key(x, y) == cell_key(par[0] as int, par[1] as int) {
                                    lemma_cell_key_injective(x, y, par[0] as int, par[1] as int);
                                }
                                if l == level {
                                    if cell_key(x, y) == cell_key(bx as int, by as int) { lemma_cell_key_injective(x, y, bx as int, by as int); }
                                    if cell_key(x, y) == cell_key(bx as int, by + 1) { lemma_cell_key_injective(x, y, bx as int, by + 1); }
                                    if cell_key(x, y) == cell_key(bx + 1, by as int) { lemma_cell_key_injective(x, y, bx + 1, by as int); }
                                    if cell_key(x, y) == cell_key(bx + 1, by + 1) { lemma_cell_key_injective(x, y, bx + 1, by + 1); }
                                }
                            }
                        }
                        assert forall|cache: CacheMap| #[trigger] t0.consistent(&cache) implies t1.consistent(&cache) by {
                            Self::lemma_merge_consistent(t0, t1, &cache, level as int, par, pix);
                        }
                        assert(t1.cell(level - 1, par[0] as int, par[1] as int) == Some(pix));
                        assert forall|dx: int, dy: int| 0 <= dx < 2 && 0 <= dy < 2 implies
                            #[trigger] t1.cell(level as int, 2 * par[0] + dx, 2 * par[1] + dy) is None by {
                            assert(2 * par[0] + dx == bx + dx);
                            assert(2 * par[1] + dy == by + dy);
                        }
                        assert(t1.cells() =~= merge_once(t_in.cells(), level as int, par[0] as int, par[1] as int, pix)) by {
                            assert forall|l: int, x: int, y: int| #[trigger] t1.cells()(l, x, y)
                                == merge_once(t_in.cells(), level as int, par[0] as int, par[1] as int, pix)(l, x, y) by {
                                if l == level && (x == 2 * par[0] || x == 2 * par[0] + 1) && (y == 2 * par[1] || y == 2 * par[1] + 1) {
                                    assert(t1.cell(level as int, 2 * par[0] + (x - 2 * par[0]), 2 * par[1] + (y - 2 * par[1])) is None);
                                }
                            }
                        }
                        if t_in.tree_wf() {
                            assert forall|l: int, x: int, y: int| #[trigger] t1.cell(l, x, y)
                                == merge_once(t_in.cells(), level as int, par[0] as int, par[1] as int, pix)(l, x, y) by {
                                assert(t1.cells()(l, x, y) == t1.cell(l, x, y));
                            }
                            Self::lemma_merge_once_lookup(t_in, t1, level as int, par, pix);
                        }
                    }
                    self.try_merge(level - 1, par);
                },
                Some(Homogeneity::Heterogeneous) => {},
                None => self.try_merge(level - 1, par),
            }
        }
    }

    /// Whether a pixel is built depends on the cache only through that pixel's state.
    pub proof fn lemma_pixel_built_cache(&self, c0: &CacheMap, c1: &CacheMap, level: int, px: int, py: int)
        requires
            c0.pixel(px, py) == c1.pixel(px, py),
        ensures
            self.pixel_built(c0, level, px, py) ==> self.pixel_built(c1, level, px, py),
    {
        assert forall|l: int| #[trigger] self.leaf_agrees(c0, px, py, l) == self.leaf_agrees(c1, px, py, l) by {}
        if self.pixel_built(c0, level, px, py) {
            let l = choose|l: int| level <= l <= self.toplevel && #[trigger] self.leaf_of(px, py, l) && self.leaf_agrees(c0, px, py, l);
            assert(self.leaf_agrees(c1, px, py, l));
        }
    }

    /// A pixel built from `level` down with no uniform cell above `level` is built from the root.
    pub proof fn lemma_extend_up(&self, cache: &CacheMap, level: int, px: int, py: int)
        requires
            0 <= level,
            self.pixel_built(cache, level, px, py),
            forall|l: int| 0 <= l < level ==> !#[trigger] self.leaf_of(px, py, l),
        ensures
            self.pixel_built(cache, 0, px, py),
    {
        let l = choose|l: int| level <= l <= self.toplevel && #[trigger] self.leaf_of(px, py, l) && self.leaf_agrees(cache, px, py, l);
        assert(self.leaf_of(px, py, l));
        assert forall|l1: int, l2: int| 0 <= l1 <= self.toplevel && 0 <= l2 <= self.toplevel && #[trigger] self.leaf_of(px, py, l1)
            && #[trigger] self.leaf_of(px, py, l2) implies l1 == l2 by {
            if l1 < level { assert(!self.leaf_of(px, py, l1)); }
            if l2 < level { assert(!self.leaf_of(px, py, l2)); }
        }
        assert forall|l1: int, l2: int| 0 <= l1 < l2 <= self.toplevel && #[trigger] self.leaf_of(px, py, l1)
            implies #[trigger] self.cell(l2, px / self.side(l2), py / self.side(l2)) is None by {
            if l1 < level { assert(!self.leaf_of(px, py, l1)); }
        }
    }

    /// The cache after one pixel changed to a state other than `Mixed`.
    pub open spec fn one_pixel_changed(c0: &CacheMap, c1: &CacheMap, pos: [i32; 2], pix: CellState) -> bool {
        &&& c1.wf()
        &&& c1.spec_size() == c0.spec_size()
        &&& c0.in_bounds(pos[0] as int, pos[1] as int)
        &&& pix != CellState::Mixed
        &&& c1.pixel(pos[0] as int, pos[1] as int) == pix
        &&& forall|x: int, y: int| c1.in_bounds(x, y) && !(x == pos[0] && y == pos[1]) ==>
            #[trigger] c1.pixel(x, y) == c0.pixel(x, y)
    }

    /// Setting the bottom-level cell of a changed pixel to its new state keeps the tree
    /// consistent, when that cell was the pixel's uniform cell.
    pub proof fn lemma_set_bottom_consistent(t0: QTree, t1: QTree, c0: &CacheMap, c1: &CacheMap, pos: [i32; 2], pix: CellState)
        requires
            t0.consistent(c0),
            Self::one_pixel_changed(c0, c1, pos, pix),
            t0.leaf_of(pos[0] as int, pos[1] as int, t0.toplevel as int),
            t1.toplevel == t0.toplevel,
            t1.levels.len() == t0.levels.len(),
            t1.cell(t0.toplevel as int, pos[0] as int, pos[1] as int) == Some(pix),
            forall|l: int, x: int, y: int| !(l == t0.toplevel && x == pos[0] && y == pos[1]) ==>
                #[trigger] t1.cell(l, x, y) == t0.cell(l, x, y),
        ensures
            t1.consistent(c1),
    {
        let top = t0.toplevel as int;
        assert(t0.side(top) == 1) by { vstd::arithmetic::power2::lemma2_to64(); }
        assert forall|px: int, py: int| c1.in_bounds(px, py) implies #[trigger] c1.pixel(px, py) != CellState::Mixed by {
            assert(c0.in_bounds(px, py));
        }
        assert forall|px: int, py: int| #![trigger t1.in_region(0, root_cell(), px, py)]
            t1.in_region(0, root_cell(), px, py) && c1.in_bounds(px, py) implies t1.pixel_built(c1, 0, px, py) by {
            assert(t0.in_region(0, root_cell(), px, py));
            assert(t0.pixel_built(c0, 0, px, py));
            vstd::arithmetic::div_mod::lemma_div_basics(px);
            vstd::arithmetic::div_mod::lemma_div_basics(py);
            if px == pos[0] && py == pos[1] {
                assert(t1.leaf_of(px, py, top));
                assert(t1.leaf_agrees(c1, px, py, top));
                assert forall|l: int| 0 <= l < top implies !#[trigger] t1.leaf_of(px, py, l) by {
                    assert(!t0.leaf_of(px, py, l));
                }
                assert forall|l1: int, l2: int| 0 <= l1 <= top && 0 <= l2 <= top && #[trigger] t1.leaf_of(px, py, l1)
                    && #[trigger] t1.leaf_of(px, py, l2) implies l1 == l2 by {}
            } else {
                assert forall|l: int| 0 <= l <= top implies
                    #[trigger] t1.cell(l, px / t0.side(l), py / t0.side(l)) == t0.cell(l, px / t0.side(l), py / t0.side(l)) by {}
                Self::lemma_pixel_built_frame(&t0, &t1, c0, 0, px, py);
                t1.lemma_pixel_built_cache(c0, c1, 0, px, py);
            }
        }
    }

    /// Rebuilding the subtree of the uniform cell of a changed pixel from the changed cache
    /// keeps the tree consistent.
    pub proof fn lemma_rebuild_consistent(t0: QTree, t1: QTree, t2: QTree, c0: &CacheMap, c1: &CacheMap,
        pos: [i32; 2], pix: CellState, level: int, cp: [i32; 2])
        requires
            t0.consistent(c0),
            Self::one_pixel_changed(c0, c1, pos, pix),
            0 <= level < t0.toplevel,
            cp[0] == pos[0] as int / t0.side(level),
            cp[1] == pos[1] as int / t0.side(level),
            t0.leaf_of(pos[0] as int, pos[1] as int, level),
            t1.toplevel == t0.toplevel,
            t2.toplevel == t0.toplevel,
            t2.levels.len() <= t2.toplevel + 1,
            forall|l: int, x: int, y: int| !(l == level && x == cp[0] && y == cp[1]) ==>
                #[trigger] t1.cell(l, x, y) == t0.cell(l, x, y),
            forall|l: int, x: int, y: int| !in_subtree(level, cp, l, x, y) ==>
                #[trigger] t2.cell(l, x, y) == t1.cell(l, x, y),
            t1.empty_below(c1, level, cp) && t1.region_unmixed(c1, level, cp) ==> t2.built(c1, level, cp),
        ensures
            t1.empty_below(c1, level, cp),
            t1.region_unmixed(c1, level, cp),
            t2.consistent(c1),
    {
        let top = t0.toplevel as int;
        assert forall|px: int, py: int| c1.in_bounds(px, py) implies #[trigger] c1.pixel(px, py) != CellState::Mixed by {
            assert(c0.in_bounds(px, py));
        }
        assert forall|px: int, py: int, l: int| t1.in_region(level, cp, px, py) && c1.in_bounds(px, py)
            && level < l <= top implies #[trigger] t1.cell(l, px / t1.side(l), py / t1.side(l)) is None by {
            t0.lemma_root_region(c0, px, py);
            assert(t0.pixel_built(c0, 0, px, py));
            assert(t0.leaf_of(px, py, level));
            assert(t0.cell(l, px / t0.side(l), py / t0.side(l)) is None);
        }
        assert(t2.built(c1, level, cp));
        assert forall|px: int, py: int| #![trigger t2.in_region(0, root_cell(), px, py)]
            t2.in_region(0, root_cell(), px, py) && c1.in_bounds(px, py) implies t2.pixel_built(c1, 0, px, py) by {
            assert(t0.in_region(0, root_cell(), px, py));
            assert(t0.pixel_built(c0, 0, px, py));
            if t0.in_region(level, cp, px, py) {
                assert(t0.leaf_of(px, py, level));
                assert forall|l: int| 0 <= l < level implies !#[trigger] t2.leaf_of(px, py, l) by {
                    assert(!t0.leaf_of(px, py, l));
                    assert(!in_subtree(level, cp, l, px / t0.side(l), py / t0.side(l)));
                    if l == level {
                    }
                }
                assert(t2.in_region(level, cp, px, py));
                assert(t2.pixel_built(c1, level, px, py));
                t2.lemma_extend_up(c1, level, px, py);
            } else {
                assert forall|l: int| 0 <= l <= top implies
                    #[trigger] t2.cell(l, px / t0.side(l), py / t0.side(l)) == t0.cell(l, px / t0.side(l), py / t0.side(l)) by {
                    if l >= level && in_subtree(level, cp, l, px / t0.side(l), py / t0.side(l)) {
                        lemma_div_pow2_compose(px, (top - l) as nat, (l - level) as nat);
                        lemma_div_pow2_compose(py, (top - l) as nat, (l - level) as nat);
                        assert((top - l) as nat + (l - level) as nat == (top - level) as nat);
                    }
                }
                Self::lemma_pixel_built_frame(&t0, &t2, c0, 0, px, py);
                assert(!(px == pos[0] && py == pos[1]));
                t2.lemma_pixel_built_cache(c0, c1, 0, px, py);
            }
        }
    }

    /// Consistency depends on the cache only through its pixels, its size and its soundness.
    pub proof fn lemma_same_pixels_consistent(t: QTree, c0: &CacheMap, c1: &CacheMap)
        requires
            t.consistent(c0),
            c1.wf(),
            c1.spec_size() == c0.spec_size(),
            forall|x: int, y: int| #[trigger] c1.pixel(x, y) == c0.pixel(x, y),
        ensures
            t.consistent(c1),
    {
        assert forall|px: int, py: int| #![trigger t.in_region(0, root_cell(), px, py)]
            t.in_region(0, root_cell(), px, py) && c1.in_bounds(px, py) implies t.pixel_built(c1, 0, px, py) by {
            t.lemma_pixel_built_cache(c0, c1, 0, px, py);
        }
        assert forall|x: int, y: int| c1.in_bounds(x, y) implies #[trigger] c1.pixel(x, y) != CellState::Mixed by {
            assert(c0.pixel(x, y) != CellState::Mixed);
        }
    }

    /// The uniform cells found from the cell `idx` of `level` downwards along `side`: the cell
    /// itself when it is uniform, otherwise (absent or `Mixed`) what its two children on that
    /// side yield, in order; nothing below the deepest level.
    pub open spec fn sub_find(&self, level: int, idx: [i32; 2], side: Side) -> Seq<(usize, [i32; 2])>
        decreases self.levels.len() - level,
    {
        if self.levels.len() <= level || level < 0 {
            Seq::empty()
        } else {
            match self.cell(level, idx[0] as int, idx[1] as int) {
                Some(st) if st != CellState::Mixed => seq![(level as usize, idx)],
                _ => {
                    let (a, b) = side_children(idx, side);
                    self.sub_find(level + 1, a, side) + self.sub_find(level + 1, b, side)
                },
            }
        }
    }

    /// Indices in range for a search below `level`.
    pub open spec fn idx_in_search_range(level: int, idx: [i32; 2]) -> bool {
        &&& -pow2(level as nat) <= idx[0] < 2 * pow2(level as nat)
        &&& -pow2(level as nat) <= idx[1] < 2 * pow2(level as nat)
    }

    /// Find a neighbor cell in given level or its sublevels.
    pub fn sub_recurse_find(&self, level: usize, idx: [i32; 2], side: Side) -> (res: Vec<(usize, [i32; 2])>)
        requires
            self.levels.len() <= 30,
            Self::idx_in_search_range(level as int, idx),
        ensures
            res@ == self.sub_find(level as int, idx, side),
        decreases self.levels.len() - level,
    {
        if self.levels.len() <= level {
            return Vec::new();
        }
        let same_level = match self.levels[level].get(&key_of(idx)) {
            Some(st) => Some(*st),
            None => None,
        };
        let recurse = match same_level {
            Some(CellState::Mixed) => true,
            Some(_) => false,
            None => true,
        };
        if recurse {
            let mut ret: Vec<(usize, [i32; 2])> = Vec::new();
            proof {
                vstd::arithmetic::power2::lemma_pow2_unfold((level + 1) as nat);
                vstd::arithmetic::power2::lemma2_to64();
                vstd::arithmetic::power2::lemma_pow2_strictly_increases(level as nat, 30);
            }
            let (x, y) = (idx[0] * 2, idx[1] * 2);
            let subcells = match side {
                Side::Left => [[x, y], [x, y + 1]],
                Side::Top => [[x, y], [x + 1, y]],
                Side::Right => [[x + 1, y], [x + 1, y + 1]],
                Side::Bottom => [[x, y + 1], [x + 1, y + 1]],
            };
            let ghost (a, b) = side_children(idx, side);
            assert(subcells[0] =~= a);
            assert(subcells[1] =~= b);
            let first = self.sub_recurse_find(level + 1, subcells[0], side);
            let second = self.sub_recurse_find(level + 1, subcells[1], side);
            let mut i: usize = 0;
            while i < first.len()
                invariant
                    i <= first.len(),
                    ret@ == first@.subrange(0, i as int),
                decreases first.len() - i,
            {
                ret.push(first[i]);
                i += 1;
            }
            let mut j: usize = 0;
            while j < second.len()
                invariant
                    j <= second.len(),
                    ret@ == first@ + second@.subrange(0, j as int),
                decreases second.len() - j,
            {
                ret.push(second[j]);
                j += 1;
            }
            assert(first@.subrange(0, first.len() as int) =~= first@);
            assert(second@.subrange(0, second.len() as int) =~= second@);
            ret
        } else {
            let mut ret: Vec<(usize, [i32; 2])> = Vec::new();
            ret.push((level, idx));
            ret
        }
    }

    /// Halves a cell index, rounding toward zero as Rust's `/` does.
    pub open spec fn halve(idx: [i32; 2]) -> [i32; 2] {
        [trunc_div(idx[0] as int, 2) as i32, trunc_div(idx[1] as int, 2) as i32]
    }

    /// Walking up from `level`, halving both indices at each step: `None` as soon as they meet,
    /// otherwise the first level whose cell at the halved neighbor index is present, with that
    /// index and state.
    pub open spec fn super_find_spec(&self, level: int, cur: [i32; 2], nb: [i32; 2]) -> Option<(usize, [i32; 2], CellState)>
        decreases level,
    {
        if level <= 0 {
            None
        } else {
            let c2 = Self::halve(cur);
            let n2 = Self::halve(nb);
            if c2 == n2 {
                None
            } else if let Some(st) = self.cell(level - 1, n2[0] as int, n2[1] as int) {
                Some(((level - 1) as usize, n2, st))
            } else {
                self.super_find_spec(level - 1, c2, n2)
            }
        }
    }

    /// Find a neighbor cell in higher levels. The current cell is necessary to stop searching early
    /// if the higher level cell is the same.
    pub fn super_find(&self, current_level: usize, current_idx: [i32; 2], neighbor_idx: [i32; 2])
        -> (res: Option<(usize, [i32; 2], CellState)>)
        requires
            current_level <= self.levels.len(),
        ensures
            res == self.super_find_spec(current_level as int, current_idx, neighbor_idx),
    {
        let mut supidx = current_idx;
        let mut neighbor_supidx = neighbor_idx;
        let mut suplevel = current_level;
        while suplevel > 0
            invariant
                suplevel <= current_level <= self.levels.len(),
                self.super_find_spec(current_level as int, current_idx, neighbor_idx)
                    == self.super_find_spec(suplevel as int, supidx, neighbor_supidx),
            decreases suplevel,
        {
            let ghost ps = supidx;
            let ghost pn = neighbor_supidx;
            suplevel -= 1;
            supidx = [supidx[0] / 2, supidx[1] / 2];
            neighbor_supidx = [neighbor_supidx[0] / 2, neighbor_supidx[1] / 2];
            assert(supidx =~= Self::halve(ps));
            assert(neighbor_supidx =~= Self::halve(pn));
            if supidx[0] == neighbor_supidx[0] && supidx[1] == neighbor_supidx[1] {
                assert(supidx =~= neighbor_supidx);
                return None;
            }
            if let Some(found_parent) = self.levels[suplevel].get(&key_of(neighbor_supidx)) {
                return Some((suplevel, neighbor_supidx, *found_parent));
            }
        }
        None
    }

    /// The neighbors found on one side: the uniform cells along that side at the same level or
    /// below, or else the enclosing cell found above, if any.
    pub open spec fn neighbors_on(&self, level: int, idx: [i32; 2], side: Side, offset: [i32; 2]) -> Seq<(usize, [i32; 2])> {
        let nb = [(idx[0] + offset[0]) as i32, (idx[1] + offset[1]) as i32];
        let sub = self.sub_find(level, nb, side);
        if sub.len() > 0 {
            sub
        } else if let Some(a) = self.super_find_spec(level, idx, nb) {
            seq![(a.0, a.1)]
        } else {
            Seq::empty()
        }
    }

    /// The neighbors of the cell `idx` of `level`, side by side.
    pub open spec fn neighbors_spec(&self, level: int, idx: [i32; 2]) -> Seq<(usize, [i32; 2])> {
        self.neighbors_on(level, idx, Side::Left, [1i32, 0i32])
            + self.neighbors_on(level, idx, Side::Top, [0i32, 1i32])
            + self.neighbors_on(level, idx, Side::Right, [-1i32, 0i32])
            + self.neighbors_on(level, idx, Side::Bottom, [0i32, -1i32])
    }

    /// The cells that neighbor the cell `idx` of `level`.
    pub fn find_neighbors(&self, level: usize, idx: [i32; 2]) -> (res: Vec<(usize, [i32; 2])>)
        requires
            self.levels.len() <= 30,
            level <= self.levels.len(),
            0 <= idx[0] < pow2(level as nat),
            0 <= idx[1] < pow2(level as nat),
        ensures
            res@ == self.neighbors_spec(level as int, idx),
    {
        let mut ret: Vec<(usize, [i32; 2])> = Vec::new();
        let sides = [(Side::Left, [1i32, 0i32]), (Side::Top, [0i32, 1i32]), (Side::Right, [-1i32, 0i32]), (Side::Bottom, [0i32, -1i32])];
        let ghost parts = seq![
            self.neighbors_on(level as int, idx, Side::Left, [1i32, 0i32]),
            self.neighbors_on(level as int, idx, Side::Top, [0i32, 1i32]),
            self.neighbors_on(level as int, idx, Side::Right, [-1i32, 0i32]),
            self.neighbors_on(level as int, idx, Side::Bottom, [0i32, -1i32])];
        proof {
            vstd::arithmetic::power2::lemma2_to64();
            vstd::arithmetic::power2::lemma_pow2_pos(level as nat);
            vstd::arithmetic::power2::lemma_pow2_strictly_increases(level as nat, 31);
        }
        let mut k: usize = 0;
        while k < 4
            invariant
                k <= 4,
                self.levels.len() <= 30,
                level <= self.levels.len(),
                0 <= idx[0] < pow2(level as nat),
                0 <= idx[1] < pow2(level as nat),
                pow2(level as nat) < 0x8000_0000,
                sides == [(Side::Left, [1i32, 0i32]), (Side::Top, [0i32, 1i32]), (Side::Right, [-1i32, 0i32]), (Side::Bottom, [0i32, -1i32])],
                forall|i: int| 0 <= i < 4 ==> #[trigger] parts[i] == self.neighbors_on(level as int, idx, sides[i].0, sides[i].1),
                parts.len() == 4,
                ret@ == if k == 0 { Seq::empty() } else if k == 1 { parts[0] } else if k == 2 { parts[0] + parts[1] }
                    else if k == 3 { parts[0] + parts[1] + parts[2] } else { parts[0] + parts[1] + parts[2] + parts[3] },
            decreases 4 - k,
        {
            let (side, offset) = sides[k];
            let neighbor_idx = [idx[0] + offset[0], idx[1] + offset[1]];
            let ghost expected = parts[k as int];
            let substates = self.sub_recurse_find(level, neighbor_idx, side);
            let ghost before = ret@;
            if substates.len() > 0 {
                let mut i: usize = 0;
                while i < substates.len()
                    invariant
                        i <= substates.len(),
                        ret@ == before + substates@.subrange(0, i as int),
                    decreases substates.len() - i,
                {
                    ret.push(substates[i]);
                    i += 1;
                }
                assert(substates@.subrange(0, substates.len() as int) =~= substates@);
                assert(expected == substates@);
            } else if let Some(ancestor) = self.super_find(level, idx, neighbor_idx) {
                ret.push((ancestor.0, ancestor.1));
                assert(ret@ =~= before + seq![(ancestor.0, ancestor.1)]);
            } else {
                assert(ret@ =~= before + Seq::<(usize, [i32; 2])>::empty());
            }
            assert(ret@ == before + expected);
            k += 1;
        }
        ret
    }
}

/// A cell blocks a path search when it is an obstacle, or is occupied by an agent that the
/// search does not ignore.
pub fn blocked<F: Fn(usize) -> bool>(state: CellState, ignore: &F) -> (res: bool)
    requires
        forall|id: usize| ignore.requires((id,)),
    ensures
        match state {
            CellState::Obstacle => res,
            CellState::Occupied(id) => ignore.ensures((id,), !res),
            _ => !res,
        },
{
    match state {
        CellState::Obstacle => true,
        CellState::Occupied(id) => !ignore(id),
        _ => false,
    }
}

} // verus!
