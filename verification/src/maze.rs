//! Generation of maze-like boards: a square board is grown at coarse resolutions first, each
//! resolution refining the one before, so that the free area stays one connected region.

use vstd::prelude::*;
use crate::xor128::{Xor128, xor128_next, xor128_seeded};
use crate::dijkstra::{cell_index, dijkstra_fill, direction, neighbors_filled, on_board, DijkstraField};

verus! {

/// The cell `(x, y)` of a board stored row by row with rows of width `w`.
pub open spec fn at(b: Seq<bool>, w: int, x: int, y: int) -> bool {
    b[x + y * w]
}

/// `(x, y)` lies on a board of width `w` and height `h`.
pub open spec fn in_grid(w: int, h: int, x: int, y: int) -> bool {
    0 <= x < w && 0 <= y < h
}

/// The free cell `(x, y)` reaches `(tx, ty)` in at most `k` steps between neighboring free cells.
pub open spec fn connected(b: Seq<bool>, w: int, h: int, x: int, y: int, tx: int, ty: int, k: nat) -> bool
    decreases k,
{
    &&& in_grid(w, h, x, y)
    &&& at(b, w, x, y)
    &&& ((x == tx && y == ty) || (k > 0 && (
        connected(b, w, h, x - 1, y, tx, ty, (k - 1) as nat)
        || connected(b, w, h, x, y - 1, tx, ty, (k - 1) as nat)
        || connected(b, w, h, x + 1, y, tx, ty, (k - 1) as nat)
        || connected(b, w, h, x, y + 1, tx, ty, (k - 1) as nat))))
}

/// Every free cell of the board reaches `(tx, ty)`: the free area is one connected region.
pub open spec fn all_connected(b: Seq<bool>, w: int, h: int, tx: int, ty: int) -> bool {
    forall|x: int, y: int| in_grid(w, h, x, y) && #[trigger] at(b, w, x, y) ==>
        exists|k: nat| connected(b, w, h, x, y, tx, ty, k)
}

/// Freeing more cells keeps every connection.
proof fn lemma_connected_mono(b1: Seq<bool>, b2: Seq<bool>, w: int, h: int, x: int, y: int, tx: int, ty: int, k: nat)
    requires
        connected(b1, w, h, x, y, tx, ty, k),
        forall|x2: int, y2: int| in_grid(w, h, x2, y2) && #[trigger] at(b1, w, x2, y2) ==> at(b2, w, x2, y2),
    ensures
        connected(b2, w, h, x, y, tx, ty, k),
    decreases k,
{
    if !(x == tx && y == ty) {
        let k1 = (k - 1) as nat;
        if connected(b1, w, h, x - 1, y, tx, ty, k1) {
            lemma_connected_mono(b1, b2, w, h, x - 1, y, tx, ty, k1);
        } else if connected(b1, w, h, x, y - 1, tx, ty, k1) {
            lemma_connected_mono(b1, b2, w, h, x, y - 1, tx, ty, k1);
        } else if connected(b1, w, h, x + 1, y, tx, ty, k1) {
            lemma_connected_mono(b1, b2, w, h, x + 1, y, tx, ty, k1);
        } else {
            lemma_connected_mono(b1, b2, w, h, x, y + 1, tx, ty, k1);
        }
    }
}

/// Freeing more cells keeps a connected board connected, when each newly freed cell reaches
/// the target.
proof fn lemma_all_connected_mono(b1: Seq<bool>, b2: Seq<bool>, w: int, h: int, tx: int, ty: int)
    requires
        all_connected(b1, w, h, tx, ty),
        forall|x2: int, y2: int| in_grid(w, h, x2, y2) && #[trigger] at(b1, w, x2, y2) ==> at(b2, w, x2, y2),
        forall|x2: int, y2: int| in_grid(w, h, x2, y2) && #[trigger] at(b2, w, x2, y2) && !at(b1, w, x2, y2) ==>
            exists|k: nat| connected(b2, w, h, x2, y2, tx, ty, k),
    ensures
        all_connected(b2, w, h, tx, ty),
{
    assert forall|x: int, y: int| in_grid(w, h, x, y) && #[trigger] at(b2, w, x, y) implies
        exists|k: nat| connected(b2, w, h, x, y, tx, ty, k) by {
        if at(b1, w, x, y) {
            let k = choose|k: nat| connected(b1, w, h, x, y, tx, ty, k);
            lemma_connected_mono(b1, b2, w, h, x, y, tx, ty, k);
        }
    }
}

/// A free cell next to a cell that reaches the target reaches it too, in one more step.
proof fn lemma_connected_step(b: Seq<bool>, w: int, h: int, x: int, y: int, px: int, py: int, tx: int, ty: int, k: nat)
    requires
        in_grid(w, h, x, y),
        at(b, w, x, y),
        connected(b, w, h, px, py, tx, ty, k),
        (px == x - 1 && py == y) || (px == x && py == y - 1) || (px == x + 1 && py == y) || (px == x && py == y + 1),
    ensures
        connected(b, w, h, x, y, tx, ty, k + 1),
{
    assert(((k + 1) - 1) as nat == k);
}

/// A cell that reaches the start of a flood fill is reached by it: the fill marks the start
/// and the free neighbors of every cell it marks.
proof fn lemma_connected_filled(costmap: Vec<i32>, b: Seq<bool>, shape: (usize, usize), x: int, y: int, cx: int, cy: int, k: nat)
    requires
        connected(b, shape.0 as int, shape.1 as int, x, y, cx, cy, k),
        costmap.is_filled_spec(cell_index(shape, cx, cy)),
        forall|x2: int, y2: int| on_board(shape, x2, y2) && #[trigger] costmap.is_filled_spec(cell_index(shape, x2, y2))
            ==> neighbors_filled(&costmap, b, shape, x2, y2),
    ensures
        costmap.is_filled_spec(cell_index(shape, x, y)),
    decreases k,
{
    let w = shape.0 as int;
    let h = shape.1 as int;
    if !(x == cx && y == cy) {
        let k1 = (k - 1) as nat;
        let (nx, ny, d) = if connected(b, w, h, x - 1, y, cx, cy, k1) {
            (x - 1, y, 2int)
        } else if connected(b, w, h, x, y - 1, cx, cy, k1) {
            (x, y - 1, 3int)
        } else if connected(b, w, h, x + 1, y, cx, cy, k1) {
            (x + 1, y, 0int)
        } else {
            (x, y + 1, 1int)
        };
        lemma_connected_filled(costmap, b, shape, nx, ny, cx, cy, k1);
        assert(neighbors_filled(&costmap, b, shape, nx, ny));
        assert(nx + direction(d)[0] == x && ny + direction(d)[1] == y);
        assert(b[cell_index(shape, x, y)] == at(b, w, x, y));
    }
}

/// The fine board holds, at each cell, the coarse cell that contains it: it is the coarse
/// board scaled up by `f`.
pub open spec fn scaled(fine: Seq<bool>, coarse: Seq<bool>, cw: int, ch: int, f: int) -> bool {
    forall|x: int, y: int| in_grid(cw * f, ch * f, x, y) ==>
        #[trigger] at(fine, cw * f, x, y) == at(coarse, cw, x / f, y / f)
}

/// Inside the block of a free coarse cell, every fine cell reaches what one of them reaches,
/// walking first along the row and then along the column.
proof fn lemma_block_walk(
    fine: Seq<bool>, coarse: Seq<bool>, cw: int, ch: int, f: int, bx: int, by: int,
    qx: int, qy: int, px: int, py: int, tx: int, ty: int, k: nat,
)
    requires
        f >= 1,
        scaled(fine, coarse, cw, ch, f),
        in_grid(cw, ch, bx, by),
        at(coarse, cw, bx, by),
        qx / f == bx, qy / f == by, px / f == bx, py / f == by,
        in_grid(cw * f, ch * f, qx, qy),
        in_grid(cw * f, ch * f, px, py),
        connected(fine, cw * f, ch * f, px, py, tx, ty, k),
    ensures
        connected(fine, cw * f, ch * f, qx, qy, tx, ty, (k + (if qx < px { px - qx } else { qx - px }) + (if qy < py { py - qy } else { qy - py })) as nat),
    decreases (if qx < px { px - qx } else { qx - px }) + (if qy < py { py - qy } else { qy - py }),
{
    let w = cw * f;
    let h = ch * f;
    let d = (if qx < px { px - qx } else { qx - px }) + (if qy < py { py - qy } else { qy - py });
    if d > 0 {
        let (nx, ny) = if qx < px {
            (qx + 1, qy)
        } else if qx > px {
            (qx - 1, qy)
        } else if qy < py {
            (qx, qy + 1)
        } else {
            (qx, qy - 1)
        };
        lemma_div_range(qx, f, bx);
        lemma_div_range(px, f, bx);
        lemma_div_range(nx, f, bx);
        lemma_div_range(qy, f, by);
        lemma_div_range(py, f, by);
        lemma_div_range(ny, f, by);
        lemma_block_walk(fine, coarse, cw, ch, f, bx, by, nx, ny, px, py, tx, ty, k);
        let dn = (if nx < px { px - nx } else { nx - px }) + (if ny < py { py - ny } else { ny - py });
        assert(dn == d - 1);
        assert(at(fine, w, qx, qy));
        lemma_connected_step(fine, w, h, qx, qy, nx, ny, tx, ty, (k + dn) as nat);
    } else {
        assert(qx == px && qy == py);
    }
}

/// `v / f == a` exactly when `v` lies in the `a`-th run of `f` integers.
proof fn lemma_div_range(v: int, f: int, a: int)
    requires
        0 < f,
    ensures
        (a * f <= v < (a + 1) * f) <==> v / f == a,
{
    crate::qtree::qtree::lemma_div_range(v, f, a);
}

/// Every fine cell in the block of a coarse cell that reaches the coarse target reaches the
/// fine target, which lies in the target's block.
proof fn lemma_block_connected(
    fine: Seq<bool>, coarse: Seq<bool>, cw: int, ch: int, f: int, cx: int, cy: int, fx: int, fy: int,
    bx: int, by: int, qx: int, qy: int, k: nat,
)
    requires
        f >= 1,
        cw >= 1,
        ch >= 1,
        scaled(fine, coarse, cw, ch, f),
        connected(coarse, cw, ch, bx, by, cx, cy, k),
        fx / f == cx,
        fy / f == cy,
        in_grid(cw * f, ch * f, fx, fy),
        qx / f == bx,
        qy / f == by,
        in_grid(cw * f, ch * f, qx, qy),
    ensures
        exists|k2: nat| #[trigger] connected(fine, cw * f, ch * f, qx, qy, fx, fy, k2),
    decreases k,
{
    let w = cw * f;
    let h = ch * f;
    lemma_div_range(bx * f, f, bx);
    lemma_div_range(bx * f - 1, f, bx - 1);
    lemma_div_range((bx + 1) * f - 1, f, bx);
    lemma_div_range((bx + 1) * f, f, bx + 1);
    lemma_div_range(by * f, f, by);
    lemma_div_range(by * f - 1, f, by - 1);
    lemma_div_range((by + 1) * f - 1, f, by);
    lemma_div_range((by + 1) * f, f, by + 1);
    lemma_div_range(qx, f, bx);
    lemma_div_range(qy, f, by);
    assert((bx + 1) * f == bx * f + f) by (nonlinear_arith);
    assert((by + 1) * f == by * f + f) by (nonlinear_arith);
    assert((bx - 1) * f == bx * f - f) by (nonlinear_arith);
    assert((by - 1) * f == by * f - f) by (nonlinear_arith);
    assert((bx + 2) * f == bx * f + f + f) by (nonlinear_arith);
    assert((by + 2) * f == by * f + f + f) by (nonlinear_arith);
    assert(cw * f == (cw - 1) * f + f) by (nonlinear_arith);
    assert(ch * f == (ch - 1) * f + f) by (nonlinear_arith);
    assert(bx <= cw - 1 ==> bx * f <= (cw - 1) * f) by (nonlinear_arith) requires f >= 1;
    assert(by <= ch - 1 ==> by * f <= (ch - 1) * f) by (nonlinear_arith) requires f >= 1;
    assert(0 <= bx ==> 0 <= bx * f) by (nonlinear_arith) requires f >= 1;
    assert(0 <= by ==> 0 <= by * f) by (nonlinear_arith) requires f >= 1;
    if bx == cx && by == cy {
        assert(at(fine, w, fx, fy));
        assert(connected(fine, w, h, fx, fy, fx, fy, 0));
        lemma_block_walk(fine, coarse, cw, ch, f, bx, by, qx, qy, fx, fy, fx, fy, 0);
    } else {
        let k1 = (k - 1) as nat;
        assert(connected(coarse, cw, ch, bx - 1, by, cx, cy, k1) || connected(coarse, cw, ch, bx, by - 1, cx, cy, k1)
            || connected(coarse, cw, ch, bx + 1, by, cx, cy, k1) || connected(coarse, cw, ch, bx, by + 1, cx, cy, k1));
        // the fine cells on either side of the border between the two blocks, in the row or
        // column of `q`
        let (nbx, nby, ox, oy, ix, iy) = if connected(coarse, cw, ch, bx - 1, by, cx, cy, k1) {
            (bx - 1, by, bx * f - 1, qy, bx * f, qy)
        } else if connected(coarse, cw, ch, bx, by - 1, cx, cy, k1) {
            (bx, by - 1, qx, by * f - 1, qx, by * f)
        } else if connected(coarse, cw, ch, bx + 1, by, cx, cy, k1) {
            (bx + 1, by, (bx + 1) * f, qy, (bx + 1) * f - 1, qy)
        } else {
            (bx, by + 1, qx, (by + 1) * f, qx, (by + 1) * f - 1)
        };
        assert(in_grid(cw, ch, nbx, nby));
        assert(nbx <= cw - 1 ==> nbx * f <= (cw - 1) * f) by (nonlinear_arith) requires f >= 1;
        assert(nby <= ch - 1 ==> nby * f <= (ch - 1) * f) by (nonlinear_arith) requires f >= 1;
        lemma_block_connected(fine, coarse, cw, ch, f, cx, cy, fx, fy, nbx, nby, ox, oy, k1);
        let k2 = choose|k2: nat| connected(fine, w, h, ox, oy, fx, fy, k2);
        assert(at(fine, w, ix, iy) == at(coarse, cw, bx, by));
        lemma_connected_step(fine, w, h, ix, iy, ox, oy, fx, fy, k2);
        lemma_block_walk(fine, coarse, cw, ch, f, bx, by, qx, qy, ix, iy, fx, fy, k2 + 1);
    }
}

/// Scaling a connected board up keeps it connected, towards a target inside the block of the
/// coarse target.
proof fn lemma_scaled_connected(
    fine: Seq<bool>, coarse: Seq<bool>, cw: int, ch: int, f: int, cx: int, cy: int, fx: int, fy: int,
)
    requires
        f >= 1,
        cw >= 1,
        ch >= 1,
        scaled(fine, coarse, cw, ch, f),
        all_connected(coarse, cw, ch, cx, cy),
        fx / f == cx,
        fy / f == cy,
        in_grid(cw * f, ch * f, fx, fy),
    ensures
        all_connected(fine, cw * f, ch * f, fx, fy),
{
    let w = cw * f;
    let h = ch * f;
    assert forall|x: int, y: int| in_grid(w, h, x, y) && #[trigger] at(fine, w, x, y) implies
        exists|k: nat| connected(fine, w, h, x, y, fx, fy, k) by {
        let bx = x / f;
        let by = y / f;
        lemma_div_range(x, f, bx);
        lemma_div_range(y, f, by);
        assert(bx < cw) by {
            if bx >= cw {
                assert(bx * f >= cw * f) by (nonlinear_arith) requires bx >= cw, f >= 1;
            }
        }
        assert(by < ch) by {
            if by >= ch {
                assert(by * f >= ch * f) by (nonlinear_arith) requires by >= ch, f >= 1;
            }
        }
        assert(0 <= bx) by {
            if bx < 0 {
                assert((bx + 1) * f <= 0) by (nonlinear_arith) requires bx + 1 <= 0, f >= 1;
            }
        }
        assert(0 <= by) by {
            if by < 0 {
                assert((by + 1) * f <= 0) by (nonlinear_arith) requires by + 1 <= 0, f >= 1;
            }
        }
        assert(at(coarse, cw, bx, by));
        let k = choose|k: nat| connected(coarse, cw, ch, bx, by, cx, cy, k);
        lemma_block_connected(fine, coarse, cw, ch, f, cx, cy, fx, fy, bx, by, x, y, k);
    }
}

/// A cell from which a maze expansion may start at this resolution: a cell in the wanted state,
/// and below the finest resolution one with even coordinates.
pub open spec fn eligible(b: Seq<bool>, mw: int, resolution: int, free: bool, i: int) -> bool {
    &&& b[i] == free
    &&& (resolution == 1 || ((i % mw) % 2 == 0 && (i / mw) % 2 == 0))
}

/// The number of eligible cells below index `n`.
pub open spec fn eligible_count(b: Seq<bool>, mw: int, resolution: int, free: bool, n: int) -> nat
    decreases n,
{
    if n <= 0 {
        0
    } else {
        eligible_count(b, mw, resolution, free, n - 1) + if eligible(b, mw, resolution, free, n - 1) { 1nat } else { 0nat }
    }
}

/// The cell at index `a + b * mw` has coordinates `(a, b)`.
proof fn lemma_index_coords(a: int, b: int, mw: int)
    requires
        0 <= a < mw,
        0 <= b,
    ensures
        (a + b * mw) % mw == a,
        (a + b * mw) / mw == b,
{
    vstd::arithmetic::div_mod::lemma_fundamental_div_mod_converse(a + b * mw, mw, b, a);
}

/// The coordinates of index `i` lie on the board.
pub proof fn lemma_coords_in_grid(i: int, mw: int, mh: int)
    requires
        0 <= i < mw * mh,
        mw >= 1,
    ensures
        in_grid(mw, mh, i % mw, i / mw),
        i % mw + (i / mw) * mw == i,
{
    vstd::arithmetic::div_mod::lemma_fundamental_div_mod(i, mw);
    assert(0 <= i / mw) by {
        vstd::arithmetic::div_mod::lemma_div_pos_is_pos(i, mw);
    }
    assert(i / mw < mh) by {
        if i / mw >= mh {
            assert((i / mw) * mw >= mh * mw) by (nonlinear_arith) requires i / mw >= mh, mw >= 1;
            assert(mh * mw == mw * mh) by (nonlinear_arith);
            assert(mw * (i / mw) == (i / mw) * mw) by (nonlinear_arith);
        }
    }
    assert(mw * (i / mw) == (i / mw) * mw) by (nonlinear_arith);
}

/// Whether cell `i` is eligible.
fn is_eligible(board: &Vec<bool>, mw: usize, resolution: usize, free: bool, i: usize) -> (res: bool)
    requires
        i < board.len(),
        mw >= 1,
    ensures
        res == eligible(board@, mw as int, resolution as int, free, i as int),
{
    let x = i % mw;
    let y = i / mw;
    if resolution == 1 {
        board[i] == free
    } else {
        x % 2 == 0 && y % 2 == 0 && board[i] == free
    }
}

/// The number of eligible cells.
fn count_eligible(board: &Vec<bool>, mw: usize, resolution: usize, free: bool) -> (res: usize)
    requires
        mw >= 1,
    ensures
        res == eligible_count(board@, mw as int, resolution as int, free, board.len() as int),
        res <= board.len(),
{
    let mut count: usize = 0;
    let mut i: usize = 0;
    while i < board.len()
        invariant
            mw >= 1,
            i <= board.len(),
            count == eligible_count(board@, mw as int, resolution as int, free, i as int),
            count <= i,
        decreases board.len() - i,
    {
        if is_eligible(board, mw, resolution, free, i) {
            count += 1;
        }
        i += 1;
    }
    count
}

/// The index of the `n`-th eligible cell from index `j` on (the board's length where there is
/// none).
pub open spec fn nth_eligible(b: Seq<bool>, mw: int, resolution: int, free: bool, n: int, j: int) -> int
    decreases b.len() - j,
{
    if j >= b.len() {
        b.len() as int
    } else if eligible(b, mw, resolution, free, j) {
        if n == 0 { j } else { nth_eligible(b, mw, resolution, free, n - 1, j + 1) }
    } else {
        nth_eligible(b, mw, resolution, free, n, j + 1)
    }
}

/// The index of the center cell of a board `mw` by `mh`.
pub open spec fn center_index(mw: int, mh: int) -> int {
    mw / 2 + (mh / 2) * mw
}

/// The cell that `pick_pixel` picks from generator state `g`, with the state after it: the
/// eligible cell numbered by the next draw modulo their count, or the center, without a draw,
/// when there is none.
pub open spec fn pick_uniform(b: Seq<bool>, mw: int, mh: int, resolution: int, free: bool, g: Xor128) -> (int, Xor128) {
    let cnt = eligible_count(b, mw, resolution, free, b.len() as int);
    if cnt == 0 {
        (center_index(mw, mh), g)
    } else {
        let g1 = xor128_next(g);
        (nth_eligible(b, mw, resolution, free, (g1.w as int) % (cnt as int), 0), g1)
    }
}

/// The weight of cell `j` in the draw: `cost_weight` of its cost where it is eligible, 0 otherwise.
pub open spec fn weight_at(b: Seq<bool>, cost: Seq<i32>, mw: int, resolution: int, free: bool, j: int) -> int {
    if eligible(b, mw, resolution, free, j) { cost_weight(cost[j] as int) } else { 0 }
}

/// The total weight of the cells below index `n`.
pub open spec fn weight_total(b: Seq<bool>, cost: Seq<i32>, mw: int, resolution: int, free: bool, n: int) -> int
    decreases n,
{
    if n <= 0 { 0 } else { weight_total(b, cost, mw, resolution, free, n - 1) + weight_at(b, cost, mw, resolution, free, n - 1) }
}

/// The weighted scan of `pick_pixel_cost` from index `j` with the weight `accum` passed so far:
/// the first eligible cell met once the drawn value `idx` is below the weight passed, or
/// `center` when the scan runs out.
pub open spec fn weighted_scan(b: Seq<bool>, cost: Seq<i32>, mw: int, resolution: int, free: bool, idx: int, j: int, accum: int, center: int) -> int
    decreases b.len() - j,
{
    if j >= b.len() {
        center
    } else if eligible(b, mw, resolution, free, j) {
        if idx < accum { j } else { weighted_scan(b, cost, mw, resolution, free, idx, j + 1, accum + weight_at(b, cost, mw, resolution, free, j), center) }
    } else {
        weighted_scan(b, cost, mw, resolution, free, idx, j + 1, accum, center)
    }
}

/// The cell that `pick_pixel_cost` picks from generator state `g`, with the state after it.
pub open spec fn pick_weighted(b: Seq<bool>, cost: Seq<i32>, mw: int, mh: int, resolution: int, free: bool, g: Xor128) -> (int, Xor128) {
    let total = weight_total(b, cost, mw, resolution, free, b.len() as int);
    if total == 0 {
        (center_index(mw, mh), g)
    } else {
        let g1 = xor128_next(g);
        (weighted_scan(b, cost, mw, resolution, free, (g1.w as int) % total, 0, 0, center_index(mw, mh)), g1)
    }
}

/// Picks a cell to start an expansion from: an eligible cell drawn uniformly, or the center
/// when there is none.
fn pick_pixel(board: &Vec<bool>, mw: usize, mh: usize, resolution: usize, free: bool, rand: &mut Xor128) -> (res: [i32; 2])
    requires
        mw >= 1,
        mh >= 1,
        board.len() == mw * mh,
        board.len() <= 0x10_0000,
    ensures
        in_grid(mw as int, mh as int, res[0] as int, res[1] as int),
        eligible(board@, mw as int, resolution as int, free, res[0] + res[1] * mw)
            || (eligible_count(board@, mw as int, resolution as int, free, board.len() as int) == 0
                && res[0] == mw / 2 && res[1] == mh / 2),
        (res[0] + res[1] * mw, *final(rand)) == pick_uniform(board@, mw as int, mh as int, resolution as int, free, *old(rand)),
{
    let n = board.len();
    let free_pixels = count_eligible(board, mw, resolution, free);
    let ret: usize = if free_pixels == 0 {
        proof {
            assert(mh / 2 < mh);
            assert(mw / 2 + (mh / 2) * mw < mw * mh) by (nonlinear_arith) requires mw / 2 < mw, mh / 2 < mh, mw >= 1;
        }
        mw / 2 + (mh / 2) * mw
    } else {
        let idx = (rand.nexti() % (free_pixels as u32)) as usize;
        let mut seen: usize = 0;
        let mut j: usize = 0;
        let mut found: usize = 0;
        let mut done = false;
        while j < n && !done
            invariant
                n == board.len(),
                mw >= 1,
                j <= n,
                idx < free_pixels,
                free_pixels == eligible_count(board@, mw as int, resolution as int, free, n as int),
                done ==> found < n && eligible(board@, mw as int, resolution as int, free, found as int),
                !done ==> seen == eligible_count(board@, mw as int, resolution as int, free, j as int) && seen <= idx,
                done ==> found == nth_eligible(board@, mw as int, resolution as int, free, idx as int, 0),
                !done ==> nth_eligible(board@, mw as int, resolution as int, free, idx as int, 0)
                    == nth_eligible(board@, mw as int, resolution as int, free, idx - seen, j as int),
            decreases n - j,
        {
            if is_eligible(board, mw, resolution, free, j) {
                if seen == idx {
                    found = j;
                    done = true;
                } else {
                    seen += 1;
                }
            }
            j += 1;
        }
        proof {
            if !done {
                assert(seen == free_pixels);
                assert(false);
            }
        }
        found
    };
    proof {
        lemma_coords_in_grid(ret as int, mw as int, mh as int);
        if free_pixels == 0 {
            lemma_index_coords((mw / 2) as int, (mh / 2) as int, mw as int);
        }
    }
    [(ret % mw) as i32, (ret / mw) as i32]
}

/// The weight of a cell at cost `c`: `(c + 1)^2`, so that cells far from the center are picked
/// more often.
pub open spec fn cost_weight(c: int) -> int {
    (c + 1) * (c + 1)
}

proof fn lemma_weight_bound(c: int, bound: int)
    requires
        0 <= c <= bound,
    ensures
        0 < cost_weight(c) <= cost_weight(bound),
{
    assert((c + 1) * (c + 1) <= (bound + 1) * (bound + 1)) by (nonlinear_arith) requires 0 <= c <= bound;
    assert((c + 1) * (c + 1) > 0) by (nonlinear_arith) requires 0 <= c;
}

proof fn lemma_sum_bound(total: int, i: int, m: int, n: int)
    requires
        0 <= total <= i * m,
        0 <= i < n <= 0x10_0000,
        0 <= m <= 0x200_0000_0000,
    ensures
        total + m <= (i + 1) * m,
        (i + 1) * m <= 0x10_0000 * 0x200_0000_0000,
{
    assert((i + 1) * m == i * m + m) by (nonlinear_arith);
    assert((i + 1) * m <= 0x10_0000 * 0x200_0000_0000) by (nonlinear_arith)
        requires i + 1 <= 0x10_0000, 0 <= m <= 0x200_0000_0000, 0 <= i;
}

/// Picks a cell to start an expansion from, preferring cells far from the center: eligible
/// cells are weighted by `cost_weight` of their cost, and one is drawn by weight. The center is
/// picked when no cell is eligible or the draw runs past the last one.
fn pick_pixel_cost(
    board: &Vec<bool>,
    costmap: &Vec<i32>,
    mw: usize,
    mh: usize,
    resolution: usize,
    free: bool,
    rand: &mut Xor128,
    Ghost(bound): Ghost<int>,
) -> (res: [i32; 2])
    requires
        mw >= 1,
        mh >= 1,
        board.len() == mw * mh,
        costmap.len() == board.len(),
        board.len() <= 0x10_0000,
        0 <= bound <= 0x10_0000,
        forall|i: int| 0 <= i < board.len() && eligible(board@, mw as int, resolution as int, free, i)
            ==> 0 <= #[trigger] costmap@[i] <= bound,
    ensures
        in_grid(mw as int, mh as int, res[0] as int, res[1] as int),
        eligible(board@, mw as int, resolution as int, free, res[0] + res[1] * mw)
            || (res[0] == mw / 2 && res[1] == mh / 2),
        (res[0] + res[1] * mw, *final(rand)) == pick_weighted(board@, costmap@, mw as int, mh as int, resolution as int, free, *old(rand)),
{
    let n = board.len();
    let ghost m = cost_weight(bound);
    proof {
        assert(m <= 0x200_0000_0000) by (nonlinear_arith) requires m == (bound + 1) * (bound + 1), 0 <= bound <= 0x10_0000;
    }
    let mut total_weights: u64 = 0;
    let mut i: usize = 0;
    while i < n
        invariant
            n == board.len(),
            costmap.len() == n,
            n <= 0x10_0000,
            mw >= 1,
            i <= n,
            0 <= bound <= 0x10_0000,
            m == cost_weight(bound),
            m <= 0x200_0000_0000,
            total_weights <= i * m,
            total_weights == weight_total(board@, costmap@, mw as int, resolution as int, free, i as int),
            forall|k: int| 0 <= k < n && eligible(board@, mw as int, resolution as int, free, k)
                ==> 0 <= #[trigger] costmap@[k] <= bound,
        decreases n - i,
    {
        proof {
            lemma_weight_bound(0, bound);
            lemma_sum_bound(total_weights as int, i as int, m, n as int);
        }
        if is_eligible(board, mw, resolution, free, i) {
            let cost = costmap[i] as u64 + 1;
            proof {
                lemma_weight_bound(costmap@[i as int] as int, bound);
                assert(cost * cost == cost_weight(costmap@[i as int] as int));
            }
            total_weights = total_weights + cost * cost;
        }
        i += 1;
    }
    proof {
        assert(mh / 2 < mh);
        assert(mw / 2 + (mh / 2) * mw < mw * mh) by (nonlinear_arith) requires mw / 2 < mw, mh / 2 < mh, mw >= 1;
    }
    let center: usize = mw / 2 + (mh / 2) * mw;
    let ret: usize = if total_weights == 0 {
        center
    } else {
        let idx = (rand.nexti() as u64) % total_weights;
        let mut accum: u64 = 0;
        let mut j: usize = 0;
        let mut found: usize = center;
        let mut done = false;
        while j < n && !done
            invariant
                n == board.len(),
                costmap.len() == n,
                n <= 0x10_0000,
                mw >= 1,
                j <= n,
                center < n,
                0 <= bound <= 0x10_0000,
                m == cost_weight(bound),
                m <= 0x200_0000_0000,
                accum <= j * m,
                forall|k: int| 0 <= k < n && eligible(board@, mw as int, resolution as int, free, k)
                    ==> 0 <= #[trigger] costmap@[k] <= bound,
                found < n,
                found == center || eligible(board@, mw as int, resolution as int, free, found as int),
                center == center_index(mw as int, mh as int),
                !done ==> found == center,
                done ==> found == weighted_scan(board@, costmap@, mw as int, resolution as int, free, idx as int, 0, 0, center as int),
                !done ==> weighted_scan(board@, costmap@, mw as int, resolution as int, free, idx as int, 0, 0, center as int)
                    == weighted_scan(board@, costmap@, mw as int, resolution as int, free, idx as int, j as int, accum as int, center as int),
            decreases n - j,
        {
            proof {
                lemma_weight_bound(0, bound);
                lemma_sum_bound(accum as int, j as int, m, n as int);
            }
            if is_eligible(board, mw, resolution, free, j) {
                if idx < accum {
                    found = j;
                    done = true;
                } else {
                    let cost = costmap[j] as u64 + 1;
                    proof {
                        lemma_weight_bound(costmap@[j as int] as int, bound);
                        assert(cost * cost == cost_weight(costmap@[j as int] as int));
                    }
                    accum = accum + cost * cost;
                }
            }
            j += 1;
        }
        found
    };
    proof {
        lemma_coords_in_grid(ret as int, mw as int, mh as int);
        if ret == center {
            lemma_index_coords((mw / 2) as int, (mh / 2) as int, mw as int);
        }
    }
    [(ret % mw) as i32, (ret / mw) as i32]
}

/// A free cell that reaches the target still does after one more cell is freed, and the freed
/// cell, next to it, reaches the target too.
proof fn lemma_free_next_to(
    b: Seq<bool>, w: int, x: int, y: int, nx: int, ny: int, tx: int, ty: int,
)
    requires
        w >= 1,
        b.len() == w * w,
        all_connected(b, w, w, tx, ty),
        in_grid(w, w, x, y),
        at(b, w, x, y),
        in_grid(w, w, nx, ny),
        (nx == x - 1 && ny == y) || (nx == x && ny == y - 1) || (nx == x + 1 && ny == y) || (nx == x && ny == y + 1),
    ensures
        all_connected(b.update(nx + ny * w, true), w, w, tx, ty),
        at(b.update(nx + ny * w, true), w, nx, ny),
{
    let b2 = b.update(nx + ny * w, true);
    crate::dijkstra::lemma_rect_index(nx, ny, w, w);
    assert forall|x2: int, y2: int| in_grid(w, w, x2, y2) && #[trigger] at(b, w, x2, y2) implies at(b2, w, x2, y2) by {
        crate::dijkstra::lemma_rect_index(x2, y2, w, w);
    }
    let k = choose|k: nat| connected(b, w, w, x, y, tx, ty, k);
    lemma_connected_mono(b, b2, w, w, x, y, tx, ty, k);
    assert(at(b2, w, nx, ny));
    lemma_connected_step(b2, w, w, nx, ny, x, y, tx, ty, k);
    assert forall|x2: int, y2: int| in_grid(w, w, x2, y2) && #[trigger] at(b2, w, x2, y2) && !at(b, w, x2, y2) implies
        exists|k2: nat| connected(b2, w, w, x2, y2, tx, ty, k2) by {
        crate::dijkstra::lemma_rect_index(x2, y2, w, w);
        if x2 + y2 * w == nx + ny * w {
            crate::dijkstra::lemma_rect_index_injective(x2, y2, nx, ny, w);
            assert(connected(b2, w, w, x2, y2, tx, ty, k + 1));
        }
    }
    lemma_all_connected_mono(b, b2, w, w, tx, ty);
}

/// `(dx, dy)` is one of the four unit steps.
pub open spec fn unit_dir(dx: int, dy: int) -> bool {
    (dx == -1 && dy == 0) || (dx == 0 && dy == -1) || (dx == 1 && dy == 0) || (dx == 0 && dy == 1)
}

/// The cells freed by walking `k` steps from `(x, y)` in direction `(dx, dy)` on a `w` by `w`
/// board: each step that stays on the board frees the cell it reaches and moves there; a step
/// that would leave the board is skipped.
pub open spec fn grow(b: Seq<bool>, w: int, x: int, y: int, dx: int, dy: int, k: nat) -> Seq<bool>
    decreases k,
{
    if k == 0 {
        b
    } else if in_grid(w, w, x + dx, y + dy) {
        grow(b.update((x + dx) + (y + dy) * w, true), w, x + dx, y + dy, dx, dy, (k - 1) as nat)
    } else {
        grow(b, w, x, y, dx, dy, (k - 1) as nat)
    }
}

/// A cell that an expansion may start from: a free cell that is eligible at this resolution, or
/// the center.
pub open spec fn expansion_source(b: Seq<bool>, w: int, resolution: int, x: int, y: int) -> bool {
    &&& in_grid(w, w, x, y)
    &&& (eligible(b, w, resolution, true, x + y * w) || (x == w / 2 && y == w / 2))
}

/// `b` is what `k` expansions make of `b0`: each expansion walks two steps in one of the four
/// directions from a start cell of the board as it then was.
pub open spec fn expanded(b0: Seq<bool>, b: Seq<bool>, w: int, resolution: int, k: nat) -> bool
    decreases k,
{
    if k == 0 {
        b == b0
    } else {
        exists|prev: Seq<bool>, x: int, y: int, dx: int, dy: int|
            expanded(b0, prev, w, resolution, (k - 1) as nat)
            && expansion_source(prev, w, resolution, x, y)
            && unit_dir(dx, dy)
            && b == #[trigger] grow(prev, w, x, y, dx, dy, 2)
    }
}

/// The step of direction `d`: left, up, right, down.
pub open spec fn expansion_dir(d: int) -> (int, int) {
    if d == 0 { (-1, 0) } else if d == 1 { (0, -1) } else if d == 2 { (1, 0) } else { (0, 1) }
}

/// The costs after walking `k` steps from `(x, y)` in direction `(dx, dy)` (see `grow`): each
/// cell reached costs one more than the cell it was reached from.
pub open spec fn grow_cost(cost: Seq<i32>, w: int, x: int, y: int, dx: int, dy: int, k: nat) -> Seq<i32>
    decreases k,
{
    if k == 0 {
        cost
    } else if in_grid(w, w, x + dx, y + dy) {
        grow_cost(cost.update((x + dx) + (y + dy) * w, (cost[x + y * w] + 1) as i32), w, x + dx, y + dy, dx, dy, (k - 1) as nat)
    } else {
        grow_cost(cost, w, x, y, dx, dy, (k - 1) as nat)
    }
}

/// The state of a maze being expanded: the maze, the costs of its cells (empty where costs
/// are not used), and the generator.
pub type ExpandState = (Seq<bool>, Seq<i32>, Xor128);

/// One expansion: a start cell is picked (by weight of cost where costs are used, uniformly
/// otherwise), a draw picks the direction, and up to two cells are freed along it.
pub open spec fn expand_step(use_cost: bool, mw: int, resolution: int, st: ExpandState) -> ExpandState {
    let (maze, cost, g) = st;
    let p = if use_cost { pick_weighted(maze, cost, mw, mw, resolution, true, g) } else { pick_uniform(maze, mw, mw, resolution, true, g) };
    let sx = p.0 % mw;
    let sy = p.0 / mw;
    let g2 = xor128_next(p.1);
    let dd = expansion_dir((g2.w as int) % 4);
    (
        grow(maze, mw, sx, sy, dd.0, dd.1, 2),
        if use_cost { grow_cost(cost, mw, sx, sy, dd.0, dd.1, 2) } else { cost },
        g2,
    )
}

/// The state after `k` expansions.
pub open spec fn expand_run(use_cost: bool, mw: int, resolution: int, st: ExpandState, k: nat) -> ExpandState
    decreases k,
{
    if k == 0 { st } else { expand_step(use_cost, mw, resolution, expand_run(use_cost, mw, resolution, st, (k - 1) as nat)) }
}

/// The free cell `(x, y)` of a `w` by `w` board lies at most `k` steps from `(sx, sy)`, each
/// step into a free neighbor.
pub open spec fn reach(b: Seq<bool>, w: int, sx: int, sy: int, k: nat, x: int, y: int) -> bool
    decreases k,
{
    if k == 0 {
        x == sx && y == sy
    } else {
        ||| reach(b, w, sx, sy, (k - 1) as nat, x, y)
        ||| in_grid(w, w, x, y) && at(b, w, x, y) && (
            reach(b, w, sx, sy, (k - 1) as nat, x + 1, y)
            || reach(b, w, sx, sy, (k - 1) as nat, x, y + 1)
            || reach(b, w, sx, sy, (k - 1) as nat, x - 1, y)
            || reach(b, w, sx, sy, (k - 1) as nat, x, y - 1))
    }
}

/// `cost` holds each cell's distance from the center through free cells: the fewest steps,
/// or `i32::MAX` where the center is out of reach.
pub open spec fn center_costs(b: Seq<bool>, w: int, cost: Seq<i32>) -> bool {
    &&& cost.len() == w * w
    &&& forall|x: int, y: int| #![trigger cost[x + y * w]] in_grid(w, w, x, y) ==> {
        let cc = cost[x + y * w];
        ||| cc == i32::MAX && forall|k: nat| !#[trigger] reach(b, w, w / 2, w / 2, k, x, y)
        ||| 0 <= cc < i32::MAX && reach(b, w, w / 2, w / 2, cc as nat, x, y)
            && (cc > 0 ==> !reach(b, w, w / 2, w / 2, (cc - 1) as nat, x, y))
    }
}

/// A level of the maze, `mw` cells wide, grown by `count` expansions drawn from the generator
/// started from `seed`, starting from `start`; at resolutions coarser than 2 the start cells are
/// drawn by their distance from the center in `start`.
pub open spec fn level_grown(start: Seq<bool>, level: Seq<bool>, mw: int, resolution: int, count: nat, seed: u32) -> bool {
    exists|cost0: Seq<i32>| #![trigger grown_from(start, cost0, mw, resolution, count, seed)]
        (if 2 < resolution { center_costs(start, mw, cost0) } else { cost0 == Seq::<i32>::empty() })
        && level == grown_from(start, cost0, mw, resolution, count, seed)
}

/// The cells after `count` expansions of `start` with the costs `cost0`, drawn from the generator
/// started from `seed`.
pub open spec fn grown_from(start: Seq<bool>, cost0: Seq<i32>, mw: int, resolution: int, count: nat, seed: u32) -> Seq<bool> {
    expand_run(2 < resolution, mw, resolution, (start, cost0, xor128_seeded(seed)), count).0
}

proof fn lemma_level_grown(start: Seq<bool>, level: Seq<bool>, mw: int, resolution: int, count: nat, seed: u32, cost0: Seq<i32>)
    requires
        if 2 < resolution { center_costs(start, mw, cost0) } else { cost0 == Seq::<i32>::empty() },
        level == expand_run(2 < resolution, mw, resolution, (start, cost0, xor128_seeded(seed)), count).0,
    ensures
        level_grown(start, level, mw, resolution, count, seed),
{
    assert(level == grown_from(start, cost0, mw, resolution, count, seed));
}

/// With every cell of `f0` unreached, the cells a flood from `start` can reach within `k` steps
/// are those `reach` gives.
proof fn lemma_within_reach(f0: &Vec<i32>, b: Seq<bool>, w: int, start: [i32; 2], k: nat, x: int, y: int)
    requires
        1 <= w <= 1024,
        b.len() == w * w,
        f0@.len() == b.len(),
        forall|i: int| 0 <= i < b.len() ==> #[trigger] f0@[i] == i32::MAX,
    ensures
        crate::dijkstra::within(f0, b, (w as usize, w as usize), start, k, x, y)
            == reach(b, w, start[0] as int, start[1] as int, k, x, y),
    decreases k,
{
    if k > 0 {
        let k1 = (k - 1) as nat;
        lemma_within_reach(f0, b, w, start, k1, x, y);
        lemma_within_reach(f0, b, w, start, k1, x + 1, y);
        lemma_within_reach(f0, b, w, start, k1, x, y + 1);
        lemma_within_reach(f0, b, w, start, k1, x - 1, y);
        lemma_within_reach(f0, b, w, start, k1, x, y - 1);
        let shape = (w as usize, w as usize);
        assert(shape.0 as int == w && shape.1 as int == w);
        if in_grid(w, w, x, y) {
            crate::dijkstra::lemma_rect_index(x, y, w, w);
            assert(!f0.is_filled_spec(x + y * w));
            assert(crate::dijkstra::enterable(f0, b, shape, x, y) == at(b, w, x, y));
        } else {
            assert(!crate::dijkstra::enterable(f0, b, shape, x, y));
        }
    }
}

/// Grows the free area of `maze` by `count` random expansions, each freeing up to two cells in
/// a straight line from a free cell. At resolutions coarser than 2 the start cells are drawn by
/// their distance from the center.
fn expand_maze(maze: &mut Vec<bool>, mw: usize, resolution: usize, seed: u32, count: usize)
    requires
        1 <= mw <= 1024,
        old(maze).len() == mw * mw,
        old(maze).len() <= 0x10_0000,
        2 < resolution ==> old(maze).len() + 2 * count <= 0x10_0000,
        all_connected(old(maze)@, mw as int, mw as int, (mw / 2) as int, (mw / 2) as int),
        at(old(maze)@, mw as int, (mw / 2) as int, (mw / 2) as int),
    ensures
        final(maze).len() == old(maze).len(),
        expanded(old(maze)@, final(maze)@, mw as int, resolution as int, count as nat),
        all_connected(final(maze)@, mw as int, mw as int, (mw / 2) as int, (mw / 2) as int),
        at(final(maze)@, mw as int, (mw / 2) as int, (mw / 2) as int),
        level_grown(old(maze)@, final(maze)@, mw as int, resolution as int, count as nat, seed),
{
    let ghost w = mw as int;
    let ghost c = (mw / 2) as int;
    let ghost orig = maze@;
    let n = maze.len();
    let mut rand = Xor128::new(seed);
    // The costmap is used to proritize unexplored areas of the map (having larger
    // distance from origin) to make the map more maze-like and "interesting".
    // We use costmap only in larger resolutions, because Dijkstra takes a bit of time
    // and we don't care too much about prioritizing unexplored area in lower resolutions,
    // where the general structure of the map is already built in larger resolutions.
    let use_cost = 2 < resolution;
    let mut costmap: Vec<i32> = Vec::new();
    if use_cost {
        costmap = vec![i32::MAX; n];
        let start = [(mw / 2) as i32, (mw / 2) as i32];
        let ghost before = costmap;
        proof {
            assert(forall|i: int| 0 <= i < n ==> #[trigger] before@[i] == i32::MAX);
            assert(on_board((mw, mw), start[0] as int, start[1] as int));
        }
        dijkstra_fill(maze.as_slice(), (mw, mw), start, &mut costmap);
        proof {
            let shape = (mw, mw);
            assert forall|x2: int, y2: int| on_board(shape, x2, y2) && #[trigger] costmap.is_filled_spec(cell_index(shape, x2, y2))
                implies neighbors_filled(&costmap, maze@, shape, x2, y2) by {
                crate::dijkstra::lemma_rect_index(x2, y2, w, w);
                assert(!before.is_filled_spec(cell_index(shape, x2, y2)));
            }
            assert forall|i: int| 0 <= i < n && #[trigger] maze@[i] implies 0 <= costmap@[i] <= n by {
                lemma_coords_in_grid(i, w, w);
                let x = i % w;
                let y = i / w;
                assert(at(maze@, w, x, y));
                let k = choose|k: nat| connected(maze@, w, w, x, y, c, c, k);
                assert(cell_index(shape, c, c) == cell_index(shape, start[0] as int, start[1] as int));
                lemma_connected_filled(costmap, maze@, shape, x, y, c, c, k);
                assert(cell_index(shape, x, y) == i);
                assert(costmap.is_filled_spec(i));
                assert(before@[i] == i32::MAX);
                assert(!before.is_filled_spec(i));
                let cc = choose|cc: i32| 0 <= cc <= n && #[trigger] costmap.value(i) == before.fill_value(cc);
            }
            let st: [i32; 2] = start;
            assert forall|x: int, y: int| #![trigger costmap@[x + y * w]] in_grid(w, w, x, y) implies {
                let cc = costmap@[x + y * w];
                ||| cc == i32::MAX && forall|k: nat| !#[trigger] reach(orig, w, w / 2, w / 2, k, x, y)
                ||| 0 <= cc < i32::MAX && reach(orig, w, w / 2, w / 2, cc as nat, x, y)
                    && (cc > 0 ==> !reach(orig, w, w / 2, w / 2, (cc - 1) as nat, x, y))
            } by {
                crate::dijkstra::lemma_rect_index(x, y, w, w);
                let i = x + y * w;
                assert(i == cell_index(shape, x, y));
                if costmap.is_filled_spec(i) {
                    assert(!before.is_filled_spec(i));
                    let cc = choose|cc: i32| 0 <= cc <= n && costmap.value(cell_index(shape, x, y)) == before.fill_value(cc)
                        && #[trigger] crate::dijkstra::at_distance(&before, maze@, shape, st, cc as nat, x, y);
                    lemma_within_reach(&before, orig, w, st, cc as nat, x, y);
                    if cc > 0 {
                        lemma_within_reach(&before, orig, w, st, (cc - 1) as nat, x, y);
                    }
                } else {
                    assert forall|k: nat| !#[trigger] reach(orig, w, w / 2, w / 2, k, x, y) by {
                        lemma_within_reach(&before, orig, w, st, k, x, y);
                    }
                }
            }
        }
    }
    let ghost cost0 = costmap@;
    proof {
        if use_cost {
            assert(center_costs(orig, w, cost0));
        } else {
            assert(cost0 =~= Seq::<i32>::empty());
        }
        assert((maze@, costmap@, rand) == expand_run(use_cost, w, resolution as int, (orig, cost0, xor128_seeded(seed)), 0));
    }
    let total = count;
    let mut t: usize = 0;
    while t < total
        invariant
            1 <= mw <= 1024,
            w == mw,
            c == mw / 2,
            n == maze.len(),
            n == mw * mw,
            n <= 0x10_0000,
            use_cost == (2 < resolution),
            use_cost ==> n + 2 * total <= 0x10_0000,
            t <= total,
            total == count,
            expanded(orig, maze@, w, resolution as int, t as nat),
            all_connected(maze@, w, w, c, c),
            at(maze@, w, c, c),
            use_cost ==> costmap.len() == n,
            use_cost ==> forall|i: int| 0 <= i < n && #[trigger] maze@[i] ==> 0 <= costmap@[i] <= n + 2 * t,
            (maze@, costmap@, rand) == expand_run(use_cost, w, resolution as int, (orig, cost0, xor128_seeded(seed)), t as nat),
            use_cost ==> center_costs(orig, w, cost0),
            !use_cost ==> cost0 == Seq::<i32>::empty(),
        decreases total - t,
    {
        let ghost prev = maze@;
        let ghost st: ExpandState = (maze@, costmap@, rand);
        let ghost cprev = costmap@;
        let source = if use_cost {
            pick_pixel_cost(maze, &costmap, mw, mw, resolution, true, &mut rand, Ghost((n + 2 * t) as int))
        } else {
            pick_pixel(maze, mw, mw, resolution, true, &mut rand)
        };
        let ghost pk = if use_cost { pick_weighted(st.0, st.1, w, w, resolution as int, true, st.2) }
            else { pick_uniform(st.0, w, w, resolution as int, true, st.2) };
        proof {
            crate::dijkstra::lemma_rect_index(source[0] as int, source[1] as int, w, w);
            assert(source[0] + source[1] * w == pk.0 && rand == pk.1);
            lemma_index_coords(source[0] as int, source[1] as int, w);
        }
        let d = rand.nexti() % 4;
        let ghost g2 = rand;
        let dir: [i32; 2] = if d == 0 {
            [-1, 0]
        } else if d == 1 {
            [0, -1]
        } else if d == 2 {
            [1, 0]
        } else {
            [0, 1]
        };
        proof {
            assert(expansion_source(prev, w, resolution as int, source[0] as int, source[1] as int));
        }
        let mut next = source;
        let mut step: usize = 0;
        while step < 2
            invariant
                1 <= mw <= 1024,
                w == mw,
                c == mw / 2,
                n == maze.len(),
                n == mw * mw,
                n <= 0x10_0000,
                use_cost == (2 < resolution),
                use_cost ==> n + 2 * total <= 0x10_0000,
                t < total,
                step <= 2,
                expanded(orig, prev, w, resolution as int, t as nat),
                expansion_source(prev, w, resolution as int, source[0] as int, source[1] as int),
                grow(maze@, w, next[0] as int, next[1] as int, dir[0] as int, dir[1] as int, (2 - step) as nat)
                    == grow(prev, w, source[0] as int, source[1] as int, dir[0] as int, dir[1] as int, 2),
                (dir[0] == -1 && dir[1] == 0) || (dir[0] == 0 && dir[1] == -1) || (dir[0] == 1 && dir[1] == 0) || (dir[0] == 0 && dir[1] == 1),
                all_connected(maze@, w, w, c, c),
                at(maze@, w, c, c),
                in_grid(w, w, next[0] as int, next[1] as int),
                at(maze@, w, next[0] as int, next[1] as int),
                use_cost ==> costmap.len() == n,
                use_cost ==> forall|i: int| 0 <= i < n && #[trigger] maze@[i] ==> 0 <= costmap@[i] <= n + 2 * t + step,
                use_cost ==> costmap@[next[0] + next[1] * w] <= n + 2 * t + step,
                use_cost ==> grow_cost(costmap@, w, next[0] as int, next[1] as int, dir[0] as int, dir[1] as int, (2 - step) as nat)
                    == grow_cost(cprev, w, source[0] as int, source[1] as int, dir[0] as int, dir[1] as int, 2),
                !use_cost ==> costmap@ == cprev,
            decreases 2 - step,
        {
            let next_next = [next[0] + dir[0], next[1] + dir[1]];
            if !(next_next[0] < 0 || mw as i32 <= next_next[0] || next_next[1] < 0 || mw as i32 <= next_next[1]) {
                proof {
                    crate::dijkstra::lemma_rect_index(next[0] as int, next[1] as int, w, w);
                    crate::dijkstra::lemma_rect_index(next_next[0] as int, next_next[1] as int, w, w);
                    lemma_free_next_to(maze@, w, next[0] as int, next[1] as int, next_next[0] as int, next_next[1] as int, c, c);
                    if next_next[0] + next_next[1] * w != c + c * w {
                        crate::dijkstra::lemma_rect_index(c, c, w, w);
                    }
                }
                let next_idx = next_next[0] as usize + next_next[1] as usize * mw;
                let ghost before = maze@;
                maze.set(next_idx, true);
                if use_cost {
                    // A heuristic cost estimation. This is not accurate, since a connection can make a lot of pixels
                    // change cost, but we don't want to repeat Dijkstra every time.
                    let ghost cbefore = costmap@;
                    let cost = costmap[next[0] as usize + next[1] as usize * mw] + 1;
                    costmap.set(next_idx, cost);
                    proof {
                        assert(costmap@ == cbefore.update(next_next[0] + next_next[1] * w,
                            (cbefore[next[0] + next[1] * w] + 1) as i32));
                    }
                }
                proof {
                    assert(at(maze@, w, c, c)) by {
                        crate::dijkstra::lemma_rect_index(c, c, w, w);
                    }
                }
                next = next_next;
            }
            step += 1;
        }
        proof {
            assert(unit_dir(dir[0] as int, dir[1] as int));
            assert(maze@ == grow(prev, w, source[0] as int, source[1] as int, dir[0] as int, dir[1] as int, 2));
            assert(g2 == xor128_next(pk.1));
            assert(d as int == (g2.w as int) % 4);
            assert((dir[0] as int, dir[1] as int) == expansion_dir((g2.w as int) % 4));
            assert((maze@, costmap@, rand) == expand_step(use_cost, w, resolution as int, st));
        }
        t += 1;
    }
    proof {
        assert(maze@ == expand_run(use_cost, w, resolution as int, (orig, cost0, xor128_seeded(seed)), count as nat).0);
        assert(use_cost == (2 < resolution as int));
        assert(use_cost ==> center_costs(orig, w, cost0));
        let ghost rs = resolution as int;
        if use_cost {
            assert(2 < rs);
            assert(maze@ == expand_run(true, w, rs, (orig, cost0, xor128_seeded(seed)), count as nat).0);
            assert(center_costs(orig, w, cost0) && maze@ == expand_run(2 < rs, w, rs, (orig, cost0, xor128_seeded(seed)), count as nat).0);
        } else {
            assert(!(2 < rs));
            assert(maze@ == expand_run(false, w, rs, (orig, cost0, xor128_seeded(seed)), count as nat).0);
            assert(center_costs(orig, w, cost0) || cost0 == Seq::<i32>::empty());
            assert(maze@ == expand_run(2 < rs, w, rs, (orig, cost0, xor128_seeded(seed)), count as nat).0);
        }
        lemma_level_grown(orig, maze@, w, rs, count as nat, seed, cost0);
    }
}

/// Taking every `r`-th cell of a board scaled up by `2r` scales the coarse board up by 2.
proof fn lemma_half_scale(x: int, r: int)
    requires
        0 <= x,
        1 <= r,
    ensures
        (x * r) / (2 * r) == x / 2,
{
    let q = x / 2;
    vstd::arithmetic::div_mod::lemma_fundamental_div_mod(x, 2);
    assert(q * (2 * r) <= x * r) by (nonlinear_arith) requires 2 * q <= x, 1 <= r;
    assert(x * r < (q + 1) * (2 * r)) by (nonlinear_arith) requires x < 2 * q + 2, 1 <= r;
    lemma_div_range(x * r, 2 * r, q);
}

/// The board that one resolution of the maze starts from, `mw` cells wide: the center cell is
/// free, and so is every cell whose parent in the coarser maze `prev` (half as wide) is free.
pub open spec fn seeded(prev: Option<Seq<bool>>, mw: int) -> Seq<bool> {
    Seq::new((mw * mw) as nat, |i: int|
        (i % mw == mw / 2 && i / mw == mw / 2) || (prev is Some && at(prev->0, mw / 2, (i % mw) / 2, (i / mw) / 2)))
}

/// `board`, `w` cells wide, is a maze grown through four resolutions: at 8, 4, 2 and 1 pixels
/// per cell the maze starts from the coarser one (`seeded`) and grows by
/// `maze_expansions / r / r` expansions (`expanded`); the board is the finest maze.
pub open spec fn grown_maze(board: Seq<bool>, w: int, maze_expansions: int) -> bool {
    exists|l8: Seq<bool>, l4: Seq<bool>, l2: Seq<bool>|
        #![trigger expanded(seeded(None, w / 8), l8, w / 8, 8, (maze_expansions / 8 / 8) as nat),
            expanded(seeded(Some(l8), w / 4), l4, w / 4, 4, (maze_expansions / 4 / 4) as nat),
            expanded(seeded(Some(l4), w / 2), l2, w / 2, 2, (maze_expansions / 2 / 2) as nat)]
        expanded(seeded(None, w / 8), l8, w / 8, 8, (maze_expansions / 8 / 8) as nat)
        && expanded(seeded(Some(l8), w / 4), l4, w / 4, 4, (maze_expansions / 4 / 4) as nat)
        && expanded(seeded(Some(l4), w / 2), l2, w / 2, 2, (maze_expansions / 2 / 2) as nat)
        && expanded(seeded(Some(l2), w), board, w, 1, (maze_expansions / 1 / 1) as nat)
}

/// `board`, `w` cells wide, is the maze that `seed` gives: the same four resolutions as in
/// `grown_maze`, each grown by the expansions that the generator started from `seed` draws
/// (`level_grown`).
pub open spec fn maze_from_seed(board: Seq<bool>, w: int, maze_expansions: int, seed: u32) -> bool {
    exists|l8: Seq<bool>, l4: Seq<bool>, l2: Seq<bool>|
        #![trigger level_grown(seeded(None, w / 8), l8, w / 8, 8, (maze_expansions / 8 / 8) as nat, seed),
            level_grown(seeded(Some(l8), w / 4), l4, w / 4, 4, (maze_expansions / 4 / 4) as nat, seed),
            level_grown(seeded(Some(l4), w / 2), l2, w / 2, 2, (maze_expansions / 2 / 2) as nat, seed)]
        level_grown(seeded(None, w / 8), l8, w / 8, 8, (maze_expansions / 8 / 8) as nat, seed)
        && level_grown(seeded(Some(l8), w / 4), l4, w / 4, 4, (maze_expansions / 4 / 4) as nat, seed)
        && level_grown(seeded(Some(l4), w / 2), l2, w / 2, 2, (maze_expansions / 2 / 2) as nat, seed)
        && level_grown(seeded(Some(l2), w), board, w, 1, (maze_expansions / 1 / 1) as nat, seed)
}

/// One resolution of the maze: the board is sampled down to cells of `r` by `r` pixels, the
/// center cell is freed, the free area is grown, and the result is scaled back up onto the
/// board. Returns the coarse maze.
fn refine(
    board: &mut Vec<bool>,
    shape: (usize, usize),
    resolution: usize,
    seed: u32,
    maze_expansions: usize,
    Ghost(prev): Ghost<Option<Seq<bool>>>,
) -> (level: Ghost<Seq<bool>>)
    requires
        shape.0 == shape.1,
        shape.0 % 8 == 0,
        8 <= shape.0 <= 1024,
        old(board).len() == shape.0 * shape.1,
        resolution == 1 || resolution == 2 || resolution == 4 || resolution == 8,
        maze_expansions <= 0x4_0000,
        prev is None ==> resolution == 8 && forall|i: int| 0 <= i < old(board).len() ==> !#[trigger] old(board)@[i],
        prev is Some ==> {
            let cw = shape.0 as int / (2 * resolution as int);
            &&& resolution <= 4
            &&& scaled(old(board)@, prev->0, cw, cw, 2 * resolution as int)
            &&& all_connected(prev->0, cw, cw, cw / 2, cw / 2)
            &&& at(prev->0, cw, cw / 2, cw / 2)
        },
    ensures
        final(board).len() == shape.0 * shape.1,
        ({
            let mw = (shape.0 / resolution) as int;
            &&& scaled(final(board)@, level@, mw, mw, resolution as int)
            &&& all_connected(level@, mw, mw, mw / 2, mw / 2)
            &&& at(level@, mw, mw / 2, mw / 2)
            &&& level@.len() == mw * mw
            &&& expanded(seeded(prev, mw), level@, mw, resolution as int,
                (maze_expansions as int / resolution as int / resolution as int) as nat)
            &&& level_grown(seeded(prev, mw), level@, mw, resolution as int,
                (maze_expansions as int / resolution as int / resolution as int) as nat, seed)
        }),
{
    let ghost w = shape.0 as int;
    let ghost r = resolution as int;
    let maze_shape = (shape.0 / resolution, shape.1 / resolution);
    let ghost mw = maze_shape.0 as int;
    proof {
        assert(mw * r == w) by {
            vstd::arithmetic::div_mod::lemma_fundamental_div_mod(w, r);
            assert(w % r == 0) by {
                if r == 1 { } else if r == 2 { } else if r == 4 { } else { }
            }
            assert(r * (w / r) == mw * r) by (nonlinear_arith) requires mw == w / r;
        }
        assert(1 <= mw <= 1024) by {
            if mw < 1 { assert(mw * r < r) by (nonlinear_arith) requires mw < 1, r >= 1; }
            if mw > 1024 { assert(mw * r > 1024) by (nonlinear_arith) requires mw > 1024, r >= 1; }
        }
        assert(mw * mw <= w * w) by (nonlinear_arith) requires mw <= w, 1 <= mw;
        assert(w * w <= 0x10_0000) by (nonlinear_arith) requires 0 <= w <= 1024;
    }
    let mut maze_board: Vec<bool> = vec![false; maze_shape.0 * maze_shape.1];
    proof {
        assert forall|x: int, y: int| in_grid(mw, mw, x, y) implies !#[trigger] at(maze_board@, mw, x, y) by {
            crate::dijkstra::lemma_rect_index(x, y, mw, mw);
        }
    }
    // Downsample
    let mut ix: usize = 0;
    while ix < maze_shape.0
        invariant
            maze_shape.0 == mw,
            maze_shape.1 == mw,
            shape.1 as int == w,
            mw * r == w,
            1 <= mw <= 1024,
            1 <= r,
            r == resolution,
            board.len() == w * w,
            maze_board.len() == mw * mw,
            ix <= mw,
            forall|x: int, y: int| in_grid(mw, mw, x, y) ==> #[trigger] at(maze_board@, mw, x, y)
                == if x < ix { at(board@, w, x * r, y * r) } else { false },
        decreases mw - ix,
    {
        let mut iy: usize = 0;
        while iy < maze_shape.1
            invariant
                maze_shape.0 == mw,
                maze_shape.1 == mw,
                shape.1 as int == w,
                mw * r == w,
                1 <= mw <= 1024,
                1 <= r,
                r == resolution,
            r == resolution,
                board.len() == w * w,
                maze_board.len() == mw * mw,
                ix < mw,
                iy <= mw,
                forall|x: int, y: int| in_grid(mw, mw, x, y) ==> #[trigger] at(maze_board@, mw, x, y)
                    == if x < ix || (x == ix && y < iy) { at(board@, w, x * r, y * r) } else { false },
            decreases mw - iy,
        {
            proof {
                crate::dijkstra::lemma_rect_index(ix as int, iy as int, mw, mw);
                assert(ix * r < w && iy * r < w) by (nonlinear_arith) requires ix < mw, iy < mw, mw * r == w, 1 <= r;
                assert(0 <= ix * r && 0 <= iy * r) by (nonlinear_arith) requires 0 <= ix, 0 <= iy, 1 <= r;
                crate::dijkstra::lemma_rect_index(ix * r, iy * r, w, w);
                assert(iy * r * w == (iy * r) * w);
                assert(ix * resolution == ix * r);
                assert(iy * resolution * shape.1 == (iy * r) * w);
            }
            let value = board[ix * resolution + iy * resolution * shape.1];
            assert(value == at(board@, w, ix * r, iy * r));
            let ghost old_maze = maze_board@;
            maze_board.set(ix + iy * maze_shape.1, value);
            proof {
                assert forall|x: int, y: int| in_grid(mw, mw, x, y) implies #[trigger] at(maze_board@, mw, x, y)
                    == if x < ix || (x == ix && y < iy + 1) { at(board@, w, x * r, y * r) } else { false } by {
                    crate::dijkstra::lemma_rect_index(x, y, mw, mw);
                    if x + y * mw == ix + iy * mw {
                        crate::dijkstra::lemma_rect_index_injective(x, y, ix as int, iy as int, mw);
                        assert(at(maze_board@, mw, x, y) == value);
                    } else {
                        assert(at(maze_board@, mw, x, y) == at(old_maze, mw, x, y));
                    }
                }
            }
            iy += 1;
        }
        ix += 1;
    }
    let ghost down = maze_board@;
    proof {
        if let Some(p) = prev {
            let cw = shape.0 as int / (2 * resolution as int);
            assert(cw * 2 == mw && cw * (2 * r) == w) by {
                vstd::arithmetic::div_mod::lemma_fundamental_div_mod(w, 2 * r);
                assert(w % (2 * r) == 0) by {
                    if r == 1 { } else if r == 2 { } else { }
                }
                assert((2 * r) * (w / (2 * r)) == cw * (2 * r)) by (nonlinear_arith) requires cw == w / (2 * r);
                assert(cw * 2 * r == mw * r) by (nonlinear_arith) requires cw * (2 * r) == w, mw * r == w;
                assert(cw * 2 == mw) by (nonlinear_arith) requires cw * 2 * r == mw * r, r >= 1;
            }
            assert forall|x: int, y: int| in_grid(cw * 2, cw * 2, x, y) implies
                #[trigger] at(down, cw * 2, x, y) == at(p, cw, x / 2, y / 2) by {
                assert(x * r < w && y * r < w) by (nonlinear_arith) requires 0 <= x < mw, 0 <= y < mw, mw * r == w, 1 <= r;
                assert(0 <= x * r && 0 <= y * r) by (nonlinear_arith) requires 0 <= x, 0 <= y, 1 <= r;
                assert(in_grid(cw * (2 * r), cw * (2 * r), x * r, y * r));
                assert(at(board@, cw * (2 * r), x * r, y * r) == at(p, cw, (x * r) / (2 * r), (y * r) / (2 * r)));
                lemma_half_scale(x, r);
                lemma_half_scale(y, r);
            }
            assert(scaled(down, p, cw, cw, 2));
            lemma_scaled_connected(down, p, cw, cw, 2, cw / 2, cw / 2, mw / 2, mw / 2);
        }
    }
    proof {
        crate::dijkstra::lemma_rect_index(mw / 2, mw / 2, mw, mw);
    }
    let center = maze_shape.0 / 2 + (maze_shape.1 / 2) * maze_shape.0;
    maze_board.set(center, true);
    proof {
        let c = mw / 2;
        assert(at(maze_board@, mw, c, c));
        assert(connected(maze_board@, mw, mw, c, c, c, c, 0));
        assert forall|x2: int, y2: int| in_grid(mw, mw, x2, y2) && #[trigger] at(maze_board@, mw, x2, y2) && !at(down, mw, x2, y2)
            implies exists|k: nat| connected(maze_board@, mw, mw, x2, y2, c, c, k) by {
            crate::dijkstra::lemma_rect_index(x2, y2, mw, mw);
            if x2 + y2 * mw == c + c * mw {
                crate::dijkstra::lemma_rect_index_injective(x2, y2, c, c, mw);
                assert(connected(maze_board@, mw, mw, x2, y2, c, c, 0));
            }
        }
        assert forall|x2: int, y2: int| in_grid(mw, mw, x2, y2) && #[trigger] at(down, mw, x2, y2) implies at(maze_board@, mw, x2, y2) by {
            crate::dijkstra::lemma_rect_index(x2, y2, mw, mw);
        }
        if prev is None {
            assert forall|x: int, y: int| in_grid(mw, mw, x, y) && #[trigger] at(down, mw, x, y) implies
                exists|k: nat| connected(down, mw, mw, x, y, c, c, k) by {
                assert(x * r < w && y * r < w) by (nonlinear_arith) requires 0 <= x < mw, 0 <= y < mw, mw * r == w, 1 <= r;
                assert(0 <= x * r && 0 <= y * r) by (nonlinear_arith) requires 0 <= x, 0 <= y, 1 <= r;
                crate::dijkstra::lemma_rect_index(x * r, y * r, w, w);
            }
        }
        lemma_all_connected_mono(down, maze_board@, mw, mw, c, c);
    }
    let expansions = maze_expansions / resolution / resolution;
    proof {
        if 2 < resolution {
            assert(mw <= 256);
            assert(mw * mw <= 0x1_0000) by (nonlinear_arith) requires 1 <= mw <= 256;
        }
    }
    proof {
        let c = mw / 2;
        assert(maze_board@ =~= seeded(prev, mw)) by {
            assert forall|i: int| 0 <= i < mw * mw implies #[trigger] maze_board@[i] == seeded(prev, mw)[i] by {
                lemma_coords_in_grid(i, mw, mw);
                let x = i % mw;
                let y = i / mw;
                assert(maze_board@[i] == at(maze_board@, mw, x, y));
                if !(x == c && y == c) {
                    lemma_index_coords(c, c, mw);
                    crate::dijkstra::lemma_rect_index(c, c, mw, mw);
                    assert(i != c + c * mw);
                    assert(at(maze_board@, mw, x, y) == at(down, mw, x, y));
                    if prev is None {
                        crate::dijkstra::lemma_rect_index(x * r, y * r, w, w);
                    } else {
                        let cw = shape.0 as int / (2 * resolution as int);
                        assert(cw * 2 == mw);
                        assert(mw / 2 == cw);
                    }
                }
            }
        }
    }
    expand_maze(&mut maze_board, maze_shape.0, resolution, seed, expansions);
    // Upsample
    let mut ix: usize = 0;
    while ix < shape.0
        invariant
            maze_shape.0 == mw,
            shape.0 as int == w,
            shape.1 as int == w,
            mw * r == w,
            1 <= mw <= 1024,
            r == resolution,
            1 <= r,
            board.len() == w * w,
            maze_board.len() == mw * mw,
            ix <= w,
            forall|x: int, y: int| in_grid(w, w, x, y) && x < ix ==> #[trigger] at(board@, w, x, y) == at(maze_board@, mw, x / r, y / r),
        decreases w - ix,
    {
        let mut iy: usize = 0;
        while iy < shape.1
            invariant
                maze_shape.0 == mw,
                shape.0 as int == w,
                shape.1 as int == w,
                mw * r == w,
                1 <= mw <= 1024,
                r == resolution,
                1 <= r,
                board.len() == w * w,
                maze_board.len() == mw * mw,
                ix < w,
                iy <= w,
                forall|x: int, y: int| in_grid(w, w, x, y) && (x < ix || (x == ix && y < iy)) ==>
                    #[trigger] at(board@, w, x, y) == at(maze_board@, mw, x / r, y / r),
            decreases w - iy,
        {
            proof {
                crate::dijkstra::lemma_rect_index(ix as int, iy as int, w, w);
                lemma_div_range(ix as int, r, ix as int / r);
                lemma_div_range(iy as int, r, iy as int / r);
                let qx = ix as int / r;
                let qy = iy as int / r;
                assert(qx < mw && qy < mw) by {
                    if qx >= mw { assert(qx * r >= mw * r) by (nonlinear_arith) requires qx >= mw, r >= 1; }
                    if qy >= mw { assert(qy * r >= mw * r) by (nonlinear_arith) requires qy >= mw, r >= 1; }
                }
                assert(0 <= qx && 0 <= qy) by {
                    if qx < 0 { assert((qx + 1) * r <= 0) by (nonlinear_arith) requires qx + 1 <= 0, r >= 1; }
                    if qy < 0 { assert((qy + 1) * r <= 0) by (nonlinear_arith) requires qy + 1 <= 0, r >= 1; }
                }
                crate::dijkstra::lemma_rect_index(qx, qy, mw, mw);
            }
            let value = maze_board[ix / resolution + iy / resolution * maze_shape.0];
            let ghost qx = ix as int / r;
            let ghost qy = iy as int / r;
            assert(value == at(maze_board@, mw, qx, qy));
            let ghost old_board = board@;
            board.set(ix + iy * shape.0, value);
            proof {
                assert forall|x: int, y: int| in_grid(w, w, x, y) && (x < ix || (x == ix && y < iy + 1)) implies
                    #[trigger] at(board@, w, x, y) == at(maze_board@, mw, x / r, y / r) by {
                    crate::dijkstra::lemma_rect_index(x, y, w, w);
                    if x + y * w == ix + iy * w {
                        crate::dijkstra::lemma_rect_index_injective(x, y, ix as int, iy as int, w);
                        assert(at(board@, w, x, y) == value);
                    } else {
                        assert(at(board@, w, x, y) == at(old_board, w, x, y));
                    }
                }
            }
            iy += 1;
        }
        ix += 1;
    }
    Ghost(maze_board@)
}

/// An algorithm to generate a maze-like map with some amount of random noise.
///
/// It ensures the free map as one connected region, unlike the one with Perlin noise.
/// It uses multiple resolution and distance map to create a maze-like structure and randomness on the border.
/// The resolutions are power of 2 to make it better fit to QTree.
///
/// Returns the board, row by row, `true` where free. Each resolution draws from the xorshift
/// generator started anew from `seed`: the start of each expansion (weighted by distance from
/// the center at 8 and 4 pixels per cell, uniform below) and its direction. The board is the
/// one that `seed` gives (`maze_from_seed`), and so is grown from the center by eligible
/// expansions (`grown_maze`).
///
/// The board is square, with a side that is a multiple of 8 and at least 8: on other shapes
/// scaling between resolutions reads past the end of a level (a side that is not a multiple of
/// 8, or below 8, or a board taller than wide) or mixes rows of different widths (a board
/// wider than tall, where the free area is then not always one region). The side is at most 1024 and there are at most `0x4_0000` expansions, so
/// that the costs and the drawing weights stay within their integer types.
pub fn maze_board(shape: (usize, usize), seed: u32, maze_expansions: usize) -> (board: Vec<bool>)
    requires
        shape.0 == shape.1,
        shape.0 % 8 == 0,
        8 <= shape.0 <= 1024,
        maze_expansions <= 0x4_0000,
    ensures
        board.len() == shape.0 * shape.1,
        at(board@, shape.0 as int, (shape.0 / 2) as int, (shape.1 / 2) as int),
        all_connected(board@, shape.0 as int, shape.1 as int, (shape.0 / 2) as int, (shape.1 / 2) as int),
        grown_maze(board@, shape.0 as int, maze_expansions as int),
        maze_from_seed(board@, shape.0 as int, maze_expansions as int, seed),
{
    proof {
        assert(shape.0 * shape.1 <= 0x10_0000) by (nonlinear_arith) requires shape.0 == shape.1, shape.0 <= 1024;
    }
    let mut board: Vec<bool> = vec![false; shape.0 * shape.1];
    let ghost w = shape.0 as int;
    proof {
        assert(forall|i: int| 0 <= i < board.len() ==> !#[trigger] board@[i]);
    }
    let level8 = refine(&mut board, shape, 8, seed, maze_expansions, Ghost(None));
    proof {
        assert(w / 8 == w / (2 * 4int));
    }
    let level4 = refine(&mut board, shape, 4, seed, maze_expansions, Ghost(Some(level8@)));
    proof {
        assert(w / 4 == w / (2 * 2int));
    }
    let level2 = refine(&mut board, shape, 2, seed, maze_expansions, Ghost(Some(level4@)));
    proof {
        assert(w / 2 == w / (2 * 1int));
    }
    let level1 = refine(&mut board, shape, 1, seed, maze_expansions, Ghost(Some(level2@)));
    proof {
        let l = level1@;
        assert(w / 1 == w);
        assert(w * 1 == w);
        assert forall|x: int| #[trigger] (x / 1) == x by {}
        lemma_scaled_connected(board@, l, w, w, 1, w / 2, w / 2, w / 2, w / 2);
        assert(at(board@, w, w / 2, w / 2) == at(l, w, w / 2, w / 2));
        assert(board@ =~= l) by {
            assert forall|i: int| 0 <= i < w * w implies #[trigger] board@[i] == l[i] by {
                lemma_coords_in_grid(i, w, w);
                assert(at(board@, w * 1, i % w, i / w) == at(l, w, (i % w) / 1, (i / w) / 1));
            }
        }
        let e = maze_expansions as int;
        assert(expanded(seeded(None, w / 8), level8@, w / 8, 8, (e / 8 / 8) as nat));
        assert(expanded(seeded(Some(level8@), w / 4), level4@, w / 4, 4, (e / 4 / 4) as nat));
        assert(expanded(seeded(Some(level4@), w / 2), level2@, w / 2, 2, (e / 2 / 2) as nat));
        assert(expanded(seeded(Some(level2@), w), board@, w, 1, (e / 1 / 1) as nat));
        assert(level_grown(seeded(None, w / 8), level8@, w / 8, 8, (e / 8 / 8) as nat, seed));
        assert(level_grown(seeded(Some(level8@), w / 4), level4@, w / 4, 4, (e / 4 / 4) as nat, seed));
        assert(level_grown(seeded(Some(level4@), w / 2), level2@, w / 2, 2, (e / 2 / 2) as nat, seed));
        assert(level_grown(seeded(Some(level2@), w), board@, w, 1, (e / 1 / 1) as nat, seed));
    }
    board
}

} // verus!
