//! Fog of war cleared by raycasting: what an entity sees within its vision range, where each
//! obstacle casts the shadow that a precomputed ray map gives it.

use vstd::prelude::*;
use crate::fog::FogOfWar;
use crate::game::{passable_at, is_passable_at_i};

verus! {

/// The radius that an entity sees, in pixels.
pub const VISION_RANGE: i32 = 15;

/// The side of the visibility map of an entity that sees `r` pixels far.
pub open spec fn side(r: int) -> int {
    2 * r - 1
}

/// The absolute value.
pub open spec fn mag(v: int) -> int {
    if v < 0 { -v } else { v }
}

/// The horizontal offset from the entity of the cell `i` of the visibility map.
pub open spec fn off_x(i: int, r: int) -> int {
    i % side(r) - r + 1
}

/// The vertical offset from the entity of the cell `i` of the visibility map.
pub open spec fn off_y(i: int, r: int) -> int {
    i / side(r) - r + 1
}

/// The cell of the visibility map at offset `(ox, oy)` from the entity.
pub open spec fn cell_at(ox: int, oy: int, r: int) -> int {
    (ox + r - 1) + (oy + r - 1) * side(r)
}

/// The entry `p` of the ray map of an obstacle at offset `(x, y)` hides the offset `(ox, oy)`:
/// the entry is mirrored into the quadrants on the obstacle's side of each axis.
pub open spec fn covers(p: [i32; 2], x: int, y: int, ox: int, oy: int) -> bool {
    &&& ((x >= 0 && ox == p[0]) || (x <= 0 && ox == -p[0]))
    &&& ((y >= 0 && oy == p[1]) || (y <= 0 && oy == -p[1]))
}

/// Some entry of `ray` hides the offset `(ox, oy)` behind an obstacle at offset `(x, y)`.
pub open spec fn shadows(ray: Seq<[i32; 2]>, x: int, y: int, ox: int, oy: int) -> bool {
    exists|j: int| 0 <= j < ray.len() && #[trigger] covers(ray[j], x, y, ox, oy)
}

/// The entries of the ray map for an obstacle at offset `(x, y)`.
pub open spec fn ray_of(graph: Seq<Vec<[i32; 2]>>, r: int, x: int, y: int) -> Seq<[i32; 2]> {
    graph[mag(x) + mag(y) * r]@
}

/// The visibility map after the cell `k` is looked at: a cell outside the circle is hidden; an
/// obstacle that is still visible is hidden and hides what its rays cover.
pub open spec fn vis_step(vis: Seq<bool>, k: int, r: int, board: Seq<bool>, shape: (usize, usize), pos: [i32; 2],
    graph: Seq<Vec<[i32; 2]>>) -> Seq<bool>
{
    let x = off_x(k, r);
    let y = off_y(k, r);
    if r * r < x * x + y * y {
        vis.update(k, false)
    } else if !passable_at(board, shape, [(pos[0] + x) as i32, (pos[1] + y) as i32]) && vis[k] {
        Seq::new(vis.len(), |i: int| i != k && vis[i] && !shadows(ray_of(graph, r, x, y), x, y, off_x(i, r), off_y(i, r)))
    } else {
        vis
    }
}

/// The visibility map after the first `n` cells, row by row, are looked at.
pub open spec fn vis_upto(n: nat, r: int, board: Seq<bool>, shape: (usize, usize), pos: [i32; 2],
    graph: Seq<Vec<[i32; 2]>>) -> Seq<bool>
    decreases n,
{
    if n == 0 {
        Seq::new((side(r) * side(r)) as nat, |_i: int| true)
    } else {
        vis_step(vis_upto((n - 1) as nat, r, board, shape, pos, graph), n - 1, r, board, shape, pos, graph)
    }
}

/// What an entity at `pos` sees: a square map, `side(r)` cells wide and centered on it.
pub open spec fn visibility(board: Seq<bool>, shape: (usize, usize), pos: [i32; 2], graph: Seq<Vec<[i32; 2]>>, r: int) -> Seq<bool> {
    vis_upto((side(r) * side(r)) as nat, r, board, shape, pos, graph)
}

/// The entries of the ray map lie within the visibility map.
pub open spec fn rays_in_range(graph: Seq<Vec<[i32; 2]>>, r: int) -> bool {
    forall|c: int, j: int| 0 <= c < graph.len() && 0 <= j < graph[c]@.len() ==>
        -r < (#[trigger] graph[c]@[j])[0] < r && -r < graph[c]@[j][1] < r
}

proof fn lemma_cell_of(i: int, f: int, a: int, b: int)
    requires
        0 <= a < f,
        0 <= b,
        i == a + b * f,
    ensures
        i % f == a,
        i / f == b,
{
    assert(i == f * b + a) by (nonlinear_arith) requires i == a + b * f;
    vstd::arithmetic::div_mod::lemma_fundamental_div_mod_converse(i, f, b, a);
}

proof fn lemma_cell_range(i: int, f: int)
    requires
        0 <= i < f * f,
        1 <= f,
    ensures
        0 <= i % f < f,
        0 <= i / f < f,
        i == i % f + (i / f) * f,
{
    vstd::arithmetic::div_mod::lemma_fundamental_div_mod(i, f);
    vstd::arithmetic::div_mod::lemma_mod_bound(i, f);
    vstd::arithmetic::div_mod::lemma_div_pos_is_pos(i, f);
    assert(i / f < f) by {
        if i / f >= f {
            assert(f * (i / f) >= f * f) by (nonlinear_arith) requires i / f >= f, f >= 1;
        }
    }
    assert(f * (i / f) == (i / f) * f) by (nonlinear_arith);
}

/// Hides the cell at offset `(ox, oy)`.
fn conceal(vis: &mut Vec<bool>, r: i32, ox: i32, oy: i32)
    requires
        1 <= r <= 1000,
        old(vis).len() == side(r as int) * side(r as int),
        -r < ox < r,
        -r < oy < r,
    ensures
        final(vis)@ == old(vis)@.update(cell_at(ox as int, oy as int, r as int), false),
        final(vis).len() == old(vis).len(),
        0 <= cell_at(ox as int, oy as int, r as int) < final(vis).len(),
{
    let f = (2 * r - 1) as usize;
    let a = (ox + r - 1) as usize;
    let b = (oy + r - 1) as usize;
    proof {
        crate::dijkstra::lemma_rect_index(a as int, b as int, f as int, f as int);
    }
    vis.set(a + b * f, false);
}

/// Hides every cell that an entry of `ray` covers behind an obstacle at offset `(x, y)`.
fn cast_shadow(vis: &mut Vec<bool>, ray: &Vec<[i32; 2]>, r: i32, x: i32, y: i32)
    requires
        1 <= r <= 1000,
        old(vis).len() == side(r as int) * side(r as int),
        forall|j: int| 0 <= j < ray@.len() ==> -r < (#[trigger] ray@[j])[0] < r && -r < ray@[j][1] < r,
    ensures
        final(vis)@ == Seq::new(old(vis)@.len(), |i: int|
            old(vis)@[i] && !shadows(ray@, x as int, y as int, off_x(i, r as int), off_y(i, r as int))),
{
    let ghost f = side(r as int);
    let ghost v0 = vis@;
    let mut j: usize = 0;
    proof {
        assert(vis@ =~= Seq::new(v0.len(), |i: int|
            v0[i] && !shadows(ray@.take(0), x as int, y as int, off_x(i, r as int), off_y(i, r as int))));
    }
    while j < ray.len()
        invariant
            1 <= r <= 1000,
            f == side(r as int),
            v0.len() == f * f,
            j <= ray@.len(),
            forall|j: int| 0 <= j < ray@.len() ==> -r < (#[trigger] ray@[j])[0] < r && -r < ray@[j][1] < r,
            vis@ == Seq::new(v0.len(), |i: int|
                v0[i] && !shadows(ray@.take(j as int), x as int, y as int, off_x(i, r as int), off_y(i, r as int))),
        decreases ray@.len() - j,
    {
        let ghost before = vis@;
        let p = ray[j];
        assert(-r < p[0] < r && -r < p[1] < r);
        if y >= 0 {
            if x >= 0 {
                conceal(vis, r, p[0], p[1]);
            }
            if x <= 0 {
                conceal(vis, r, -p[0], p[1]);
            }
        }
        if y <= 0 {
            if x >= 0 {
                conceal(vis, r, p[0], -p[1]);
            }
            if x <= 0 {
                conceal(vis, r, -p[0], -p[1]);
            }
        }
        proof {
            let rr = r as int;
            let t0 = ray@.take(j as int);
            let t1 = ray@.take(j + 1);
            assert forall|i: int| 0 <= i < v0.len() implies #[trigger] vis@[i] ==
                (v0[i] && !shadows(t1, x as int, y as int, off_x(i, rr), off_y(i, rr))) by {
                lemma_cell_range(i, f);
                let ox = off_x(i, rr);
                let oy = off_y(i, rr);
                let hit = covers(p, x as int, y as int, ox, oy);
                assert(vis@[i] == (before[i] && !hit)) by {
                    assert forall|a: int, b: int| -rr < a < rr && -rr < b < rr && i == #[trigger] cell_at(a, b, rr)
                        implies a == ox && b == oy by {
                        lemma_cell_of(i, f, a + rr - 1, b + rr - 1);
                    }
                    if hit {
                        assert(i == cell_at(ox, oy, rr));
                    }
                }
                if shadows(t1, x as int, y as int, ox, oy) {
                    let jj = choose|jj: int| 0 <= jj < t1.len() && #[trigger] covers(t1[jj], x as int, y as int, ox, oy);
                    if jj < j {
                        assert(t0[jj] == t1[jj]);
                        assert(shadows(t0, x as int, y as int, ox, oy));
                    } else {
                        assert(t1[jj] == p);
                    }
                }
                if shadows(t0, x as int, y as int, ox, oy) {
                    let jj = choose|jj: int| 0 <= jj < t0.len() && #[trigger] covers(t0[jj], x as int, y as int, ox, oy);
                    assert(t0[jj] == t1[jj]);
                    assert(shadows(t1, x as int, y as int, ox, oy));
                }
                if hit {
                    assert(t1[j as int] == p);
                    assert(shadows(t1, x as int, y as int, ox, oy));
                }
            }
            assert(vis@ =~= Seq::new(v0.len(), |i: int|
                v0[i] && !shadows(t1, x as int, y as int, off_x(i, rr), off_y(i, rr))));
        }
        j += 1;
    }
    proof {
        assert(ray@.take(ray@.len() as int) =~= ray@);
    }
}

/// Each look at a cell keeps the map's length and only hides cells.
proof fn lemma_vis_step(vis: Seq<bool>, k: int, r: int, board: Seq<bool>, shape: (usize, usize), pos: [i32; 2],
    graph: Seq<Vec<[i32; 2]>>)
    requires
        0 <= k < vis.len(),
    ensures
        vis_step(vis, k, r, board, shape, pos, graph).len() == vis.len(),
        forall|i: int| 0 <= i < vis.len() && #[trigger] vis_step(vis, k, r, board, shape, pos, graph)[i] ==> vis[i],
        vis_step(vis, k, r, board, shape, pos, graph)[k] ==> {
            let x = off_x(k, r);
            let y = off_y(k, r);
            &&& x * x + y * y <= r * r
            &&& passable_at(board, shape, [(pos[0] + x) as i32, (pos[1] + y) as i32])
        },
{
}

/// What an entity sees lies within its range and is passable: a cell visible after the first
/// `n` looks is inside the circle and on a passable pixel, or not looked at yet.
pub proof fn lemma_vis_upto(n: nat, r: int, board: Seq<bool>, shape: (usize, usize), pos: [i32; 2],
    graph: Seq<Vec<[i32; 2]>>, k: int)
    requires
        1 <= r,
        n <= side(r) * side(r),
    ensures
        vis_upto(n, r, board, shape, pos, graph).len() == side(r) * side(r),
        0 <= k < n && vis_upto(n, r, board, shape, pos, graph)[k] ==> {
            let x = off_x(k, r);
            let y = off_y(k, r);
            &&& x * x + y * y <= r * r
            &&& passable_at(board, shape, [(pos[0] + x) as i32, (pos[1] + y) as i32])
        },
    decreases n,
{
    if n > 0 {
        let prev = vis_upto((n - 1) as nat, r, board, shape, pos, graph);
        lemma_vis_upto((n - 1) as nat, r, board, shape, pos, graph, k);
        lemma_vis_step(prev, n - 1, r, board, shape, pos, graph);
        if 0 <= k < n - 1 && vis_upto(n, r, board, shape, pos, graph)[k] {
            assert(prev[k]);
        }
    }
}

/// Later looks only hide cells: a cell visible after `n` looks was visible after any fewer.
proof fn lemma_vis_upto_shrinks(n: nat, m: nat, r: int, board: Seq<bool>, shape: (usize, usize), pos: [i32; 2],
    graph: Seq<Vec<[i32; 2]>>, i: int)
    requires
        1 <= r,
        m <= n <= side(r) * side(r),
        0 <= i < side(r) * side(r),
        vis_upto(n, r, board, shape, pos, graph)[i],
    ensures
        vis_upto(m, r, board, shape, pos, graph)[i],
    decreases n,
{
    if n > m {
        let prev = vis_upto((n - 1) as nat, r, board, shape, pos, graph);
        lemma_vis_upto((n - 1) as nat, r, board, shape, pos, graph, 0);
        lemma_vis_step(prev, n - 1, r, board, shape, pos, graph);
        assert(prev[i]);
        lemma_vis_upto_shrinks((n - 1) as nat, m, r, board, shape, pos, graph, i);
    }
}

/// An obstacle casts its shadow: when the cell `k` of the visibility map, inside the circle,
/// is impassable and still visible when it is looked at, the entity sees neither it nor, for
/// each entry `(a, b)` of its ray map, the offset `(xs * a, ys * b)` for every sign `xs` and
/// `ys` that does not point away from the obstacle (`xs * x >= 0`, `ys * y >= 0`, where
/// `(x, y)` is the obstacle's offset). An obstacle straight above, below or beside the entity
/// thus hides both mirror images of its entries.
pub proof fn lemma_obstacle_shadow(board: Seq<bool>, shape: (usize, usize), pos: [i32; 2], graph: Seq<Vec<[i32; 2]>>,
    r: int, k: int, j: int, xs: int, ys: int)
    requires
        1 <= r,
        graph.len() == r * r,
        rays_in_range(graph, r),
        0 <= k < side(r) * side(r),
        off_x(k, r) * off_x(k, r) + off_y(k, r) * off_y(k, r) <= r * r,
        !passable_at(board, shape, [(pos[0] + off_x(k, r)) as i32, (pos[1] + off_y(k, r)) as i32]),
        vis_upto(k as nat, r, board, shape, pos, graph)[k],
        0 <= j < graph[mag(off_x(k, r)) + mag(off_y(k, r)) * r]@.len(),
        xs == 1 || xs == -1,
        ys == 1 || ys == -1,
        xs * off_x(k, r) >= 0,
        ys * off_y(k, r) >= 0,
    ensures
        !visibility(board, shape, pos, graph, r)[k],
        ({
            let p = graph[mag(off_x(k, r)) + mag(off_y(k, r)) * r]@[j];
            !visibility(board, shape, pos, graph, r)[cell_at(xs * p[0], ys * p[1], r)]
        }),
{
    let f = side(r);
    let x = off_x(k, r);
    let y = off_y(k, r);
    lemma_cell_range(k, f);
    let c = mag(x) + mag(y) * r;
    crate::dijkstra::lemma_rect_index(mag(x), mag(y), r, r);
    let ray = ray_of(graph, r, x, y);
    let p = ray[j];
    assert(p == graph[c]@[j]);
    assert(-r < p[0] < r && -r < p[1] < r);
    let ox = xs * p[0];
    let oy = ys * p[1];
    assert(ox == (if xs == 1 { p[0] as int } else { -p[0] })) by (nonlinear_arith)
        requires xs == 1 || xs == -1, ox == xs * p[0];
    assert(oy == (if ys == 1 { p[1] as int } else { -p[1] })) by (nonlinear_arith)
        requires ys == 1 || ys == -1, oy == ys * p[1];
    assert(xs == 1 ==> x >= 0) by (nonlinear_arith) requires xs * x >= 0;
    assert(xs == -1 ==> x <= 0) by (nonlinear_arith) requires xs * x >= 0;
    assert(ys == 1 ==> y >= 0) by (nonlinear_arith) requires ys * y >= 0;
    assert(ys == -1 ==> y <= 0) by (nonlinear_arith) requires ys * y >= 0;
    assert(-r < ox < r && -r < oy < r);
    let i = cell_at(ox, oy, r);
    crate::dijkstra::lemma_rect_index(ox + r - 1, oy + r - 1, f, f);
    lemma_cell_of(i, f, ox + r - 1, oy + r - 1);
    assert(off_x(i, r) == ox && off_y(i, r) == oy);
    assert(covers(p, x, y, ox, oy));
    assert(shadows(ray, x, y, ox, oy));
    let prev = vis_upto(k as nat, r, board, shape, pos, graph);
    lemma_vis_upto(k as nat, r, board, shape, pos, graph, 0);
    let after = vis_upto((k + 1) as nat, r, board, shape, pos, graph);
    assert(after == vis_step(prev, k, r, board, shape, pos, graph));
    assert(!after[k]);
    assert(!after[i]);
    if visibility(board, shape, pos, graph, r)[k] {
        lemma_vis_upto_shrinks((f * f) as nat, (k + 1) as nat, r, board, shape, pos, graph, k);
    }
    if visibility(board, shape, pos, graph, r)[i] {
        lemma_vis_upto_shrinks((f * f) as nat, (k + 1) as nat, r, board, shape, pos, graph, i);
    }
}

/// What an entity at `pos` sees of `board`, `r` pixels far: the cells of a square map
/// `2 * r - 1` wide centered on it, row by row. Cells outside the circle of radius `r` are
/// hidden; the cells are looked at in order, and an impassable one that is still visible is
/// hidden and hides what the entries of its ray map `graph` cover (see `vis_step`).
pub fn raycast_visibility(board: &Vec<bool>, shape: (usize, usize), pos: [i32; 2], graph: &Vec<Vec<[i32; 2]>>, r: i32)
    -> (vis: Vec<bool>)
    requires
        1 <= r <= 1000,
        graph@.len() == r * r,
        rays_in_range(graph@, r as int),
        shape.0 <= isize::MAX,
        shape.1 <= isize::MAX,
        shape.0 * shape.1 <= board@.len(),
        i32::MIN + r <= pos[0] <= i32::MAX - r,
        i32::MIN + r <= pos[1] <= i32::MAX - r,
    ensures
        vis@ == visibility(board@, shape, pos, graph@, r as int),
{
    let ghost rr = r as int;
    let f = (2 * r - 1) as usize;
    proof {
        assert(f * f <= 1999 * 1999) by (nonlinear_arith) requires 1 <= f <= 1999;
    }
    let n = f * f;
    let mut vis: Vec<bool> = vec![true; n];
    proof {
        assert(vis@ =~= vis_upto(0, rr, board@, shape, pos, graph@));
    }
    let mut k: usize = 0;
    while k < n
        invariant
            1 <= r <= 1000,
            rr == r,
            f == side(rr),
            n == f * f,
            k <= n,
            graph@.len() == r * r,
            rays_in_range(graph@, rr),
            shape.0 <= isize::MAX,
            shape.1 <= isize::MAX,
            shape.0 * shape.1 <= board@.len(),
            i32::MIN + r <= pos[0] <= i32::MAX - r,
            i32::MIN + r <= pos[1] <= i32::MAX - r,
            vis@ == vis_upto(k as nat, rr, board@, shape, pos, graph@),
            vis@.len() == n,
        decreases n - k,
    {
        proof {
            lemma_cell_range(k as int, f as int);
        }
        let xf = k % f;
        let yf = k / f;
        let x = xf as i32 - r + 1;
        let y = yf as i32 - r + 1;
        let ghost prev = vis@;
        proof {
            assert(x == off_x(k as int, rr) && y == off_y(k as int, rr));
            assert(0 <= x * x <= 1000 * 1000 && 0 <= y * y <= 1000 * 1000 && r * r <= 1000 * 1000) by (nonlinear_arith)
                requires -1000 < x < 1000, -1000 < y < 1000, 1 <= r <= 1000;
        }
        if r * r < x * x + y * y {
            vis.set(k, false);
        } else {
            let q: [i32; 2] = [pos[0] + x, pos[1] + y];
            proof {
                assert(q =~= [(pos[0] + off_x(k as int, rr)) as i32, (pos[1] + off_y(k as int, rr)) as i32]);
            }
            let res = is_passable_at_i(board.as_slice(), shape, q);
            if !res && vis[k] {
                vis.set(k, false);
                let ax: usize = if x < 0 { (-x) as usize } else { x as usize };
                let ay: usize = if y < 0 { (-y) as usize } else { y as usize };
                proof {
                    crate::dijkstra::lemma_rect_index(ax as int, ay as int, rr, rr);
                    assert(ax + ay * (r as usize) == mag(x as int) + mag(y as int) * rr);
                }
                let ray = &graph[ax + ay * (r as usize)];
                proof {
                    let c = ax + ay * rr;
                    assert forall|j: int| 0 <= j < ray@.len() implies -r < (#[trigger] ray@[j])[0] < r && -r < ray@[j][1] < r by {
                        assert(graph@[c]@[j] == ray@[j]);
                    }
                }
                cast_shadow(&mut vis, ray, r, x, y);
                proof {
                    assert(vis@ =~= vis_step(prev, k as int, rr, board@, shape, pos, graph@));
                }
            }
        }
        proof {
            assert(vis@ =~= vis_step(prev, k as int, rr, board@, shape, pos, graph@));
        }
        k += 1;
    }
    vis
}

/// The fog after an entity at `pos` with the visibility map `vis` looks around at `t`: every
/// pixel it sees is marked seen at `t`, the others keep their time.
pub open spec fn seen_from(fow: Seq<i32>, vis: Seq<bool>, shape: (usize, usize), pos: [i32; 2], r: int, t: i32) -> Seq<i32> {
    Seq::new(fow.len(), |i: int| {
        let ox = i % (shape.0 as int) - pos[0];
        let oy = i / (shape.0 as int) - pos[1];
        if -r < ox < r && -r < oy < r && vis[cell_at(ox, oy, r)] { t } else { fow[i] }
    })
}

/// Clears the fog that an entity at `pos` sees through raycasting (see `raycast_visibility`):
/// each pixel it sees is marked seen at `global_time`. Returns the visibility map.
pub fn fow_raycast(fog: &mut FogOfWar, board: &Vec<bool>, shape: (usize, usize), pos: [i32; 2],
    graph: &Vec<Vec<[i32; 2]>>, r: i32, global_time: i32) -> (vis: Vec<bool>)
    requires
        1 <= r <= 1000,
        graph@.len() == r * r,
        rays_in_range(graph@, r as int),
        1 <= shape.0 <= isize::MAX,
        shape.1 <= isize::MAX,
        shape.0 * shape.1 <= board@.len(),
        old(fog).fow@.len() == shape.0 * shape.1,
        i32::MIN + r <= pos[0] <= i32::MAX - r,
        i32::MIN + r <= pos[1] <= i32::MAX - r,
    ensures
        vis@ == visibility(board@, shape, pos, graph@, r as int),
        final(fog).fow@ == seen_from(old(fog).fow@, vis@, shape, pos, r as int, global_time),
{
    let vis = raycast_visibility(board, shape, pos, graph, r);
    let ghost rr = r as int;
    let ghost w = shape.0 as int;
    let ghost fow0 = fog.fow@;
    let f = (2 * r - 1) as usize;
    proof {
        assert(f * f <= 1999 * 1999) by (nonlinear_arith) requires 1 <= f <= 1999;
        lemma_vis_upto((f * f) as nat, rr, board@, shape, pos, graph@, 0);
    }
    let n = f * f;
    let mut k: usize = 0;
    proof {
        assert(fog.fow@ =~= Seq::new(fow0.len(), |i: int| {
            let ox = i % w - pos[0];
            let oy = i / w - pos[1];
            if -rr < ox < rr && -rr < oy < rr && cell_at(ox, oy, rr) < 0 && vis@[cell_at(ox, oy, rr)] { global_time } else { fow0[i] }
        }));
    }
    while k < n
        invariant
            1 <= r <= 1000,
            rr == r,
            w == shape.0,
            1 <= shape.0 <= isize::MAX,
            shape.1 <= isize::MAX,
            shape.0 * shape.1 <= board@.len(),
            fow0.len() == shape.0 * shape.1,
            i32::MIN + r <= pos[0] <= i32::MAX - r,
            i32::MIN + r <= pos[1] <= i32::MAX - r,
            f == side(rr),
            n == f * f,
            k <= n,
            vis@ == visibility(board@, shape, pos, graph@, rr),
            vis@.len() == n,
            fog.fow@ == Seq::new(fow0.len(), |i: int| {
                let ox = i % w - pos[0];
                let oy = i / w - pos[1];
                if -rr < ox < rr && -rr < oy < rr && cell_at(ox, oy, rr) < k && vis@[cell_at(ox, oy, rr)] { global_time } else { fow0[i] }
            }),
        decreases n - k,
    {
        let ghost prev = fog.fow@;
        proof {
            lemma_cell_range(k as int, f as int);
            lemma_vis_upto((f * f) as nat, rr, board@, shape, pos, graph@, k as int);
        }
        let ghost ox = off_x(k as int, rr);
        let ghost oy = off_y(k as int, rr);
        let mut idx: usize = 0;
        if vis[k] {
            let x = (k % f) as i32 - r + 1;
            let y = (k / f) as i32 - r + 1;
            let px = pos[0] + x;
            let py = pos[1] + y;
            proof {
                assert(x == ox && y == oy);
                assert(passable_at(board@, shape, [px, py]));
                crate::dijkstra::lemma_rect_index(px as int, py as int, w, shape.1 as int);
                assert(0 <= px && 0 <= py);
                assert(py as usize * shape.0 == py * w);
                assert(px + py * w < board@.len());
                assert(board@.len() == board.len());
                assert(fog.fow@.len() == fog.fow.len());
            }
            idx = px as usize + py as usize * shape.0;
            fog.fow.set(idx, global_time);
        }
        proof {
            let px = pos[0] + ox;
            let py = pos[1] + oy;
            assert(cell_at(ox, oy, rr) == k) by {
                assert(k == k % f + (k / f) * f);
            }
            assert forall|i: int| 0 <= i < fow0.len() implies #[trigger] fog.fow@[i] == {
                let ox2 = i % w - pos[0];
                let oy2 = i / w - pos[1];
                if -rr < ox2 < rr && -rr < oy2 < rr && cell_at(ox2, oy2, rr) < k + 1 && vis@[cell_at(ox2, oy2, rr)] { global_time } else { fow0[i] }
            } by {
                crate::dijkstra::lemma_rect_index(0, 0, w, shape.1 as int);
                vstd::arithmetic::div_mod::lemma_fundamental_div_mod(i, w);
                vstd::arithmetic::div_mod::lemma_mod_bound(i, w);
                let ox2 = i % w - pos[0];
                let oy2 = i / w - pos[1];
                if -rr < ox2 < rr && -rr < oy2 < rr && cell_at(ox2, oy2, rr) == k {
                    lemma_cell_of(k as int, f as int, ox2 + rr - 1, oy2 + rr - 1);
                    assert(ox2 == ox && oy2 == oy);
                    if vis@[k as int] {
                        assert(i == (i % w) + (i / w) * w) by (nonlinear_arith) requires i == w * (i / w) + i % w;
                        assert(i == idx);
                    }
                }
                if vis@[k as int] && i == idx {
                    lemma_cell_of(i, w, px, py);
                }
            }
            assert(fog.fow@ =~= Seq::new(fow0.len(), |i: int| {
                let ox2 = i % w - pos[0];
                let oy2 = i / w - pos[1];
                if -rr < ox2 < rr && -rr < oy2 < rr && cell_at(ox2, oy2, rr) < k + 1 && vis@[cell_at(ox2, oy2, rr)] { global_time } else { fow0[i] }
            }));
        }
        k += 1;
    }
    proof {
        assert forall|i: int| 0 <= i < fow0.len() && -rr < #[trigger] (i % w) - pos[0] < rr && -rr < i / w - pos[1] < rr
            implies cell_at(i % w - pos[0], i / w - pos[1], rr) < n by {
            let ox2 = i % w - pos[0];
            let oy2 = i / w - pos[1];
            if -rr < ox2 < rr && -rr < oy2 < rr {
                crate::dijkstra::lemma_rect_index(ox2 + rr - 1, oy2 + rr - 1, f as int, f as int);
            }
        }
        assert(fog.fow@ =~= seen_from(fow0, vis@, shape, pos, rr, global_time));
    }
    vis
}

} // verus!
