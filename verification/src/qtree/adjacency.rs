//! The geometry of the neighbors that the quad tree finds: every neighbor of a cell touches it
//! along a stretch of edge.

use vstd::prelude::*;
use vstd::arithmetic::power2::{pow2, lemma_pow2_unfold, lemma_pow2_pos};
use super::CellState;
use super::qtree::{QTree, Side, side_children, trunc_div, lemma_div_pow2_compose, lemma_div_range};
use super::cache_map::CacheMap;

verus! {

/// Where the cell `i` of `level` begins, counted in cells of the finer level `fine`.
pub open spec fn span_lo(level: int, i: int, fine: int) -> int {
    i * pow2((fine - level) as nat)
}

/// Where the cell `i` of `level` ends (exclusive), counted in cells of the finer level `fine`.
pub open spec fn span_hi(level: int, i: int, fine: int) -> int {
    (i + 1) * pow2((fine - level) as nat)
}

/// The cells `a` and `b` share a stretch of edge: measured at the finer of their two levels,
/// one ends where the other begins along one axis, and they overlap along the other.
pub open spec fn touches(a: (usize, [i32; 2]), b: (usize, [i32; 2])) -> bool {
    let f = if a.0 < b.0 { b.0 as int } else { a.0 as int };
    let (la, lb) = (a.0 as int, b.0 as int);
    let ax0 = span_lo(la, a.1[0] as int, f);
    let ax1 = span_hi(la, a.1[0] as int, f);
    let ay0 = span_lo(la, a.1[1] as int, f);
    let ay1 = span_hi(la, a.1[1] as int, f);
    let bx0 = span_lo(lb, b.1[0] as int, f);
    let bx1 = span_hi(lb, b.1[0] as int, f);
    let by0 = span_lo(lb, b.1[1] as int, f);
    let by1 = span_hi(lb, b.1[1] as int, f);
    ||| (ax1 == bx0 || bx1 == ax0) && ay0 < by1 && by0 < ay1
    ||| (ay1 == by0 || by1 == ay0) && ax0 < bx1 && bx0 < ax1
}

/// Where a cell found downwards from `nb` along `side` lies, `d` levels below `nb`: in the row
/// or column of `nb`'s descendants on that side, and within `nb`'s span along it.
pub open spec fn on_side_below(nb: [i32; 2], side: Side, d: nat, r: [i32; 2]) -> bool {
    let p = pow2(d) as int;
    match side {
        Side::Left => r[0] == nb[0] * p && nb[1] * p <= r[1] < (nb[1] + 1) * p,
        Side::Right => r[0] == (nb[0] + 1) * p - 1 && nb[1] * p <= r[1] < (nb[1] + 1) * p,
        Side::Top => r[1] == nb[1] * p && nb[0] * p <= r[0] < (nb[0] + 1) * p,
        Side::Bottom => r[1] == (nb[1] + 1) * p - 1 && nb[0] * p <= r[0] < (nb[0] + 1) * p,
    }
}

/// Each cell that `sub_find` yields is a uniform cell of the tree at `level` or below, on the
/// given side of `nb`'s descendants.
proof fn lemma_sub_find_geom(t: &QTree, level: int, nb: [i32; 2], side: Side, k: int)
    requires
        t.levels.len() <= 30,
        0 <= level,
        QTree::idx_in_search_range(level, nb),
        0 <= k < t.sub_find(level, nb, side).len(),
    ensures
        ({
            let r = t.sub_find(level, nb, side)[k];
            &&& level <= r.0 < t.levels.len()
            &&& t.cell(r.0 as int, r.1[0] as int, r.1[1] as int) matches Some(st) && st != CellState::Mixed
            &&& on_side_below(nb, side, (r.0 - level) as nat, r.1)
        }),
    decreases t.levels.len() - level,
{
    let s = t.sub_find(level, nb, side);
    match t.cell(level, nb[0] as int, nb[1] as int) {
        Some(st) if st != CellState::Mixed => {
            assert(s =~= seq![(level as usize, nb)]);
            assert(pow2(0) == 1) by { vstd::arithmetic::power2::lemma2_to64(); }
            let r = s[k];
            assert(r == (level as usize, nb));
            assert(level < t.levels.len());
            assert(on_side_below(nb, side, 0, nb));
        },
        _ => {
            let (a, b) = side_children(nb, side);
            let sa = t.sub_find(level + 1, a, side);
            let sb = t.sub_find(level + 1, b, side);
            assert(s == sa + sb);
            vstd::arithmetic::power2::lemma2_to64();
            vstd::arithmetic::power2::lemma_pow2_strictly_increases(level as nat, 30);
            lemma_pow2_unfold((level + 1) as nat);
            assert(level < 30);
            let x = nb[0] as int;
            let y = nb[1] as int;
            assert(-pow2(level as nat) <= x < 2 * pow2(level as nat));
            assert(-pow2(level as nat) <= y < 2 * pow2(level as nat));
            if level + 1 < 30 {
                vstd::arithmetic::power2::lemma_pow2_strictly_increases((level + 1) as nat, 30);
            }
            assert(pow2((level + 1) as nat) <= 0x4000_0000);
            let (ra, rb) = if side == Side::Left {
                ((2 * x, 2 * y), (2 * x, 2 * y + 1))
            } else if side == Side::Top {
                ((2 * x, 2 * y), (2 * x + 1, 2 * y))
            } else if side == Side::Right {
                ((2 * x + 1, 2 * y), (2 * x + 1, 2 * y + 1))
            } else {
                ((2 * x, 2 * y + 1), (2 * x + 1, 2 * y + 1))
            };
            assert(a[0] as int == ra.0 && a[1] as int == ra.1);
            assert(b[0] as int == rb.0 && b[1] as int == rb.1);
            let child = if k < sa.len() { a } else { b };
            let kk = if k < sa.len() { k } else { k - sa.len() };
            assert(QTree::idx_in_search_range(level + 1, child));
            lemma_sub_find_geom(t, level + 1, child, side, kk);
            let r = s[k];
            assert(r == t.sub_find(level + 1, child, side)[kk]);
            let d = (r.0 - level) as nat;
            let d1 = (r.0 - level - 1) as nat;
            lemma_pow2_unfold(d);
            assert(d == d1 + 1);
            let p = pow2(d1) as int;
            lemma_pow2_pos(d1);
            assert(pow2(d) as int == 2 * p);
            assert(on_side_below(child, side, d1, r.1));
            let cx = child[0] as int;
            let cy = child[1] as int;
            if side == Side::Left {
                assert(cx == 2 * x);
                assert(r.1[0] == cx * p);
                assert(cx * p == x * (2 * p)) by (nonlinear_arith) requires cx == 2 * x;
                assert(cy == 2 * y || cy == 2 * y + 1);
                assert(cy * p <= r.1[1] < (cy + 1) * p);
                assert(y * (2 * p) <= cy * p && (cy + 1) * p <= (y + 1) * (2 * p)) by (nonlinear_arith)
                    requires cy == 2 * y || cy == 2 * y + 1, p > 0;
            } else if side == Side::Right {
                assert(cx == 2 * x + 1);
                assert(r.1[0] == (cx + 1) * p - 1);
                assert((cx + 1) * p == (x + 1) * (2 * p)) by (nonlinear_arith) requires cx == 2 * x + 1;
                assert(cy == 2 * y || cy == 2 * y + 1);
                assert(cy * p <= r.1[1] < (cy + 1) * p);
                assert(y * (2 * p) <= cy * p && (cy + 1) * p <= (y + 1) * (2 * p)) by (nonlinear_arith)
                    requires cy == 2 * y || cy == 2 * y + 1, p > 0;
            } else if side == Side::Top {
                assert(cy == 2 * y);
                assert(r.1[1] == cy * p);
                assert(cy * p == y * (2 * p)) by (nonlinear_arith) requires cy == 2 * y;
                assert(cx == 2 * x || cx == 2 * x + 1);
                assert(cx * p <= r.1[0] < (cx + 1) * p);
                assert(x * (2 * p) <= cx * p && (cx + 1) * p <= (x + 1) * (2 * p)) by (nonlinear_arith)
                    requires cx == 2 * x || cx == 2 * x + 1, p > 0;
            } else {
                assert(cy == 2 * y + 1);
                assert(r.1[1] == (cy + 1) * p - 1);
                assert((cy + 1) * p == (y + 1) * (2 * p)) by (nonlinear_arith) requires cy == 2 * y + 1;
                assert(cx == 2 * x || cx == 2 * x + 1);
                assert(cx * p <= r.1[0] < (cx + 1) * p);
                assert(x * (2 * p) <= cx * p && (cx + 1) * p <= (x + 1) * (2 * p)) by (nonlinear_arith)
                    requires cx == 2 * x || cx == 2 * x + 1, p > 0;
            }
            assert(on_side_below(nb, side, d, r.1));
        },
    }
}

/// Walking up from `lev` with the indices of the cells holding `c0` and `n0` (cells of level
/// `top`), `super_find_spec` yields a present cell holding `n0` at a level where the two
/// ancestors differ.
proof fn lemma_super_find_geom(t: &QTree, lev: int, cur: [i32; 2], nb: [i32; 2], top: int, c0: [i32; 2], n0: [i32; 2])
    requires
        0 <= lev <= top,
        0 <= c0[0],
        0 <= c0[1],
        0 <= n0[0],
        0 <= n0[1],
        cur[0] as int == c0[0] as int / pow2((top - lev) as nat) as int,
        cur[1] as int == c0[1] as int / pow2((top - lev) as nat) as int,
        nb[0] as int == n0[0] as int / pow2((top - lev) as nat) as int,
        nb[1] as int == n0[1] as int / pow2((top - lev) as nat) as int,
    ensures
        match t.super_find_spec(lev, cur, nb) {
            Some((l, n2, st)) => {
                &&& 0 <= l < lev
                &&& n2[0] as int == n0[0] as int / pow2((top - l) as nat) as int
                &&& n2[1] as int == n0[1] as int / pow2((top - l) as nat) as int
                &&& (n2[0] as int != c0[0] as int / pow2((top - l) as nat) as int
                    || n2[1] as int != c0[1] as int / pow2((top - l) as nat) as int)
                &&& t.cell(l as int, n2[0] as int, n2[1] as int) == Some(st)
            },
            None => true,
        },
    decreases lev,
{
    if lev > 0 {
        let k = (top - lev) as nat;
        let c2 = QTree::halve(cur);
        let n2 = QTree::halve(nb);
        lemma_div_pow2_compose(c0[0] as int, k, 1);
        lemma_div_pow2_compose(c0[1] as int, k, 1);
        lemma_div_pow2_compose(n0[0] as int, k, 1);
        lemma_div_pow2_compose(n0[1] as int, k, 1);
        assert(pow2(1) == 2) by { vstd::arithmetic::power2::lemma2_to64(); }
        assert(k + 1 == (top - (lev - 1)) as nat);
        assert(c2[0] as int == c0[0] as int / pow2((top - (lev - 1)) as nat) as int);
        assert(c2[1] as int == c0[1] as int / pow2((top - (lev - 1)) as nat) as int);
        assert(n2[0] as int == n0[0] as int / pow2((top - (lev - 1)) as nat) as int);
        assert(n2[1] as int == n0[1] as int / pow2((top - (lev - 1)) as nat) as int);
        if c2 != n2 {
            if t.cell(lev - 1, n2[0] as int, n2[1] as int) is None {
                lemma_super_find_geom(t, lev - 1, c2, n2, top, c0, n0);
            }
        }
    }
}

/// A neighbor index just off the low edge of the grid finds nothing above: its halves and the
/// cell's halves meet at once.
proof fn lemma_super_find_off_edge(t: &QTree, level: int, idx: [i32; 2], nb: [i32; 2])
    requires
        0 <= idx[0],
        0 <= idx[1],
        (nb[0] == -1 && idx[0] == 0 && nb[1] == idx[1]) || (nb[1] == -1 && idx[1] == 0 && nb[0] == idx[0]),
    ensures
        t.super_find_spec(level, idx, nb) is None,
{
    if level > 0 {
        assert(trunc_div(-1, 2) == 0);
        assert(QTree::halve(idx) =~= QTree::halve(nb));
    }
}

/// The offset from a cell to the neighbor searched on `side`.
pub open spec fn side_offset(side: Side) -> [i32; 2] {
    match side {
        Side::Left => [1i32, 0i32],
        Side::Top => [0i32, 1i32],
        Side::Right => [-1i32, 0i32],
        Side::Bottom => [0i32, -1i32],
    }
}

/// A cell found above, holding the neighbor index but not the cell itself, touches the cell.
proof fn lemma_super_touch(level: int, idx: [i32; 2], side: Side, nb: [i32; 2], l: int, n2: [i32; 2])
    requires
        0 <= l < level <= 30,
        0 <= idx[0],
        0 <= idx[1],
        0 <= nb[0],
        0 <= nb[1],
        nb[0] == idx[0] + side_offset(side)[0],
        nb[1] == idx[1] + side_offset(side)[1],
        n2[0] as int == nb[0] as int / pow2((level - l) as nat) as int,
        n2[1] as int == nb[1] as int / pow2((level - l) as nat) as int,
        n2[0] as int != idx[0] as int / pow2((level - l) as nat) as int
            || n2[1] as int != idx[1] as int / pow2((level - l) as nat) as int,
    ensures
        touches((level as usize, idx), (l as usize, n2)),
{
    let s = pow2((level - l) as nat) as int;
    lemma_pow2_pos((level - l) as nat);
    assert(pow2(0) == 1) by { vstd::arithmetic::power2::lemma2_to64(); }
    let (i0, i1) = (idx[0] as int, idx[1] as int);
    let (m0, m1) = (n2[0] as int, n2[1] as int);
    vstd::arithmetic::div_mod::lemma_fundamental_div_mod(i0, s);
    vstd::arithmetic::div_mod::lemma_fundamental_div_mod(i1, s);
    vstd::arithmetic::div_mod::lemma_fundamental_div_mod(nb[0] as int, s);
    vstd::arithmetic::div_mod::lemma_fundamental_div_mod(nb[1] as int, s);
    vstd::arithmetic::div_mod::lemma_mod_bound(i0, s);
    vstd::arithmetic::div_mod::lemma_mod_bound(i1, s);
    vstd::arithmetic::div_mod::lemma_mod_bound(nb[0] as int, s);
    vstd::arithmetic::div_mod::lemma_mod_bound(nb[1] as int, s);
    let q0 = i0 / s;
    let q1 = i1 / s;
    // the ancestors hold their cells: q * s <= i < (q + 1) * s
    assert(q0 * s <= i0 < (q0 + 1) * s) by (nonlinear_arith)
        requires i0 == s * q0 + i0 % s, 0 <= i0 % s < s;
    assert(q1 * s <= i1 < (q1 + 1) * s) by (nonlinear_arith)
        requires i1 == s * q1 + i1 % s, 0 <= i1 % s < s;
    assert(m0 * s <= nb[0] < (m0 + 1) * s) by (nonlinear_arith)
        requires nb[0] as int == s * m0 + (nb[0] as int) % s, 0 <= (nb[0] as int) % s < s;
    assert(m1 * s <= nb[1] < (m1 + 1) * s) by (nonlinear_arith)
        requires nb[1] as int == s * m1 + (nb[1] as int) % s, 0 <= (nb[1] as int) % s < s;
    match side {
        Side::Left => {
            assert(m1 == q1);
            assert(m0 != q0);
            // the neighbor's ancestor starts right after the cell
            if m0 <= q0 {
                assert(false) by (nonlinear_arith)
                    requires m0 < q0, m0 * s <= i0 + 1, i0 + 1 < (m0 + 1) * s, q0 * s <= i0, s > 0;
            }
            assert((q0 + 1) * s <= m0 * s) by (nonlinear_arith) requires q0 + 1 <= m0, s > 0;
            assert(m0 * s == i0 + 1);
        },
        Side::Right => {
            assert(m1 == q1);
            assert(m0 != q0);
            if m0 >= q0 {
                assert(false) by (nonlinear_arith)
                    requires m0 > q0, m0 * s <= i0 - 1, q0 * s <= i0, i0 < (q0 + 1) * s, s > 0;
            }
            assert((m0 + 1) * s <= q0 * s) by (nonlinear_arith) requires m0 + 1 <= q0, s > 0;
            assert((m0 + 1) * s == i0);
        },
        Side::Top => {
            assert(m0 == q0);
            assert(m1 != q1);
            if m1 <= q1 {
                assert(false) by (nonlinear_arith)
                    requires m1 < q1, m1 * s <= i1 + 1, i1 + 1 < (m1 + 1) * s, q1 * s <= i1, s > 0;
            }
            assert((q1 + 1) * s <= m1 * s) by (nonlinear_arith) requires q1 + 1 <= m1, s > 0;
            assert(m1 * s == i1 + 1);
        },
        Side::Bottom => {
            assert(m0 == q0);
            assert(m1 != q1);
            if m1 >= q1 {
                assert(false) by (nonlinear_arith)
                    requires m1 > q1, m1 * s <= i1 - 1, q1 * s <= i1, i1 < (q1 + 1) * s, s > 0;
            }
            assert((m1 + 1) * s <= q1 * s) by (nonlinear_arith) requires m1 + 1 <= q1, s > 0;
            assert((m1 + 1) * s == i1);
        },
    }
    // measured at `level`, the cell is one unit wide and the found cell `s` units
    let a = (level as usize, idx);
    let b = (l as usize, n2);
    assert(a.0 as int == level && b.0 as int == l);
    assert((level - level) as nat == 0nat);
    assert(pow2((level - level) as nat) as int == 1);
    assert(span_lo(level, i0, level) == i0 && span_hi(level, i0, level) == i0 + 1);
    assert(span_lo(level, i1, level) == i1 && span_hi(level, i1, level) == i1 + 1);
    assert(span_lo(l, m0, level) == m0 * s && span_hi(l, m0, level) == (m0 + 1) * s);
    assert(span_lo(l, m1, level) == m1 * s && span_hi(l, m1, level) == (m1 + 1) * s);
}

/// A cell found below the neighbor index, on the side facing the cell, touches the cell.
proof fn lemma_sub_touch(level: int, idx: [i32; 2], side: Side, nb: [i32; 2], r: (usize, [i32; 2]))
    requires
        0 <= level <= r.0,
        nb[0] == idx[0] + side_offset(side)[0],
        nb[1] == idx[1] + side_offset(side)[1],
        on_side_below(nb, side, (r.0 - level) as nat, r.1),
    ensures
        touches((level as usize, idx), r),
{
    let d = (r.0 - level) as nat;
    let p = pow2(d) as int;
    lemma_pow2_pos(d);
    assert(pow2(0) == 1) by { vstd::arithmetic::power2::lemma2_to64(); }
    let (i0, i1) = (idx[0] as int, idx[1] as int);
    assert((i0 + 1) * p == i0 * p + p && (i1 + 1) * p == i1 * p + p) by (nonlinear_arith);
    match side {
        Side::Left => {
            assert((nb[0] as int) * p == (i0 + 1) * p);
        },
        Side::Right => {
            assert((nb[0] as int + 1) * p == i0 * p);
        },
        Side::Top => {
            assert((nb[1] as int) * p == (i1 + 1) * p);
        },
        Side::Bottom => {
            assert((nb[1] as int + 1) * p == i1 * p);
        },
    }
    // measured at the found cell's level, the found cell is one unit wide and the cell `p` units
    let a = (level as usize, idx);
    let f = r.0 as int;
    assert(a.0 as int == level);
    let (r0, r1) = (r.1[0] as int, r.1[1] as int);
    assert(span_lo(level, i0, f) == i0 * p && span_hi(level, i0, f) == (i0 + 1) * p);
    assert(span_lo(level, i1, f) == i1 * p && span_hi(level, i1, f) == (i1 + 1) * p);
    assert((f - f) as nat == 0nat);
    assert(pow2((f - f) as nat) as int == 1);
    assert(span_lo(f, r0, f) == r0 && span_hi(f, r0, f) == r0 + 1);
    assert(span_lo(f, r1, f) == r1 && span_hi(f, r1, f) == r1 + 1);
}

/// The neighbor law: every cell that the quad tree gives as a neighbor of a cell of `level`
/// is a cell of the tree, and it touches that cell along a stretch of edge.
pub proof fn lemma_neighbors_touch(t: &QTree, level: int, idx: [i32; 2], n: (usize, [i32; 2]))
    requires
        t.levels.len() <= 30,
        0 <= level <= t.levels.len(),
        0 <= idx[0] < pow2(level as nat),
        0 <= idx[1] < pow2(level as nat),
        t.neighbors_spec(level, idx).contains(n),
    ensures
        touches((level as usize, idx), n),
        t.cell(n.0 as int, n.1[0] as int, n.1[1] as int) is Some,
{
    vstd::arithmetic::power2::lemma2_to64();
    if level < 30 {
        vstd::arithmetic::power2::lemma_pow2_strictly_increases(level as nat, 30);
    }
    let parts = seq![
        t.neighbors_on(level, idx, Side::Left, [1i32, 0i32]),
        t.neighbors_on(level, idx, Side::Top, [0i32, 1i32]),
        t.neighbors_on(level, idx, Side::Right, [-1i32, 0i32]),
        t.neighbors_on(level, idx, Side::Bottom, [0i32, -1i32])];
    let all = t.neighbors_spec(level, idx);
    assert(all == parts[0] + parts[1] + parts[2] + parts[3]);
    let i = choose|i: int| 0 <= i < all.len() && all[i] == n;
    let (side, k) = if i < parts[0].len() {
        (Side::Left, i)
    } else if i < parts[0].len() + parts[1].len() {
        (Side::Top, i - parts[0].len())
    } else if i < parts[0].len() + parts[1].len() + parts[2].len() {
        (Side::Right, i - parts[0].len() - parts[1].len())
    } else {
        (Side::Bottom, i - parts[0].len() - parts[1].len() - parts[2].len())
    };
    let off = side_offset(side);
    let part = t.neighbors_on(level, idx, side, off);
    assert(0 <= k < part.len() && part[k] == n);
    let nb = [(idx[0] + off[0]) as i32, (idx[1] + off[1]) as i32];
    assert(nb[0] == idx[0] + off[0] && nb[1] == idx[1] + off[1]);
    let sub = t.sub_find(level, nb, side);
    if sub.len() > 0 {
        assert(part == sub);
        assert(QTree::idx_in_search_range(level, nb));
        lemma_sub_find_geom(t, level, nb, side, k);
        lemma_sub_touch(level, idx, side, nb, n);
    } else {
        if nb[0] < 0 || nb[1] < 0 {
            lemma_super_find_off_edge(t, level, idx, nb);
        }
        assert(nb[0] >= 0 && nb[1] >= 0);
        assert(idx[0] as int / pow2(0) as int == idx[0] && idx[1] as int / pow2(0) as int == idx[1]);
        assert(nb[0] as int / pow2(0) as int == nb[0] && nb[1] as int / pow2(0) as int == nb[1]);
        lemma_super_find_geom(t, level, idx, nb, level, idx, nb);
        let a = t.super_find_spec(level, idx, nb)->0;
        assert(n == (a.0, a.1));
        lemma_super_touch(level, idx, side, nb, a.0 as int, a.1);
    }
}

/// In a consistent tree, a pixel of the board has a single uniform cell, and nothing lies
/// below it.
proof fn lemma_leaf_facts(t: &QTree, cache: &CacheMap, px: int, py: int)
    requires
        t.consistent(cache),
        cache.in_bounds(px, py),
    ensures
        forall|l1: int, l2: int| 0 <= l1 <= t.toplevel && 0 <= l2 <= t.toplevel && #[trigger] t.leaf_of(px, py, l1)
            && #[trigger] t.leaf_of(px, py, l2) ==> l1 == l2,
        forall|l1: int, l2: int| 0 <= l1 < l2 <= t.toplevel && #[trigger] t.leaf_of(px, py, l1)
            ==> #[trigger] t.cell(l2, px / t.side(l2), py / t.side(l2)) is None,
{
    t.lemma_root_region(cache, px, py);
    assert(t.pixel_built(cache, 0, px, py));
}

/// The first pixel of the cell `j` of level `l` lies on the board, and the cells of the levels
/// above that hold it are the ancestors of `j`.
proof fn lemma_cell_pixel(t: &QTree, cache: &CacheMap, l: int, j: [i32; 2], m: int)
    requires
        t.toplevel <= 30,
        cache.spec_size() == pow2(t.toplevel as nat),
        0 <= m <= l <= t.toplevel,
        0 <= j[0] < pow2(l as nat),
        0 <= j[1] < pow2(l as nat),
    ensures
        cache.in_bounds(j[0] * t.side(l), j[1] * t.side(l)),
        (j[0] * t.side(l)) / t.side(m) == j[0] as int / pow2((l - m) as nat) as int,
        (j[1] * t.side(l)) / t.side(m) == j[1] as int / pow2((l - m) as nat) as int,
{
    let a = pow2((t.toplevel - l) as nat) as int;
    let b = pow2((l - m) as nat) as int;
    lemma_pow2_pos((t.toplevel - l) as nat);
    lemma_pow2_pos((l - m) as nat);
    vstd::arithmetic::power2::lemma_pow2_adds((t.toplevel - l) as nat, (l - m) as nat);
    vstd::arithmetic::power2::lemma_pow2_adds(l as nat, (t.toplevel - l) as nat);
    assert(((t.toplevel - l) as nat + (l - m) as nat) == (t.toplevel - m) as nat);
    assert((l as nat + (t.toplevel - l) as nat) == t.toplevel as nat);
    assert(t.side(l) == a && t.side(m) == a * b);
    let (j0, j1) = (j[0] as int, j[1] as int);
    assert(j0 * a < pow2(l as nat) * a && j1 * a < pow2(l as nat) * a) by (nonlinear_arith)
        requires 0 <= j0 < pow2(l as nat), 0 <= j1 < pow2(l as nat), a > 0;
    assert(0 <= j0 * a && 0 <= j1 * a) by (nonlinear_arith) requires 0 <= j0, 0 <= j1, a > 0;
    vstd::arithmetic::div_mod::lemma_div_denominator(j0 * a, a, b);
    vstd::arithmetic::div_mod::lemma_div_denominator(j1 * a, a, b);
    vstd::arithmetic::div_mod::lemma_div_by_multiple(j0, a);
    vstd::arithmetic::div_mod::lemma_div_by_multiple(j1, a);
}

/// A cell above a uniform cell, in whose region that cell lies, is not uniform: a pixel of
/// the board would have two uniform cells.
proof fn lemma_not_uniform_above(t: &QTree, cache: &CacheMap, m: int, a: [i32; 2], l2: int, jn: [i32; 2])
    requires
        t.consistent(cache),
        0 <= m < l2,
        l2 < t.levels.len(),
        0 <= jn[0] < pow2(l2 as nat),
        0 <= jn[1] < pow2(l2 as nat),
        t.cell(l2, jn[0] as int, jn[1] as int) matches Some(st) && st != CellState::Mixed,
        jn[0] as int / pow2((l2 - m) as nat) as int == a[0],
        jn[1] as int / pow2((l2 - m) as nat) as int == a[1],
    ensures
        !(t.cell(m, a[0] as int, a[1] as int) matches Some(st) && st != CellState::Mixed),
{
    assert(t.toplevel <= 30 && t.levels.len() <= t.toplevel + 1);
    lemma_cell_pixel(t, cache, l2, jn, m);
    lemma_cell_pixel(t, cache, l2, jn, l2);
    let px = jn[0] * t.side(l2);
    let py = jn[1] * t.side(l2);
    lemma_leaf_facts(t, cache, px, py);
    assert(jn[0] as int / pow2(0) as int == jn[0] && jn[1] as int / pow2(0) as int == jn[1]) by {
        vstd::arithmetic::power2::lemma2_to64();
        vstd::arithmetic::div_mod::lemma_div_basics(jn[0] as int);
        vstd::arithmetic::div_mod::lemma_div_basics(jn[1] as int);
    }
    assert((l2 - l2) as nat == 0nat);
    assert(t.leaf_of(px, py, l2));
    if t.cell(m, a[0] as int, a[1] as int) matches Some(st) && st != CellState::Mixed {
        assert(t.leaf_of(px, py, m));
    }
}

/// The child of `a`, on the searched side, whose descendants hold a cell `d` levels below.
proof fn lemma_side_child(m: int, a: [i32; 2], side: Side, d: nat, n1: [i32; 2]) -> (child: [i32; 2])
    requires
        0 <= m < 29,
        d >= 1,
        QTree::idx_in_search_range(m, a),
        on_side_below(a, side, d, n1),
    ensures
        child == side_children(a, side).0 || child == side_children(a, side).1,
        on_side_below(child, side, (d - 1) as nat, n1),
        QTree::idx_in_search_range(m + 1, child),
{
    let (ca, cb) = side_children(a, side);
    let (x, y) = (a[0] as int, a[1] as int);
    let (nx, ny) = (n1[0] as int, n1[1] as int);
    vstd::arithmetic::power2::lemma2_to64();
    vstd::arithmetic::power2::lemma_pow2_strictly_increases(m as nat, 30);
    lemma_pow2_unfold((m + 1) as nat);
    vstd::arithmetic::power2::lemma_pow2_strictly_increases((m + 1) as nat, 30);
    let d1 = (d - 1) as nat;
    lemma_pow2_unfold(d);
    lemma_pow2_pos(d1);
    let q = pow2(d1) as int;
    let p = pow2(d) as int;
    assert(p == 2 * q);
    assert(x * p == 2 * x * q && (x + 1) * p == (2 * x + 2) * q && y * p == 2 * y * q && (y + 1) * p == (2 * y + 2) * q)
        by (nonlinear_arith) requires p == 2 * q;
    assert((2 * x + 1) * q == 2 * x * q + q && (2 * x + 2) * q == (2 * x + 1) * q + q
        && (2 * y + 1) * q == 2 * y * q + q && (2 * y + 2) * q == (2 * y + 1) * q + q) by (nonlinear_arith);
    match side {
        Side::Left | Side::Right => if ny < (2 * y + 1) * q { ca } else { cb },
        Side::Top | Side::Bottom => if nx < (2 * x + 1) * q { ca } else { cb },
    }
}

/// A uniform cell of the tree on side `side` of the descendants of `a` is among what
/// `sub_find` yields from `a`: none of the cells on the way down to it can be uniform.
proof fn lemma_sub_find_reaches(t: &QTree, cache: &CacheMap, m: int, a: [i32; 2], side: Side, n: (usize, [i32; 2]))
    requires
        t.consistent(cache),
        t.levels.len() <= 30,
        0 <= m <= n.0,
        n.0 < t.levels.len(),
        QTree::idx_in_search_range(m, a),
        0 <= n.1[0] < pow2(n.0 as nat),
        0 <= n.1[1] < pow2(n.0 as nat),
        t.cell(n.0 as int, n.1[0] as int, n.1[1] as int) matches Some(st) && st != CellState::Mixed,
        on_side_below(a, side, (n.0 - m) as nat, n.1),
    ensures
        t.sub_find(m, a, side).contains(n),
    decreases n.0 - m,
{
    let d = (n.0 - m) as nat;
    let (x, y) = (a[0] as int, a[1] as int);
    let (nx, ny) = (n.1[0] as int, n.1[1] as int);
    lemma_pow2_pos(d);
    let p = pow2(d) as int;
    assert((x + 1) * p == x * p + p && (y + 1) * p == y * p + p) by (nonlinear_arith);
    assert(x * p <= nx < (x + 1) * p && y * p <= ny < (y + 1) * p);
    if d == 0 {
        assert(p == 1) by { vstd::arithmetic::power2::lemma2_to64(); }
        assert(n.1 =~= a);
        assert(t.sub_find(m, a, side) == seq![(m as usize, a)]);
        assert(t.sub_find(m, a, side)[0] == n);
    } else {
        lemma_div_range(nx, p, x);
        lemma_div_range(ny, p, y);
        lemma_not_uniform_above(t, cache, m, a, n.0 as int, n.1);
        let (ca, cb) = side_children(a, side);
        let s = t.sub_find(m, a, side);
        let sa = t.sub_find(m + 1, ca, side);
        let sb = t.sub_find(m + 1, cb, side);
        assert(s == sa + sb);
        let child = lemma_side_child(m, a, side, d, n.1);
        lemma_sub_find_reaches(t, cache, m + 1, child, side, n);
        let sc = t.sub_find(m + 1, child, side);
        let i = choose|i: int| 0 <= i < sc.len() && sc[i] == n;
        if child == ca {
            assert(s[i] == n);
        } else {
            assert(s[sa.len() + i] == n);
        }
    }
}

/// A child of a cell in the region of `jn`, `k` levels below it, lies in that region too.
proof fn lemma_child_in_region(m: int, a: [i32; 2], c: [i32; 2], k: nat, jn: [i32; 2])
    requires
        0 <= m < 30,
        0 <= a[0],
        0 <= a[1],
        a[0] as int / pow2(k) as int == jn[0],
        a[1] as int / pow2(k) as int == jn[1],
        QTree::idx_in_search_range(m, a),
        c[0] == 2 * a[0] || c[0] == 2 * a[0] + 1,
        c[1] == 2 * a[1] || c[1] == 2 * a[1] + 1,
    ensures
        0 <= c[0],
        0 <= c[1],
        c[0] as int / pow2(k + 1) as int == jn[0],
        c[1] as int / pow2(k + 1) as int == jn[1],
        QTree::idx_in_search_range(m + 1, c),
{
    vstd::arithmetic::power2::lemma2_to64();
    vstd::arithmetic::power2::lemma_pow2_strictly_increases(m as nat, 30);
    lemma_pow2_unfold((m + 1) as nat);
    lemma_pow2_unfold(k + 1);
    lemma_pow2_pos(k);
    let (cx, cy) = (c[0] as int, c[1] as int);
    vstd::arithmetic::div_mod::lemma_div_denominator(cx, 2, pow2(k) as int);
    vstd::arithmetic::div_mod::lemma_div_denominator(cy, 2, pow2(k) as int);
    assert(cx / 2 == a[0] && cy / 2 == a[1]);
}

/// Below a uniform cell every cell is absent, so `sub_find` from inside its region yields
/// nothing.
proof fn lemma_sub_find_shadowed(t: &QTree, cache: &CacheMap, m: int, a: [i32; 2], side: Side, l2: int, jn: [i32; 2])
    requires
        t.consistent(cache),
        t.levels.len() <= 30,
        0 <= l2 < m,
        0 <= jn[0] < pow2(l2 as nat),
        0 <= jn[1] < pow2(l2 as nat),
        t.cell(l2, jn[0] as int, jn[1] as int) matches Some(st) && st != CellState::Mixed,
        0 <= a[0],
        0 <= a[1],
        a[0] as int / pow2((m - l2) as nat) as int == jn[0],
        a[1] as int / pow2((m - l2) as nat) as int == jn[1],
        QTree::idx_in_search_range(m, a),
    ensures
        t.sub_find(m, a, side).len() == 0,
    decreases t.levels.len() - m,
{
    if m < t.levels.len() {
        let k = (m - l2) as nat;
        let (x, y) = (a[0] as int, a[1] as int);
        vstd::arithmetic::power2::lemma2_to64();
        lemma_pow2_pos(k);
        vstd::arithmetic::power2::lemma_pow2_adds(l2 as nat, k);
        assert(l2 as nat + k == m as nat);
        lemma_div_range(x, pow2(k) as int, jn[0] as int);
        lemma_div_range(y, pow2(k) as int, jn[1] as int);
        assert(x < pow2(m as nat) && y < pow2(m as nat)) by (nonlinear_arith)
            requires x < (jn[0] + 1) * pow2(k) as int, y < (jn[1] + 1) * pow2(k) as int,
                jn[0] + 1 <= pow2(l2 as nat), jn[1] + 1 <= pow2(l2 as nat), pow2(k) > 0,
                pow2(m as nat) == pow2(l2 as nat) * pow2(k);
        assert(t.toplevel <= 30 && t.levels.len() <= t.toplevel + 1);
        lemma_cell_pixel(t, cache, m, a, l2);
        lemma_cell_pixel(t, cache, m, a, m);
        let px = x * t.side(m);
        let py = y * t.side(m);
        lemma_leaf_facts(t, cache, px, py);
        assert((m - m) as nat == 0nat);
        vstd::arithmetic::div_mod::lemma_div_basics(x);
        vstd::arithmetic::div_mod::lemma_div_basics(y);
        assert(x / pow2(0) as int == x && y / pow2(0) as int == y);
        assert(t.leaf_of(px, py, l2));
        assert(t.cell(m, x, y) is None);
        let (ca, cb) = side_children(a, side);
        assert(((m + 1) - l2) as nat == k + 1);
        vstd::arithmetic::power2::lemma_pow2_strictly_increases(m as nat, 30);
        lemma_pow2_unfold((m + 1) as nat);
        lemma_child_in_region(m, a, ca, k, jn);
        lemma_child_in_region(m, a, cb, k, jn);
        lemma_sub_find_shadowed(t, cache, m + 1, ca, side, l2, jn);
        lemma_sub_find_shadowed(t, cache, m + 1, cb, side, l2, jn);
        assert(t.sub_find(m, a, side) == t.sub_find(m + 1, ca, side) + t.sub_find(m + 1, cb, side));
    }
}

/// Walking up from `lev` towards a uniform cell `jn` of level `l2` that holds `n0` but not
/// `i` (both cells of level `top`), `super_find_spec` meets nothing until it reaches `jn`.
proof fn lemma_super_find_reaches(t: &QTree, cache: &CacheMap, lev: int, cur: [i32; 2], nb: [i32; 2], top: int,
    i: [i32; 2], n0: [i32; 2], l2: int, jn: [i32; 2])
    requires
        t.consistent(cache),
        0 <= l2 < lev <= top,
        top < t.levels.len(),
        0 <= i[0],
        0 <= i[1],
        0 <= n0[0] < pow2(top as nat),
        0 <= n0[1] < pow2(top as nat),
        cur[0] as int == i[0] as int / pow2((top - lev) as nat) as int,
        cur[1] as int == i[1] as int / pow2((top - lev) as nat) as int,
        nb[0] as int == n0[0] as int / pow2((top - lev) as nat) as int,
        nb[1] as int == n0[1] as int / pow2((top - lev) as nat) as int,
        n0[0] as int / pow2((top - l2) as nat) as int == jn[0],
        n0[1] as int / pow2((top - l2) as nat) as int == jn[1],
        i[0] as int / pow2((top - l2) as nat) as int != jn[0] || i[1] as int / pow2((top - l2) as nat) as int != jn[1],
        0 <= jn[0] < pow2(l2 as nat),
        0 <= jn[1] < pow2(l2 as nat),
        t.cell(l2, jn[0] as int, jn[1] as int) matches Some(st) && st != CellState::Mixed,
    ensures
        t.super_find_spec(lev, cur, nb) == Some((l2 as usize, jn, t.cell(l2, jn[0] as int, jn[1] as int)->0)),
    decreases lev,
{
    let k = (top - lev) as nat;
    let c2 = QTree::halve(cur);
    let n2 = QTree::halve(nb);
    vstd::arithmetic::power2::lemma2_to64();
    lemma_div_pow2_compose(i[0] as int, k, 1);
    lemma_div_pow2_compose(i[1] as int, k, 1);
    lemma_div_pow2_compose(n0[0] as int, k, 1);
    lemma_div_pow2_compose(n0[1] as int, k, 1);
    let k1 = (top - (lev - 1)) as nat;
    assert(k + 1 == k1);
    assert(c2[0] as int == i[0] as int / pow2(k1) as int && c2[1] as int == i[1] as int / pow2(k1) as int);
    assert(n2[0] as int == n0[0] as int / pow2(k1) as int && n2[1] as int == n0[1] as int / pow2(k1) as int);
    // the two ancestors differ at every level down to l2
    let r = (lev - 1 - l2) as nat;
    assert(k1 + r == (top - l2) as nat);
    lemma_div_pow2_compose(i[0] as int, k1, r);
    lemma_div_pow2_compose(i[1] as int, k1, r);
    lemma_div_pow2_compose(n0[0] as int, k1, r);
    lemma_div_pow2_compose(n0[1] as int, k1, r);
    assert(c2 != n2);
    if lev - 1 == l2 {
        assert(r == 0);
        vstd::arithmetic::div_mod::lemma_div_basics(n2[0] as int);
        vstd::arithmetic::div_mod::lemma_div_basics(n2[1] as int);
        assert(n2 =~= jn);
    } else {
        // the cell of n0 at level lev - 1 lies strictly below jn, so it is absent
        let m = lev - 1;
        lemma_pow2_pos(k1);
        vstd::arithmetic::power2::lemma_pow2_adds(m as nat, k1);
        assert(m as nat + k1 == top as nat);
        vstd::arithmetic::div_mod::lemma_div_pos_is_pos(n0[0] as int, pow2(k1) as int);
        vstd::arithmetic::div_mod::lemma_div_pos_is_pos(n0[1] as int, pow2(k1) as int);
        lemma_div_range(n0[0] as int, pow2(k1) as int, n2[0] as int);
        lemma_div_range(n0[1] as int, pow2(k1) as int, n2[1] as int);
        assert(n2[0] < pow2(m as nat) && n2[1] < pow2(m as nat)) by (nonlinear_arith)
            requires n2[0] * pow2(k1) as int <= n0[0] as int, n2[1] * pow2(k1) as int <= n0[1] as int,
                n0[0] < pow2(top as nat), n0[1] < pow2(top as nat), pow2(k1) > 0,
                pow2(top as nat) == pow2(m as nat) * pow2(k1);
        assert(t.toplevel <= 30 && t.levels.len() <= t.toplevel + 1);
        lemma_cell_pixel(t, cache, m, n2, l2);
        lemma_cell_pixel(t, cache, m, n2, m);
        let px = n2[0] * t.side(m);
        let py = n2[1] * t.side(m);
        lemma_leaf_facts(t, cache, px, py);
        assert((m - m) as nat == 0nat);
        vstd::arithmetic::div_mod::lemma_div_basics(n2[0] as int);
        vstd::arithmetic::div_mod::lemma_div_basics(n2[1] as int);
        assert(px / t.side(m) == n2[0] && py / t.side(m) == n2[1]);
        assert((m - l2) as nat == r);
        assert(t.leaf_of(px, py, l2));
        assert(t.cell(m, n2[0] as int, n2[1] as int) is None);
        lemma_super_find_reaches(t, cache, lev - 1, c2, n2, top, i, n0, l2, jn);
    }
}

/// What is found on one side is among the neighbors.
proof fn lemma_part_in_neighbors(t: &QTree, level: int, idx: [i32; 2], side: Side, n: (usize, [i32; 2]))
    requires
        t.neighbors_on(level, idx, side, side_offset(side)).contains(n),
    ensures
        t.neighbors_spec(level, idx).contains(n),
{
    let p0 = t.neighbors_on(level, idx, Side::Left, [1i32, 0i32]);
    let p1 = t.neighbors_on(level, idx, Side::Top, [0i32, 1i32]);
    let p2 = t.neighbors_on(level, idx, Side::Right, [-1i32, 0i32]);
    let p3 = t.neighbors_on(level, idx, Side::Bottom, [0i32, -1i32]);
    let all = t.neighbors_spec(level, idx);
    assert(all == p0 + p1 + p2 + p3);
    let part = t.neighbors_on(level, idx, side, side_offset(side));
    let i = choose|i: int| 0 <= i < part.len() && part[i] == n;
    let off: int = match side {
        Side::Left => 0int,
        Side::Top => p0.len() as int,
        Side::Right => (p0.len() + p1.len()) as int,
        Side::Bottom => (p0.len() + p1.len() + p2.len()) as int,
    };
    assert(all[off + i] == n);
}

/// A uniform cell at `level` or below, lying on the facing side of the neighbor index across
/// `side`, is among the neighbors.
proof fn lemma_finer_neighbor(t: &QTree, cache: &CacheMap, level: int, idx: [i32; 2], side: Side, n: (usize, [i32; 2]))
    requires
        t.consistent(cache),
        t.levels.len() <= 30,
        0 <= level <= n.0,
        n.0 < t.levels.len(),
        0 <= idx[0] < pow2(level as nat),
        0 <= idx[1] < pow2(level as nat),
        0 <= n.1[0] < pow2(n.0 as nat),
        0 <= n.1[1] < pow2(n.0 as nat),
        t.cell(n.0 as int, n.1[0] as int, n.1[1] as int) matches Some(st) && st != CellState::Mixed,
        on_side_below([(idx[0] + side_offset(side)[0]) as i32, (idx[1] + side_offset(side)[1]) as i32], side, (n.0 - level) as nat, n.1),
    ensures
        t.neighbors_spec(level, idx).contains(n),
{
    vstd::arithmetic::power2::lemma2_to64();
    vstd::arithmetic::power2::lemma_pow2_strictly_increases(level as nat, 30);
    let nb = [(idx[0] + side_offset(side)[0]) as i32, (idx[1] + side_offset(side)[1]) as i32];
    assert(QTree::idx_in_search_range(level, nb));
    lemma_sub_find_reaches(t, cache, level, nb, side, n);
    lemma_part_in_neighbors(t, level, idx, side, n);
}

/// A uniform cell above `level` that holds the neighbor index across `side` but not the cell
/// is among the neighbors.
proof fn lemma_coarser_neighbor(t: &QTree, cache: &CacheMap, level: int, idx: [i32; 2], side: Side, n: (usize, [i32; 2]))
    requires
        t.consistent(cache),
        t.levels.len() <= 30,
        0 <= n.0 < level < t.levels.len(),
        0 <= idx[0] < pow2(level as nat),
        0 <= idx[1] < pow2(level as nat),
        0 <= n.1[0] < pow2(n.0 as nat),
        0 <= n.1[1] < pow2(n.0 as nat),
        t.cell(n.0 as int, n.1[0] as int, n.1[1] as int) matches Some(st) && st != CellState::Mixed,
        ({
            let nb0 = idx[0] + side_offset(side)[0];
            let nb1 = idx[1] + side_offset(side)[1];
            let q = pow2((level - n.0) as nat) as int;
            &&& 0 <= nb0 < pow2(level as nat)
            &&& 0 <= nb1 < pow2(level as nat)
            &&& nb0 / q == n.1[0]
            &&& nb1 / q == n.1[1]
            &&& (idx[0] as int / q != n.1[0] || idx[1] as int / q != n.1[1])
        }),
    ensures
        t.neighbors_spec(level, idx).contains(n),
{
    vstd::arithmetic::power2::lemma2_to64();
    vstd::arithmetic::power2::lemma_pow2_strictly_increases(level as nat, 30);
    let nb = [(idx[0] + side_offset(side)[0]) as i32, (idx[1] + side_offset(side)[1]) as i32];
    assert(QTree::idx_in_search_range(level, nb));
    lemma_sub_find_shadowed(t, cache, level, nb, side, n.0 as int, n.1);
    assert((level - level) as nat == 0nat);
    vstd::arithmetic::div_mod::lemma_div_basics(idx[0] as int);
    vstd::arithmetic::div_mod::lemma_div_basics(idx[1] as int);
    vstd::arithmetic::div_mod::lemma_div_basics(nb[0] as int);
    vstd::arithmetic::div_mod::lemma_div_basics(nb[1] as int);
    lemma_super_find_reaches(t, cache, level, idx, nb, level, idx, nb, n.0 as int, n.1);
    let part = t.neighbors_on(level, idx, side, side_offset(side));
    assert(part == seq![(n.0, n.1)]);
    assert(part[0] == n);
    lemma_part_in_neighbors(t, level, idx, side, n);
}

/// The converse of the neighbor law, in a tree consistent with its cache: every uniform cell
/// of the tree that touches a cell of `level` along an edge is among that cell's neighbors.
pub proof fn lemma_touching_is_neighbor(t: &QTree, cache: &CacheMap, level: int, idx: [i32; 2], n: (usize, [i32; 2]))
    requires
        t.consistent(cache),
        t.levels.len() <= 30,
        0 <= level < t.levels.len(),
        0 <= idx[0] < pow2(level as nat),
        0 <= idx[1] < pow2(level as nat),
        n.0 < t.levels.len(),
        0 <= n.1[0] < pow2(n.0 as nat),
        0 <= n.1[1] < pow2(n.0 as nat),
        t.cell(n.0 as int, n.1[0] as int, n.1[1] as int) matches Some(st) && st != CellState::Mixed,
        touches((level as usize, idx), n),
    ensures
        t.neighbors_spec(level, idx).contains(n),
{
    let (i0, i1) = (idx[0] as int, idx[1] as int);
    let (j0, j1) = (n.1[0] as int, n.1[1] as int);
    let l2 = n.0 as int;
    vstd::arithmetic::power2::lemma2_to64();
    let a = (level as usize, idx);
    assert(a.0 as int == level);
    if level <= l2 {
        let d = (l2 - level) as nat;
        let p = pow2(d) as int;
        lemma_pow2_pos(d);
        assert((l2 - l2) as nat == 0nat);
        assert(span_lo(level, i0, l2) == i0 * p && span_hi(level, i0, l2) == (i0 + 1) * p);
        assert(span_lo(level, i1, l2) == i1 * p && span_hi(level, i1, l2) == (i1 + 1) * p);
        assert(span_lo(l2, j0, l2) == j0 && span_hi(l2, j0, l2) == j0 + 1);
        assert(span_lo(l2, j1, l2) == j1 && span_hi(l2, j1, l2) == j1 + 1);
        assert((i0 + 1) * p == i0 * p + p && (i1 + 1) * p == i1 * p + p) by (nonlinear_arith);
        let side = if (i0 + 1) * p == j0 && i1 * p < j1 + 1 && j1 < (i1 + 1) * p {
            Side::Left
        } else if j0 + 1 == i0 * p && i1 * p < j1 + 1 && j1 < (i1 + 1) * p {
            Side::Right
        } else if (i1 + 1) * p == j1 {
            Side::Top
        } else {
            Side::Bottom
        };
        lemma_finer_neighbor(t, cache, level, idx, side, n);
    } else {
        let d = (level - l2) as nat;
        let q = pow2(d) as int;
        lemma_pow2_pos(d);
        vstd::arithmetic::power2::lemma_pow2_strictly_increases(0, d);
        vstd::arithmetic::power2::lemma_pow2_adds(l2 as nat, d);
        assert(l2 as nat + d == level as nat);
        assert((level - level) as nat == 0nat);
        assert(span_lo(level, i0, level) == i0 && span_hi(level, i0, level) == i0 + 1);
        assert(span_lo(level, i1, level) == i1 && span_hi(level, i1, level) == i1 + 1);
        assert(span_lo(l2, j0, level) == j0 * q && span_hi(l2, j0, level) == (j0 + 1) * q);
        assert(span_lo(l2, j1, level) == j1 * q && span_hi(l2, j1, level) == (j1 + 1) * q);
        assert((j0 + 1) * q == j0 * q + q && (j1 + 1) * q == j1 * q + q) by (nonlinear_arith);
        assert((j0 + 1) * q <= pow2(level as nat) && (j1 + 1) * q <= pow2(level as nat)) by (nonlinear_arith)
            requires j0 + 1 <= pow2(l2 as nat), j1 + 1 <= pow2(l2 as nat), q > 0, pow2(level as nat) == pow2(l2 as nat) * q;
        // the cell spans within the found cell along the touching edge
        lemma_div_range(i0, q, j0);
        lemma_div_range(i1, q, j1);
        lemma_div_range(i0 + 1, q, j0);
        lemma_div_range(i1 + 1, q, j1);
        lemma_div_range(i0 - 1, q, j0);
        lemma_div_range(i1 - 1, q, j1);
        lemma_div_range(i0, q, j0 - 1);
        lemma_div_range(i1, q, j1 - 1);
        lemma_div_range(i0, q, j0 + 1);
        lemma_div_range(i1, q, j1 + 1);
        assert((j0 - 1 + 1) * q == j0 * q && (j1 - 1 + 1) * q == j1 * q);
        assert((j0 + 1 + 1) * q == (j0 + 1) * q + q && (j1 + 1 + 1) * q == (j1 + 1) * q + q) by (nonlinear_arith);
        assert((j0 - 1) * q == j0 * q - q && (j1 - 1) * q == j1 * q - q) by (nonlinear_arith);
        let side = if i0 + 1 == j0 * q && i1 < (j1 + 1) * q && j1 * q < i1 + 1 {
            Side::Left
        } else if (j0 + 1) * q == i0 && i1 < (j1 + 1) * q && j1 * q < i1 + 1 {
            Side::Right
        } else if i1 + 1 == j1 * q {
            Side::Top
        } else {
            Side::Bottom
        };
        lemma_coarser_neighbor(t, cache, level, idx, side, n);
    }
}

} // verus!
