//! The connection graph of the rooms board: which neighboring rooms a corridor joins.

use vstd::prelude::*;
use crate::xor128::{Xor128, xor128_next};

verus! {

/// A room of the rooms board, by its column and row in the grid of rooms.
pub type RoomCoord = (usize, usize);

/// A corridor between two rooms, the room first in (column, row) order first.
pub type RoomLink = (RoomCoord, RoomCoord);

/// The rooms that take part in the graph: columns and rows 1 to `rows - 1`.
pub open spec fn inner_room(rows: int, r: RoomCoord) -> bool {
    1 <= r.0 < rows && 1 <= r.1 < rows
}

/// The room in the middle of the grid, where the graph starts.
pub open spec fn center_room(rows: int) -> RoomCoord {
    ((rows / 2) as usize, (rows / 2) as usize)
}

/// The offset of direction `d`: left, up, right, down.
pub open spec fn room_dir(d: int) -> (int, int) {
    if d == 0 { (-1, 0) } else if d == 1 { (0, -1) } else if d == 2 { (1, 0) } else { (0, 1) }
}

/// The room next to `r` in direction `d`, where it has nonnegative coordinates.
pub open spec fn room_next(r: RoomCoord, d: int) -> RoomCoord {
    ((r.0 + room_dir(d).0) as usize, (r.1 + room_dir(d).1) as usize)
}

/// `c` joins two inner rooms, the second to the right of or below the first.
pub open spec fn room_link(rows: int, c: RoomLink) -> bool {
    &&& inner_room(rows, c.0)
    &&& inner_room(rows, c.1)
    &&& ((c.1.0 == c.0.0 + 1 && c.1.1 == c.0.1) || (c.1.0 == c.0.0 && c.1.1 == c.0.1 + 1))
}

/// The room that the corridor `c` leads to, seen from `r`: its other end when `r` is its first
/// end, and its first end otherwise.
pub open spec fn other_end(c: RoomLink, r: RoomCoord) -> RoomCoord {
    if r == c.0 { c.1 } else { c.0 }
}

/// Some corridor, seen from `r`, leads to `n`: no new corridor is dug from `r` towards `n`.
pub open spec fn blocked_towards(conns: Seq<RoomLink>, r: RoomCoord, n: RoomCoord) -> bool {
    exists|k: int| 0 <= k < conns.len() && #[trigger] other_end(conns[k], r) == n
}

/// No new corridor can be dug from `r`: every inner neighbor is blocked.
pub open spec fn closed_room(conns: Seq<RoomLink>, rows: int, r: RoomCoord) -> bool {
    forall|d: int| 0 <= d < 4 && r.0 + room_dir(d).0 >= 0 && r.1 + room_dir(d).1 >= 0
        && inner_room(rows, #[trigger] room_next(r, d)) ==> blocked_towards(conns, r, room_next(r, d))
}

/// The corridors join `a` and `b`.
pub open spec fn joined(conns: Seq<RoomLink>, a: RoomCoord, b: RoomCoord) -> bool {
    exists|k: int| 0 <= k < conns.len() && (conns[k] == (a, b) || conns[k] == (b, a))
}

/// `p` walks from room to room along corridors.
pub open spec fn room_walk(conns: Seq<RoomLink>, p: Seq<RoomCoord>) -> bool {
    &&& p.len() >= 1
    &&& forall|i: int| 0 <= i < p.len() - 1 ==> #[trigger] joined(conns, p[i], p[i + 1])
}

/// The room `a` is reached from the room `c` along corridors.
pub open spec fn reached(conns: Seq<RoomLink>, c: RoomCoord, a: RoomCoord) -> bool {
    exists|p: Seq<RoomCoord>| #[trigger] room_walk(conns, p) && p[0] == c && p.last() == a
}

/// The number of unset flags.
pub open spec fn count_false(s: Seq<bool>) -> nat
    decreases s.len(),
{
    if s.len() == 0 {
        0
    } else {
        count_false(s.drop_last()) + if s.last() { 0nat } else { 1nat }
    }
}

proof fn lemma_count_false_set(s: Seq<bool>, i: int)
    requires
        0 <= i < s.len(),
        !s[i],
    ensures
        count_false(s.update(i, true)) + 1 == count_false(s),
    decreases s.len(),
{
    let t = s.update(i, true);
    if i == s.len() - 1 {
        assert(t.drop_last() =~= s.drop_last());
    } else {
        assert(t.drop_last() =~= s.drop_last().update(i, true));
        lemma_count_false_set(s.drop_last(), i);
    }
}

/// Where the flag of a corridor is kept: two flags per room, for its right and lower corridors.
pub open spec fn link_index(rows: int, c: RoomLink) -> int {
    2 * (c.0.0 + c.0.1 * rows) + if c.1.0 == c.0.0 + 1 { 0int } else { 1int }
}

proof fn lemma_link_index(rows: int, c1: RoomLink, c2: RoomLink)
    requires
        room_link(rows, c1),
        room_link(rows, c2),
    ensures
        0 <= link_index(rows, c1) < 2 * (rows * rows),
        link_index(rows, c1) == link_index(rows, c2) ==> c1 == c2,
{
    crate::dijkstra::lemma_rect_index(c1.0.0 as int, c1.0.1 as int, rows, rows);
    crate::dijkstra::lemma_rect_index(c2.0.0 as int, c2.0.1 as int, rows, rows);
    if link_index(rows, c1) == link_index(rows, c2) {
        let p1 = c1.0.0 + c1.0.1 * rows;
        let p2 = c2.0.0 + c2.0.1 * rows;
        assert(p1 == p2);
        crate::dijkstra::lemma_rect_index_injective(c1.0.0 as int, c1.0.1 as int, c2.0.0 as int, c2.0.1 as int, rows);
    }
}

/// Walks stay walks when corridors are added.
proof fn lemma_walk_grows(conns: Seq<RoomLink>, c: RoomLink, p: Seq<RoomCoord>)
    requires
        room_walk(conns, p),
    ensures
        room_walk(conns.push(c), p),
{
    let n = conns.push(c);
    assert forall|i: int| 0 <= i < p.len() - 1 implies #[trigger] joined(n, p[i], p[i + 1]) by {
        assert(joined(conns, p[i], p[i + 1]));
        let k = choose|k: int| 0 <= k < conns.len() && (conns[k] == (p[i], p[i + 1]) || conns[k] == (p[i + 1], p[i]));
        assert(n[k] == conns[k]);
    }
}

/// The number of free directions among the first `n`.
pub open spec fn free_count(a: [bool; 4], n: int) -> int
    decreases n,
{
    if n <= 0 { 0 } else { free_count(a, n - 1) + if a[n - 1] { 1int } else { 0int } }
}

/// The `n`-th set flag of `a` from index `d` on (4 where there is none).
pub open spec fn pick_free(a: [bool; 4], n: int, d: int) -> int
    decreases 4 - d,
{
    if d >= 4 {
        4
    } else if a[d] {
        if n == 0 { d } else { pick_free(a, n - 1, d + 1) }
    } else {
        pick_free(a, n, d + 1)
    }
}

/// The room next to `r` in direction `d` is an inner room.
pub open spec fn inward(rows: int, r: RoomCoord, d: int) -> bool {
    &&& r.0 + room_dir(d).0 >= 0
    &&& r.1 + room_dir(d).1 >= 0
    &&& inner_room(rows, room_next(r, d))
}

/// The directions, left, up, right and down, in which a corridor can be dug from `room`: towards
/// an inner room that no corridor, seen from `room`, leads to.
fn free_directions(conns: &Vec<RoomLink>, room: RoomCoord, rows: usize) -> (avail: [bool; 4])
    requires
        2 <= rows <= 0x1000,
        inner_room(rows as int, room),
        forall|k: int| 0 <= k < conns.len() ==> room_link(rows as int, #[trigger] conns@[k]),
    ensures
        forall|d: int| 0 <= d < 4 ==> (#[trigger] avail[d] <==>
            inward(rows as int, room, d) && !blocked_towards(conns@, room, room_next(room, d))),
{
    let ghost r = rows as int;
    let mut avail: [bool; 4] = [true, true, true, true];
    let mut k: usize = 0;
    while k < conns.len()
        invariant
            k <= conns.len(),
            2 <= rows <= 0x1000,
            inner_room(r, room),
            r == rows as int,
            forall|kk: int| 0 <= kk < conns.len() ==> room_link(r, #[trigger] conns@[kk]),
            forall|d: int| 0 <= d < 4 ==> (#[trigger] avail[d] <==>
                !exists|kk: int| 0 <= kk < k && other_end(conns@[kk], room).0 == room.0 + room_dir(d).0
                    && other_end(conns@[kk], room).1 == room.1 + room_dir(d).1),
        decreases conns.len() - k,
    {
        let cn = conns[k];
        assert(room_link(r, cn));
        let other = if room.0 == cn.0.0 && room.1 == cn.0.1 { cn.1 } else { cn.0 };
        proof {
            assert(other == other_end(cn, room));
        }
        let hits: [bool; 4] = [
            other.0 + 1 == room.0 && other.1 == room.1,
            other.0 == room.0 && other.1 + 1 == room.1,
            other.0 == room.0 + 1 && other.1 == room.1,
            other.0 == room.0 && other.1 == room.1 + 1,
        ];
        let ghost before = avail;
        avail = [avail[0] && !hits[0], avail[1] && !hits[1], avail[2] && !hits[2], avail[3] && !hits[3]];
        proof {
            assert forall|d: int| 0 <= d < 4 implies (#[trigger] avail[d] <==>
                !exists|kk: int| 0 <= kk < k + 1 && other_end(conns@[kk], room).0 == room.0 + room_dir(d).0
                    && other_end(conns@[kk], room).1 == room.1 + room_dir(d).1) by {
                assert(hits[d] == (other.0 == room.0 + room_dir(d).0 && other.1 == room.1 + room_dir(d).1));
                assert(avail[d] == (before[d] && !hits[d]));
                if exists|kk: int| 0 <= kk < k + 1 && other_end(conns@[kk], room).0 == room.0 + room_dir(d).0
                    && other_end(conns@[kk], room).1 == room.1 + room_dir(d).1 {
                    let kk = choose|kk: int| 0 <= kk < k + 1 && other_end(conns@[kk], room).0 == room.0 + room_dir(d).0
                        && other_end(conns@[kk], room).1 == room.1 + room_dir(d).1;
                    if kk < k {
                        assert(!before[d]);
                    }
                }
            }
        }
        k += 1;
    }
    let ghost blocked = avail;
    avail = [
        avail[0] && room.0 > 1,
        avail[1] && room.1 > 1,
        avail[2] && room.0 + 1 < rows,
        avail[3] && room.1 + 1 < rows,
    ];
    proof {
        assert forall|d: int| 0 <= d < 4 implies (#[trigger] avail[d] <==>
            inward(r, room, d) && !blocked_towards(conns@, room, room_next(room, d))) by {
            if blocked_towards(conns@, room, room_next(room, d)) && inward(r, room, d) {
                let kk = choose|kk: int| 0 <= kk < conns@.len() && #[trigger] other_end(conns@[kk], room) == room_next(room, d);
                assert(!blocked[d]);
            }
            if !blocked[d] && inward(r, room, d) {
                let kk = choose|kk: int| 0 <= kk < conns.len() && other_end(conns@[kk], room).0 == room.0 + room_dir(d).0
                    && other_end(conns@[kk], room).1 == room.1 + room_dir(d).1;
                assert(other_end(conns@[kk], room) == room_next(room, d));
            }
        }
    }
    avail
}

/// The `n`-th free direction, counting from 0 in the order left, up, right, down.
fn nth_free(avail: [bool; 4], n: usize) -> (d: usize)
    requires
        n < free_count(avail, 4),
    ensures
        d < 4,
        avail[d as int],
        d == pick_free(avail, n as int, 0),
{
    let mut dir: usize = 0;
    let mut seen_av: usize = 0;
    let mut chosen: usize = 4;
    while dir < 4
        invariant
            dir <= 4,
            n < free_count(avail, 4),
            seen_av == free_count(avail, dir as int),
            seen_av <= dir,
            chosen == 4 ==> seen_av <= n,
            chosen < 4 ==> avail[chosen as int],
            chosen <= 4,
            chosen == 4 ==> pick_free(avail, n as int, 0) == pick_free(avail, n - seen_av, dir as int),
            chosen < 4 ==> pick_free(avail, n as int, 0) == chosen,
        decreases 4 - dir,
    {
        if avail[dir] {
            if seen_av == n && chosen == 4 {
                chosen = dir;
            }
            seen_av += 1;
        }
        dir += 1;
    }
    proof {
        if chosen == 4 {
            assert(false);
        }
    }
    chosen
}

/// Adding a corridor that is not there yet: the flags, the walks from the center and the
/// closed rooms follow.
proof fn lemma_add_link(
    conns0: Seq<RoomLink>,
    flags0: Seq<bool>,
    r: int,
    c: RoomCoord,
    room_i: RoomCoord,
    room_j: RoomCoord,
    link: RoomLink,
)
    requires
        2 <= r,
        flags0.len() == 2 * (r * r),
        forall|k: int| 0 <= k < conns0.len() ==> room_link(r, #[trigger] conns0[k]),
        forall|k1: int, k2: int| 0 <= k1 < k2 < conns0.len() ==> #[trigger] conns0[k1] != #[trigger] conns0[k2],
        forall|k: int| 0 <= k < conns0.len() ==> #[trigger] flags0[link_index(r, conns0[k])],
        forall|j: int| 0 <= j < flags0.len() && #[trigger] flags0[j] ==>
            exists|k: int| 0 <= k < conns0.len() && link_index(r, conns0[k]) == j,
        forall|k: int| 0 <= k < conns0.len() ==> reached(conns0, c, (#[trigger] conns0[k]).0) && reached(conns0, c, conns0[k].1),
        reached(conns0, c, room_i),
        room_link(r, link),
        (link == (room_i, room_j) || link == (room_j, room_i)),
        room_i != room_j,
        !blocked_towards(conns0, room_i, room_j),
    ensures
        !flags0[link_index(r, link)],
        0 <= link_index(r, link) < flags0.len(),
        count_false(flags0.update(link_index(r, link), true)) + 1 == count_false(flags0),
        ({
            let n = conns0.push(link);
            let f = flags0.update(link_index(r, link), true);
            &&& forall|k: int| 0 <= k < n.len() ==> room_link(r, #[trigger] n[k])
            &&& forall|k1: int, k2: int| 0 <= k1 < k2 < n.len() ==> #[trigger] n[k1] != #[trigger] n[k2]
            &&& forall|k: int| 0 <= k < n.len() ==> #[trigger] f[link_index(r, n[k])]
            &&& forall|j: int| 0 <= j < f.len() && #[trigger] f[j] ==> exists|k: int| 0 <= k < n.len() && link_index(r, n[k]) == j
            &&& forall|k: int| 0 <= k < n.len() ==> reached(n, c, (#[trigger] n[k]).0) && reached(n, c, n[k].1)
            &&& forall|q: RoomCoord| #[trigger] reached(conns0, c, q) ==> reached(n, c, q)
            &&& reached(n, c, room_j)
            &&& forall|q: RoomCoord| #[trigger] closed_room(conns0, r, q) ==> closed_room(n, r, q)
        }),
{
    let n = conns0.push(link);
    let fi = link_index(r, link);
    let f = flags0.update(fi, true);
    lemma_link_index(r, link, link);
    if flags0[fi] {
        let k = choose|k: int| 0 <= k < conns0.len() && link_index(r, conns0[k]) == fi;
        lemma_link_index(r, conns0[k], link);
        assert(conns0[k] == link);
        assert(other_end(conns0[k], room_i) == room_j);
    }
    lemma_count_false_set(flags0, fi);
    assert forall|k1: int, k2: int| 0 <= k1 < k2 < n.len() implies #[trigger] n[k1] != #[trigger] n[k2] by {
        if k2 == n.len() - 1 {
            assert(n[k1] == conns0[k1]);
            if n[k1] == link {
                assert(flags0[link_index(r, conns0[k1])]);
            }
        } else {
            assert(n[k1] == conns0[k1] && n[k2] == conns0[k2]);
        }
    }
    assert forall|k: int| 0 <= k < n.len() implies #[trigger] f[link_index(r, n[k])] by {
        if k < conns0.len() {
            assert(n[k] == conns0[k]);
            lemma_link_index(r, conns0[k], conns0[k]);
            assert(flags0[link_index(r, conns0[k])]);
        }
    }
    assert forall|j: int| 0 <= j < f.len() && #[trigger] f[j] implies exists|k: int| 0 <= k < n.len() && link_index(r, n[k]) == j by {
        if j == fi {
            assert(link_index(r, n[n.len() - 1]) == j);
        } else {
            assert(flags0[j]);
            let k = choose|k: int| 0 <= k < conns0.len() && link_index(r, conns0[k]) == j;
            assert(n[k] == conns0[k]);
        }
    }
    assert forall|q: RoomCoord| #[trigger] reached(conns0, c, q) implies reached(n, c, q) by {
        let p = choose|p: Seq<RoomCoord>| #[trigger] room_walk(conns0, p) && p[0] == c && p.last() == q;
        lemma_walk_grows(conns0, link, p);
    }
    let pi = choose|p: Seq<RoomCoord>| #[trigger] room_walk(conns0, p) && p[0] == c && p.last() == room_i;
    lemma_walk_grows(conns0, link, pi);
    let pj = pi.push(room_j);
    assert(joined(n, room_i, room_j)) by {
        assert(n[n.len() - 1] == link);
    }
    assert forall|i: int| 0 <= i < pj.len() - 1 implies #[trigger] joined(n, pj[i], pj[i + 1]) by {
        if i < pi.len() - 1 {
            assert(pj[i] == pi[i] && pj[i + 1] == pi[i + 1]);
            assert(joined(n, pi[i], pi[i + 1]));
        } else {
            assert(pj[i] == room_i && pj[i + 1] == room_j);
        }
    }
    assert(room_walk(n, pj));
    assert(reached(n, c, room_j));
    assert(reached(n, c, room_i));
    assert forall|k: int| 0 <= k < n.len() implies reached(n, c, (#[trigger] n[k]).0) && reached(n, c, n[k].1) by {
        if k < conns0.len() {
            assert(n[k] == conns0[k]);
            assert(reached(conns0, c, conns0[k].0) && reached(conns0, c, conns0[k].1));
        } else {
            assert(n[k] == link);
        }
    }
    assert forall|k: int| 0 <= k < n.len() implies room_link(r, #[trigger] n[k]) by {
        if k < conns0.len() {
            assert(n[k] == conns0[k]);
        }
    }
    assert forall|q: RoomCoord| #[trigger] closed_room(conns0, r, q) implies closed_room(n, r, q) by {
        assert forall|dd: int| 0 <= dd < 4 && q.0 + room_dir(dd).0 >= 0 && q.1 + room_dir(dd).1 >= 0
            && inner_room(r, #[trigger] room_next(q, dd)) implies blocked_towards(n, q, room_next(q, dd)) by {
            assert(blocked_towards(conns0, q, room_next(q, dd)));
            let kk = choose|kk: int| 0 <= kk < conns0.len() && #[trigger] other_end(conns0[kk], q) == room_next(q, dd);
            assert(n[kk] == conns0[kk]);
        }
    }
}

proof fn lemma_same_flags(a: [bool; 4], b: [bool; 4], n: int, d: int)
    requires
        0 <= d,
        forall|e: int| 0 <= e < 4 ==> a[e] == b[e],
    ensures
        pick_free(a, n, d) == pick_free(b, n, d),
    decreases 4 - d,
{
    if d < 4 {
        lemma_same_flags(a, b, n - 1, d + 1);
        lemma_same_flags(a, b, n, d + 1);
    }
}

proof fn lemma_same_count(a: [bool; 4], b: [bool; 4], n: int)
    requires
        n <= 4,
        forall|e: int| 0 <= e < 4 ==> a[e] == b[e],
    ensures
        free_count(a, n) == free_count(b, n),
    decreases n,
{
    if n > 0 {
        lemma_same_count(a, b, n - 1);
    }
}

proof fn lemma_first_index(s: Seq<RoomCoord>, r: RoomCoord, i: int, idx: int)
    requires
        0 <= i <= idx < s.len(),
        s[idx] == r,
        forall|j: int| i <= j < idx ==> s[j] != r,
    ensures
        first_index(s, r, i) == idx,
    decreases idx - i,
{
    if i < idx {
        lemma_first_index(s, r, i + 1, idx);
    }
}

/// The state of the digging: the corridors so far, the open rooms, and the generator.
pub type DigState = (Seq<RoomLink>, Seq<RoomCoord>, Xor128);

/// Which directions, left, up, right and down, are free from `room` (see `free_directions`).
pub open spec fn free_dirs(conns: Seq<RoomLink>, rows: int, room: RoomCoord) -> [bool; 4] {
    [
        inward(rows, room, 0) && !blocked_towards(conns, room, room_next(room, 0)),
        inward(rows, room, 1) && !blocked_towards(conns, room, room_next(room, 1)),
        inward(rows, room, 2) && !blocked_towards(conns, room, room_next(room, 2)),
        inward(rows, room, 3) && !blocked_towards(conns, room, room_next(room, 3)),
    ]
}

/// The first position of `r` in `s` from `i` on (`s.len()` where there is none).
pub open spec fn first_index(s: Seq<RoomCoord>, r: RoomCoord, i: int) -> int
    decreases s.len() - i,
{
    if i >= s.len() { s.len() as int } else if s[i] == r { i } else { first_index(s, r, i + 1) }
}

/// One round of digging: a draw picks an open room; with no free direction the room is
/// closed (its first place in the list takes the last open room); otherwise a second draw
/// picks among the free directions, the corridor is dug, and the room it reaches is opened
/// unless it is open already. With no open room nothing changes.
pub open spec fn dig_step(rows: int, st: DigState) -> DigState {
    let (conns, open, g) = st;
    if open.len() == 0 {
        st
    } else {
        let g1 = xor128_next(g);
        let room_i = open[(g1.w as int) % (open.len() as int)];
        let avail = free_dirs(conns, rows, room_i);
        let n_av = free_count(avail, 4);
        if n_av == 0 {
            let idx = first_index(open, room_i, 0);
            (conns, open.update(idx, open.last()).drop_last(), g1)
        } else {
            let g2 = xor128_next(g1);
            let d = pick_free(avail, (g2.w as int) % n_av, 0);
            let room_j = room_next(room_i, d);
            let link = if d >= 2 { (room_i, room_j) } else { (room_j, room_i) };
            (conns.push(link), if open.contains(room_j) { open } else { open.push(room_j) }, g2)
        }
    }
}

/// The state after `k` rounds of digging.
pub open spec fn dig_run(rows: int, st: DigState, k: nat) -> DigState
    decreases k,
{
    if k == 0 { st } else { dig_step(rows, dig_run(rows, st, (k - 1) as nat)) }
}

/// The state the digging starts from: no corridor, the center open.
pub open spec fn dig_start(rows: int, g: Xor128) -> DigState {
    (Seq::empty(), seq![center_room(rows)], g)
}

/// Digs the corridors of the rooms board, from the center room outwards: an open room is drawn
/// and, among the directions towards inner rooms that no corridor blocks (seen from it), one is
/// drawn and dug, which opens the room it reaches; a room with no such direction is closed.
/// Every corridor joins neighboring inner rooms and comes once; every room that a corridor
/// reaches is reached from the center along corridors; and when the digging ends, the center
/// and every room at the end of a corridor are closed.
#[verifier::spinoff_prover]
#[verifier::rlimit(80)]
pub fn connect_rooms(room_rows: usize, rand: &mut Xor128) -> (conns: Vec<RoomLink>)
    requires
        2 <= room_rows <= 0x1000,
    ensures
        forall|k: int| 0 <= k < conns.len() ==> room_link(room_rows as int, #[trigger] conns@[k]),
        forall|k1: int, k2: int| 0 <= k1 < k2 < conns.len() ==> #[trigger] conns@[k1] != #[trigger] conns@[k2],
        forall|k: int| 0 <= k < conns.len() ==> reached(conns@, center_room(room_rows as int), (#[trigger] conns@[k]).0)
            && reached(conns@, center_room(room_rows as int), conns@[k].1),
        closed_room(conns@, room_rows as int, center_room(room_rows as int)),
        forall|k: int| 0 <= k < conns.len() ==> closed_room(conns@, room_rows as int, (#[trigger] conns@[k]).0)
            && closed_room(conns@, room_rows as int, conns@[k].1),
        exists|k: nat| #![trigger dig_run(room_rows as int, dig_start(room_rows as int, *old(rand)), k)]
            dig_run(room_rows as int, dig_start(room_rows as int, *old(rand)), k)
                == (conns@, Seq::<RoomCoord>::empty(), *final(rand)),
{
    let rows = room_rows;
    let ghost r = rows as int;
    let center: RoomCoord = (rows / 2, rows / 2);
    let ghost c = center_room(r);
    let mut conns: Vec<RoomLink> = Vec::new();
    proof {
        assert(rows * rows <= 0x100_0000) by (nonlinear_arith) requires rows <= 0x1000;
    }
    let nflags = 2 * (rows * rows);
    let mut flags: Vec<bool> = Vec::new();
    while flags.len() < nflags
        invariant
            flags.len() <= nflags,
            forall|j: int| 0 <= j < flags.len() ==> !#[trigger] flags@[j],
        decreases nflags - flags.len(),
    {
        flags.push(false);
    }
    let mut open_ends: Vec<RoomCoord> = Vec::new();
    open_ends.push(center);
    let ghost mut seen: Set<RoomCoord> = Set::empty().insert(c);
    let ghost g0 = *rand;
    let ghost mut steps: nat = 0;
    proof {
        assert(room_walk(conns@, seq![c]));
        assert(reached(conns@, c, c));
        assert(open_ends@ =~= seq![c]);
        assert(open_ends@[0] == c);
        assert(open_ends@.contains(c));
        assert(conns@ =~= Seq::<RoomLink>::empty());
    }
    while open_ends.len() > 0
        invariant
            r == rows as int,
            2 <= rows <= 0x1000,
            c == center_room(r),
            center == c,
            inner_room(r, c),
            nflags == 2 * (r * r),
            flags.len() == nflags,
            forall|k: int| 0 <= k < conns.len() ==> room_link(r, #[trigger] conns@[k]),
            forall|k1: int, k2: int| 0 <= k1 < k2 < conns.len() ==> #[trigger] conns@[k1] != #[trigger] conns@[k2],
            forall|k: int| 0 <= k < conns.len() ==> #[trigger] flags@[link_index(r, conns@[k])],
            forall|j: int| 0 <= j < flags.len() && #[trigger] flags@[j] ==>
                exists|k: int| 0 <= k < conns.len() && link_index(r, conns@[k]) == j,
            forall|k: int| 0 <= k < conns.len() ==> reached(conns@, c, (#[trigger] conns@[k]).0) && reached(conns@, c, conns@[k].1),
            forall|i: int| 0 <= i < open_ends.len() ==> inner_room(r, #[trigger] open_ends@[i]) && reached(conns@, c, open_ends@[i]),
            seen.contains(c),
            forall|k: int| 0 <= k < conns.len() ==> seen.contains((#[trigger] conns@[k]).0) && seen.contains(conns@[k].1),
            forall|q: RoomCoord| #[trigger] seen.contains(q) ==> open_ends@.contains(q) || closed_room(conns@, r, q),
            forall|i: int| 0 <= i < open_ends.len() ==> seen.contains(#[trigger] open_ends@[i]),
            dig_run(r, dig_start(r, g0), steps) == (conns@, open_ends@, *rand),
        decreases 2 * count_false(flags@) + open_ends.len(),
    {
        let ghost st: DigState = (conns@, open_ends@, *rand);
        let pick = (rand.nexti() as usize) % open_ends.len();
        let room_i = open_ends[pick];
        let ghost g1 = *rand;
        let avail = free_directions(&conns, room_i, rows);
        proof {
            assert(g1 == xor128_next(st.2));
            assert(room_i == st.1[(g1.w as int) % (st.1.len() as int)]);
            let fd = free_dirs(conns@, r, room_i);
            assert(forall|e: int| 0 <= e < 4 ==> avail[e] == fd[e]);
            lemma_same_count(avail, fd, 4);
            assert forall|nn: int| #[trigger] pick_free(avail, nn, 0) == pick_free(fd, nn, 0) by {
                lemma_same_flags(avail, fd, nn, 0);
            }
        }
        let n_av: usize = (if avail[0] { 1usize } else { 0 }) + (if avail[1] { 1usize } else { 0 })
            + (if avail[2] { 1usize } else { 0 }) + (if avail[3] { 1usize } else { 0 });
        proof {
            reveal_with_fuel(free_count, 5);
            assert(n_av == free_count(avail, 4));
        }
        if n_av == 0 {
            proof {
                assert forall|d: int| 0 <= d < 4 && room_i.0 + room_dir(d).0 >= 0 && room_i.1 + room_dir(d).1 >= 0
                    && inner_room(r, #[trigger] room_next(room_i, d)) implies blocked_towards(conns@, room_i, room_next(room_i, d)) by {
                    assert(!avail[d]);
                }
                assert(closed_room(conns@, r, room_i));
            }
            let mut idx: usize = 0;
            while idx < open_ends.len() && !(open_ends[idx].0 == room_i.0 && open_ends[idx].1 == room_i.1)
                invariant
                    idx <= open_ends.len(),
                    pick < open_ends.len(),
                    open_ends@[pick as int] == room_i,
                    forall|j: int| 0 <= j < idx ==> open_ends@[j] != room_i,
                decreases open_ends.len() - idx,
            {
                idx += 1;
            }
            proof {
                if idx == open_ends.len() {
                    assert(open_ends@[pick as int] != room_i);
                }
                assert(open_ends@[idx as int] == room_i);
            }
            let ghost before = open_ends@;
            open_ends.swap_remove(idx);
            proof {
                lemma_first_index(before, room_i, 0, idx as int);
                assert((conns@, open_ends@, *rand) == dig_step(r, st));
                steps = steps + 1;
                assert forall|q: RoomCoord| #[trigger] seen.contains(q) implies open_ends@.contains(q) || closed_room(conns@, r, q) by {
                    if before.contains(q) && q != room_i {
                        let j = choose|j: int| 0 <= j < before.len() && before[j] == q;
                        if j == before.len() - 1 {
                            assert(open_ends@[idx as int] == q);
                        } else {
                            assert(open_ends@[j] == q);
                        }
                    }
                }
                assert forall|i: int| 0 <= i < open_ends.len() implies inner_room(r, #[trigger] open_ends@[i]) && reached(conns@, c, open_ends@[i])
                    && seen.contains(open_ends@[i]) by {
                    if i == idx {
                        assert(open_ends@[i] == before[before.len() - 1]);
                    } else {
                        assert(open_ends@[i] == before[i]);
                    }
                }
            }
            continue;
        }
        let conn_i = (rand.nexti() as usize) % n_av;
        let ghost g2 = *rand;
        let chosen = nth_free(avail, conn_i);
        let ghost d = chosen as int;
        proof {
            assert(avail[d]);
            assert(inward(r, room_i, d));
        }
        let room_j: RoomCoord = if chosen == 0 {
            (room_i.0 - 1, room_i.1)
        } else if chosen == 1 {
            (room_i.0, room_i.1 - 1)
        } else if chosen == 2 {
            (room_i.0 + 1, room_i.1)
        } else {
            (room_i.0, room_i.1 + 1)
        };
        proof {
            assert(room_j == room_next(room_i, d));
            assert(inner_room(r, room_j));
            assert(room_i.1 * rows < 0x100_0000 && room_j.1 * rows < 0x100_0000) by (nonlinear_arith)
                requires room_i.1 < rows, room_j.1 < rows, rows <= 0x1000;
        }
        let link: RoomLink = if chosen >= 2 { (room_i, room_j) } else { (room_j, room_i) };
        let fi: usize = if chosen >= 2 {
            2 * (room_i.0 + room_i.1 * rows) + if chosen == 2 { 0 } else { 1 }
        } else {
            2 * (room_j.0 + room_j.1 * rows) + if chosen == 0 { 0 } else { 1 }
        };
        let ghost conns0 = conns@;
        let ghost flags0 = flags@;
        let ghost open0 = open_ends@;
        proof {
            assert(room_link(r, link));
            assert(fi as int == link_index(r, link));
            assert(reached(conns0, c, room_i));
            lemma_add_link(conns0, flags0, r, c, room_i, room_j, link);
        }
        flags.set(fi, true);
        conns.push(link);
        let mut present = false;
        let mut j: usize = 0;
        while j < open_ends.len()
            invariant
                j <= open_ends.len(),
                present == exists|i: int| 0 <= i < j && open_ends@[i] == room_j,
            decreases open_ends.len() - j,
        {
            if open_ends[j].0 == room_j.0 && open_ends[j].1 == room_j.1 {
                proof {
                    assert(open_ends@[j as int] == room_j);
                }
                present = true;
            }
            j += 1;
        }
        if !present {
            open_ends.push(room_j);
        }
        proof {
            assert(present == open0.contains(room_j));
            assert(g2 == xor128_next(g1));
            assert(chosen as int == pick_free(free_dirs(conns0, r, room_i), (g2.w as int) % (n_av as int), 0));
            assert((conns@, open_ends@, *rand) == dig_step(r, st));
            steps = steps + 1;
            seen = seen.insert(room_j);
            assert(open_ends@.contains(room_j)) by {
                if present {
                    let i = choose|i: int| 0 <= i < j && open0[i] == room_j;
                    assert(open_ends@[i] == room_j);
                } else {
                    assert(open_ends@[open_ends.len() - 1] == room_j);
                }
            }
            assert forall|q: RoomCoord| #[trigger] seen.contains(q) implies open_ends@.contains(q) || closed_room(conns@, r, q) by {
                if q != room_j && open0.contains(q) {
                    let i = choose|i: int| 0 <= i < open0.len() && open0[i] == q;
                    assert(open_ends@[i] == q);
                }
            }
            assert forall|i: int| 0 <= i < open_ends.len() implies inner_room(r, #[trigger] open_ends@[i]) && reached(conns@, c, open_ends@[i]) by {
                if i < open0.len() {
                    assert(open_ends@[i] == open0[i]);
                }
            }
            assert forall|k: int| 0 <= k < conns.len() implies seen.contains((#[trigger] conns@[k]).0) && seen.contains(conns@[k].1) by {
                if k < conns0.len() {
                    assert(conns@[k] == conns0[k]);
                } else {
                    assert(conns@[k] == link);
                    assert(seen.contains(open0[pick as int]));
                }
            }
            assert forall|i: int| 0 <= i < open_ends.len() implies seen.contains(#[trigger] open_ends@[i]) by {
                if i < open0.len() {
                    assert(open_ends@[i] == open0[i]);
                }
            }
        }
    }
    proof {
        assert forall|q: RoomCoord| #[trigger] seen.contains(q) implies closed_room(conns@, r, q) by {
            assert(!open_ends@.contains(q));
        }
        assert(open_ends@ =~= Seq::<RoomCoord>::empty());
        assert(dig_run(r, dig_start(r, g0), steps) == (conns@, Seq::<RoomCoord>::empty(), *rand));
    }
    conns
}

} // verus!
