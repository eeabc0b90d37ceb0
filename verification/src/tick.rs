//! The decisions that close a game tick: the clock, the team statistics, which entities stay,
//! whether a team has won, and how the entities' boxes are written into the quad tree.

use vstd::prelude::*;
use crate::game::{TeamStats, UpdateResult, in_rect, entity_pixel_state, update_rect, passable_at, background_state};
use crate::qtree::{CellState, QTreeSearcher, Rect};

verus! {

/// An entity as the end of a tick sees it: its team, whether it is an agent (not a spawner),
/// and whether it is still active.
pub type EntitySummary = (usize, bool, bool);

/// Some active entity of `team` is not an agent: the team still has a spawner.
pub open spec fn has_spawner(entities: Seq<EntitySummary>, team: int) -> bool {
    exists|i: int| 0 <= i < entities.len() && #[trigger] entities[i].2 && !entities[i].1 && entities[i].0 == team
}

/// The outcome of a tick: the other team wins as soon as team 0, then team 1, has no spawner
/// left.
pub open spec fn tick_outcome(entities: Seq<EntitySummary>) -> UpdateResult {
    if !has_spawner(entities, 0) {
        UpdateResult::TeamWon(1)
    } else if !has_spawner(entities, 1) {
        UpdateResult::TeamWon(0)
    } else {
        UpdateResult::Running
    }
}

/// The indices, in order, of the active entities among the first `n`.
pub open spec fn active_prefix(entities: Seq<EntitySummary>, n: int) -> Seq<usize>
    decreases n,
{
    if n <= 0 {
        Seq::empty()
    } else if entities[n - 1].2 {
        active_prefix(entities, n - 1).push((n - 1) as usize)
    } else {
        active_prefix(entities, n - 1)
    }
}

/// The indices, in order, of the active entities.
pub open spec fn active_indices(entities: Seq<EntitySummary>) -> Seq<usize> {
    active_prefix(entities, entities.len() as int)
}

/// The statistics of `team` after a tick in which it killed `kills` and spawned `spawns`
/// entities, with one more win where it won.
pub open spec fn tick_stats(old: TeamStats, kills: usize, spawns: usize, won: bool) -> TeamStats {
    TeamStats {
        spawned: (old.spawned + spawns) as usize,
        kills: (old.kills + kills) as usize,
        wins: if won { (old.wins + 1) as usize } else { old.wins },
    }
}

/// Closes a game tick: advances the clock by one, adds the tick's kills and spawns to each
/// team's statistics, keeps the active entities (returning their indices in order), and
/// decides whether a team won: checking team 0 and then team 1, the first team left without
/// an active spawner loses, and the other team is credited with a win.
pub fn finish_tick(
    global_time: i32,
    stats: &mut [TeamStats; 2],
    kills: [usize; 2],
    spawns: [usize; 2],
    entities: &[EntitySummary],
) -> (res: (i32, Vec<usize>, UpdateResult))
    requires
        global_time < i32::MAX,
        old(stats)[0].kills + kills[0] <= usize::MAX,
        old(stats)[1].kills + kills[1] <= usize::MAX,
        old(stats)[0].spawned + spawns[0] <= usize::MAX,
        old(stats)[1].spawned + spawns[1] <= usize::MAX,
        old(stats)[0].wins < usize::MAX,
        old(stats)[1].wins < usize::MAX,
    ensures
        res.0 == global_time + 1,
        res.1@ == active_indices(entities@),
        res.2 == tick_outcome(entities@),
        final(stats)[0] == tick_stats(old(stats)[0], kills[0], spawns[0], res.2 == UpdateResult::TeamWon(0)),
        final(stats)[1] == tick_stats(old(stats)[1], kills[1], spawns[1], res.2 == UpdateResult::TeamWon(1)),
{
    let mut kept: Vec<usize> = Vec::new();
    let mut base = [false, false];
    let mut i: usize = 0;
    while i < entities.len()
        invariant
            i <= entities.len(),
            kept@ == active_prefix(entities@, i as int),
            forall|t: int| 0 <= t < 2 ==> base[t] == exists|j: int|
                0 <= j < i && #[trigger] entities@[j].2 && !entities@[j].1 && entities@[j].0 == t,
        decreases entities.len() - i,
    {
        let e = entities[i];
        if e.2 {
            kept.push(i);
            if !e.1 && e.0 < 2 {
                base.set(e.0, true);
            }
        }
        proof {
            assert forall|t: int| 0 <= t < 2 implies base[t] == exists|j: int|
                0 <= j < i + 1 && #[trigger] entities@[j].2 && !entities@[j].1 && entities@[j].0 == t by {
                if e.2 && !e.1 && e.0 == t {
                    assert(entities@[i as int].2);
                }
            }
        }
        i += 1;
    }
    let outcome = if !base[0] {
        UpdateResult::TeamWon(1)
    } else if !base[1] {
        UpdateResult::TeamWon(0)
    } else {
        UpdateResult::Running
    };
    let s0 = stats[0];
    let s1 = stats[1];
    let w0: usize = match outcome {
        UpdateResult::TeamWon(0) => s0.wins + 1,
        _ => s0.wins,
    };
    let w1: usize = match outcome {
        UpdateResult::TeamWon(1) => s1.wins + 1,
        _ => s1.wins,
    };
    *stats = [
        TeamStats { spawned: s0.spawned + spawns[0], kills: s0.kills + kills[0], wins: w0 },
        TeamStats { spawned: s1.spawned + spawns[1], kills: s1.kills + kills[1], wins: w1 },
    ];
    (global_time + 1, kept, outcome)
}

/// One write of an entity box: the box, and the entity occupying it (`None` for a box whose
/// entity has left it, which gets the background back).
pub type BoxWrite = (Rect, Option<usize>);

/// The state of pixel `(x, y)` after the writes `ops`, in order, starting from `px`.
pub open spec fn painted(
    px: CellState,
    board: Seq<bool>,
    shape: (usize, usize),
    ops: Seq<BoxWrite>,
    x: int,
    y: int,
) -> CellState
    decreases ops.len(),
{
    if ops.len() == 0 {
        px
    } else if in_rect(ops.last().0, x, y) {
        entity_pixel_state(board, shape, [x as i32, y as i32], ops.last().1)
    } else {
        painted(px, board, shape, ops.drop_last(), x, y)
    }
}

/// The writes that refresh the tree after a tick: first every box that an entity held before
/// is cleared, then every entity's current box is written, occupied by the entity where it is
/// active and cleared where it is not.
pub open spec fn refresh_writes(last_boxes: Seq<Rect>, boxes: Seq<(usize, bool, Rect)>) -> Seq<BoxWrite> {
    Seq::new(last_boxes.len(), |i: int| (last_boxes[i], None::<usize>)) + Seq::new(
        boxes.len(),
        |i: int| (boxes[i].2, if boxes[i].1 { Some(boxes[i].0) } else { None::<usize> }),
    )
}

proof fn lemma_painted_last(px: CellState, board: Seq<bool>, shape: (usize, usize), ops: Seq<BoxWrite>, x: int, y: int, k: int)
    requires
        0 <= k < ops.len(),
        in_rect(ops[k].0, x, y),
        forall|k2: int| k < k2 < ops.len() ==> !in_rect(#[trigger] ops[k2].0, x, y),
    ensures
        painted(px, board, shape, ops, x, y) == entity_pixel_state(board, shape, [x as i32, y as i32], ops[k].1),
    decreases ops.len(),
{
    if k < ops.len() - 1 {
        assert(!in_rect(ops[ops.len() - 1].0, x, y));
        let d = ops.drop_last();
        assert forall|k2: int| k < k2 < d.len() implies !in_rect(#[trigger] d[k2].0, x, y) by {
            assert(d[k2] == ops[k2]);
        }
        lemma_painted_last(px, board, shape, d, x, y, k);
    }
}

proof fn lemma_painted_none(px: CellState, board: Seq<bool>, shape: (usize, usize), ops: Seq<BoxWrite>, x: int, y: int)
    requires
        forall|k: int| 0 <= k < ops.len() ==> !in_rect(#[trigger] ops[k].0, x, y),
    ensures
        painted(px, board, shape, ops, x, y) == px,
    decreases ops.len(),
{
    if ops.len() > 0 {
        let d = ops.drop_last();
        assert(!in_rect(ops[ops.len() - 1].0, x, y));
        assert forall|k: int| 0 <= k < d.len() implies !in_rect(#[trigger] d[k].0, x, y) by {
            assert(d[k] == ops[k]);
        }
        lemma_painted_none(px, board, shape, d, x, y);
    }
}

/// What a refresh leaves on the pixel `(x, y)` that held `px`, in terms of the boxes alone:
/// the current boxes win over the boxes held before. Where some current box covers the pixel,
/// the last one that does decides it: its entity occupies the pixel if it is active and the
/// pixel is passable, and the background shows otherwise. Where no current box covers it but a
/// box held before does, the background shows. Elsewhere the pixel keeps its state.
pub proof fn lemma_refresh_outcome(px: CellState, board: Seq<bool>, shape: (usize, usize), last_boxes: Seq<Rect>,
    boxes: Seq<(usize, bool, Rect)>, x: int, y: int)
    ensures
        forall|j: int| 0 <= j < boxes.len() && #[trigger] in_rect(boxes[j].2, x, y)
            && (forall|j2: int| j < j2 < boxes.len() ==> !in_rect(#[trigger] boxes[j2].2, x, y)) ==> {
            let st = painted(px, board, shape, refresh_writes(last_boxes, boxes), x, y);
            &&& boxes[j].1 && passable_at(board, shape, [x as i32, y as i32]) ==> st == CellState::Occupied(boxes[j].0)
            &&& !boxes[j].1 ==> st == background_state(board, shape, [x as i32, y as i32])
            &&& !passable_at(board, shape, [x as i32, y as i32]) ==> st == CellState::Obstacle
        },
        (forall|j: int| 0 <= j < boxes.len() ==> !#[trigger] in_rect(boxes[j].2, x, y))
            && (exists|i: int| 0 <= i < last_boxes.len() && #[trigger] in_rect(last_boxes[i], x, y)) ==>
            painted(px, board, shape, refresh_writes(last_boxes, boxes), x, y) == background_state(board, shape, [x as i32, y as i32]),
        (forall|j: int| 0 <= j < boxes.len() ==> !#[trigger] in_rect(boxes[j].2, x, y))
            && (forall|i: int| 0 <= i < last_boxes.len() ==> !#[trigger] in_rect(last_boxes[i], x, y)) ==>
            painted(px, board, shape, refresh_writes(last_boxes, boxes), x, y) == px,
{
    let ops = refresh_writes(last_boxes, boxes);
    let n = last_boxes.len() as int;
    assert forall|j: int| 0 <= j < boxes.len() && #[trigger] in_rect(boxes[j].2, x, y)
        && (forall|j2: int| j < j2 < boxes.len() ==> !in_rect(#[trigger] boxes[j2].2, x, y)) implies {
        let st = painted(px, board, shape, ops, x, y);
        &&& boxes[j].1 && passable_at(board, shape, [x as i32, y as i32]) ==> st == CellState::Occupied(boxes[j].0)
        &&& !boxes[j].1 ==> st == background_state(board, shape, [x as i32, y as i32])
        &&& !passable_at(board, shape, [x as i32, y as i32]) ==> st == CellState::Obstacle
    } by {
        assert(ops[n + j].0 == boxes[j].2);
        assert forall|k2: int| n + j < k2 < ops.len() implies !in_rect(#[trigger] ops[k2].0, x, y) by {
            assert(ops[k2].0 == boxes[k2 - n].2);
        }
        lemma_painted_last(px, board, shape, ops, x, y, n + j);
    }
    if forall|j: int| 0 <= j < boxes.len() ==> !#[trigger] in_rect(boxes[j].2, x, y) {
        if exists|i: int| 0 <= i < last_boxes.len() && #[trigger] in_rect(last_boxes[i], x, y) {
            let i0 = choose|i: int| 0 <= i < last_boxes.len() && #[trigger] in_rect(last_boxes[i], x, y);
            let l = choose|l: int| i0 <= l < n && in_rect(#[trigger] ops[l].0, x, y)
                && forall|k2: int| l < k2 < ops.len() ==> !in_rect(#[trigger] ops[k2].0, x, y);
            lemma_last_cover(ops, x, y, i0, n);
            lemma_painted_last(px, board, shape, ops, x, y, l);
        } else {
            assert forall|k: int| 0 <= k < ops.len() implies !in_rect(#[trigger] ops[k].0, x, y) by {
                if k < n {
                    assert(ops[k].0 == last_boxes[k]);
                } else {
                    assert(ops[k].0 == boxes[k - n].2);
                }
            }
            lemma_painted_none(px, board, shape, ops, x, y);
        }
    }
}

/// Among the writes `ops`, covering `(x, y)` at `i0 < n` and nowhere from `n` on, some write at or
/// after `i0` and before `n` is the last to cover it, and leaves the background.
proof fn lemma_last_cover(ops: Seq<BoxWrite>, x: int, y: int, i0: int, n: int)
    requires
        0 <= i0 < n <= ops.len(),
        in_rect(ops[i0].0, x, y),
        forall|k: int| n <= k < ops.len() ==> !in_rect(#[trigger] ops[k].0, x, y),
    ensures
        exists|l: int| i0 <= l < n && in_rect(#[trigger] ops[l].0, x, y)
            && forall|k2: int| l < k2 < ops.len() ==> !in_rect(#[trigger] ops[k2].0, x, y),
    decreases n - i0,
{
    if exists|l: int| i0 < l < n && in_rect(#[trigger] ops[l].0, x, y) {
        let l = choose|l: int| i0 < l < n && in_rect(#[trigger] ops[l].0, x, y);
        lemma_last_cover(ops, x, y, l, n);
    } else {
        assert(forall|k2: int| i0 < k2 < ops.len() ==> !in_rect(#[trigger] ops[k2].0, x, y));
    }
}

/// Brings the quad tree up to date with the entities after a tick: inside one update round,
/// clears the boxes that entities held before (`last_boxes`) and writes each entity's current
/// box (`boxes`: id, active, box). Every pixel ends as the last of these writes that covers it
/// leaves it; the tree stays consistent with its cache.
pub fn refresh_qtree(
    searcher: &mut QTreeSearcher,
    board: &[bool],
    shape: (usize, usize),
    last_boxes: &[Rect],
    boxes: &[(usize, bool, Rect)],
)
    requires
        old(searcher).consistent(),
        shape.0 <= isize::MAX,
        shape.1 <= isize::MAX,
        shape.0 * shape.1 <= board@.len(),
    ensures
        final(searcher).consistent(),
        final(searcher).tree().toplevel == old(searcher).tree().toplevel,
        final(searcher).cache().spec_size() == old(searcher).cache().spec_size(),
        forall|x: int, y: int| final(searcher).cache().in_bounds(x, y) ==> #[trigger] final(searcher).cache().pixel(x, y)
            == painted(old(searcher).cache().pixel(x, y), board@, shape, refresh_writes(last_boxes@, boxes@), x, y),
        forall|x: int, y: int, j: int| final(searcher).cache().in_bounds(x, y) && 0 <= j < boxes@.len()
            && #[trigger] in_rect(boxes@[j].2, x, y) && boxes@[j].1 && passable_at(board@, shape, [x as i32, y as i32])
            && (forall|j2: int| j < j2 < boxes@.len() ==> !in_rect(#[trigger] boxes@[j2].2, x, y)) ==>
            #[trigger] final(searcher).cache().pixel(x, y) == CellState::Occupied(boxes@[j].0),
        forall|x: int, y: int, i: int| final(searcher).cache().in_bounds(x, y) && 0 <= i < last_boxes@.len()
            && #[trigger] in_rect(last_boxes@[i], x, y)
            && (forall|j: int| 0 <= j < boxes@.len() ==> !in_rect(#[trigger] boxes@[j].2, x, y)) ==>
            #[trigger] final(searcher).cache().pixel(x, y) == background_state(board@, shape, [x as i32, y as i32]),
{
    let ghost c0 = searcher.cache();
    let ghost ops = refresh_writes(last_boxes@, boxes@);
    searcher.start_update();
    let mut i: usize = 0;
    while i < last_boxes.len()
        invariant
            i <= last_boxes.len(),
            searcher.consistent(),
            shape.0 <= isize::MAX,
            shape.1 <= isize::MAX,
            shape.0 * shape.1 <= board@.len(),
            searcher.tree().toplevel == old(searcher).tree().toplevel,
            searcher.cache().spec_size() == c0.spec_size(),
            ops == refresh_writes(last_boxes@, boxes@),
            forall|x: int, y: int| searcher.cache().in_bounds(x, y) ==> #[trigger] searcher.cache().pixel(x, y)
                == painted(c0.pixel(x, y), board@, shape, ops.subrange(0, i as int), x, y),
        decreases last_boxes.len() - i,
    {
        let ghost before = searcher.cache();
        update_rect(searcher, board, shape, last_boxes[i], None);
        proof {
            assert forall|x: int, y: int| searcher.cache().in_bounds(x, y) implies #[trigger] searcher.cache().pixel(x, y)
                == painted(c0.pixel(x, y), board@, shape, ops.subrange(0, i + 1), x, y) by {
                assert(ops.subrange(0, i + 1).drop_last() =~= ops.subrange(0, i as int));
                assert(ops.subrange(0, i + 1).last() == ops[i as int]);
                assert(before.in_bounds(x, y));
            }
        }
        i += 1;
    }
    let n = last_boxes.len();
    let mut j: usize = 0;
    while j < boxes.len()
        invariant
            j <= boxes.len(),
            n == last_boxes.len(),
            searcher.consistent(),
            shape.0 <= isize::MAX,
            shape.1 <= isize::MAX,
            shape.0 * shape.1 <= board@.len(),
            searcher.tree().toplevel == old(searcher).tree().toplevel,
            searcher.cache().spec_size() == c0.spec_size(),
            ops == refresh_writes(last_boxes@, boxes@),
            forall|x: int, y: int| searcher.cache().in_bounds(x, y) ==> #[trigger] searcher.cache().pixel(x, y)
                == painted(c0.pixel(x, y), board@, shape, ops.subrange(0, n + j), x, y),
        decreases boxes.len() - j,
    {
        let ghost before = searcher.cache();
        let b = boxes[j];
        let occupant = if b.1 { Some(b.0) } else { None };
        update_rect(searcher, board, shape, b.2, occupant);
        proof {
            assert forall|x: int, y: int| searcher.cache().in_bounds(x, y) implies #[trigger] searcher.cache().pixel(x, y)
                == painted(c0.pixel(x, y), board@, shape, ops.subrange(0, n + j + 1), x, y) by {
                assert(ops.subrange(0, n + j + 1).drop_last() =~= ops.subrange(0, n + j));
                assert(ops.subrange(0, n + j + 1).last() == ops[n + j]);
                assert(before.in_bounds(x, y));
            }
        }
        j += 1;
    }
    proof {
        assert(ops.subrange(0, n + boxes.len()) =~= ops);
    }
    searcher.finish_update();
    proof {
        assert forall|x: int, y: int| #[trigger] searcher.cache().in_bounds(x, y) implies {
            &&& forall|j: int| 0 <= j < boxes@.len()
                && #[trigger] in_rect(boxes@[j].2, x, y) && boxes@[j].1 && passable_at(board@, shape, [x as i32, y as i32])
                && (forall|j2: int| j < j2 < boxes@.len() ==> !in_rect(#[trigger] boxes@[j2].2, x, y)) ==>
                searcher.cache().pixel(x, y) == CellState::Occupied(boxes@[j].0)
            &&& forall|i: int| 0 <= i < last_boxes@.len()
                && #[trigger] in_rect(last_boxes@[i], x, y)
                && (forall|j: int| 0 <= j < boxes@.len() ==> !in_rect(#[trigger] boxes@[j].2, x, y)) ==>
                searcher.cache().pixel(x, y) == background_state(board@, shape, [x as i32, y as i32])
        } by {
            lemma_refresh_outcome(c0.pixel(x, y), board@, shape, last_boxes@, boxes@, x, y);
        }
    }
}

} // verus!
