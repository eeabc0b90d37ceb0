//! Flood fills over a board of passable pixels.

use vstd::prelude::*;
use vstd::set_lib::{set_int_range, lemma_int_range, lemma_len_subset};

verus! {

/// A field of cells that a flood fill marks one by one.
pub trait DijkstraField {
    /// The field can mark cells.
    spec fn ready(&self) -> bool;

    /// Cell `idx` has been reached.
    spec fn is_filled_spec(&self, idx: int) -> bool;

    /// The number of cells.
    spec fn field_len(&self) -> nat;

    /// The value that cell `idx` holds.
    spec fn value(&self, idx: int) -> i32;

    /// The value that marking a cell at `cost` stores.
    spec fn fill_value(&self, cost: i32) -> i32;

    fn is_filled(&self, idx: usize) -> (res: bool)
        requires
            idx < self.field_len(),
        ensures
            res == self.is_filled_spec(idx as int);

    /// Marks cell `idx` as reached at the given cost.
    fn fill(&mut self, idx: usize, cost: i32)
        requires
            old(self).ready(),
            idx < old(self).field_len(),
            0 <= cost < i32::MAX,
        ensures
            final(self).ready(),
            final(self).field_len() == old(self).field_len(),
            final(self).is_filled_spec(idx as int),
            final(self).value(idx as int) == old(self).fill_value(cost),
            forall|c: i32| #[trigger] final(self).fill_value(c) == old(self).fill_value(c),
            forall|j: int| 0 <= j < old(self).field_len() && j != idx ==> #[trigger] final(self).value(j) == old(self).value(j),
            forall|j: int| 0 <= j < old(self).field_len() && j != idx ==> #[trigger] final(self).is_filled_spec(j) == old(self).is_filled_spec(j);
}

/// A cost map: a cell is reached once it holds a cost below `i32::MAX`.
impl DijkstraField for Vec<i32> {
    open spec fn ready(&self) -> bool {
        true
    }

    open spec fn is_filled_spec(&self, idx: int) -> bool {
        self@[idx] != i32::MAX
    }

    open spec fn field_len(&self) -> nat {
        self@.len()
    }

    open spec fn value(&self, idx: int) -> i32 {
        self@[idx]
    }

    open spec fn fill_value(&self, cost: i32) -> i32 {
        cost
    }

    fn is_filled(&self, idx: usize) -> (res: bool) {
        self[idx] != i32::MAX
    }

    fn fill(&mut self, idx: usize, cost: i32)
        ensures
            final(self)@ == old(self)@.update(idx as int, cost),
    {
        self.set(idx, cost);
    }
}

/// A label map being filled with one label: a cell is reached once it holds a label other than 0.
pub struct Label {
    pub labels: Vec<i32>,
    pub label: i32,
}

impl DijkstraField for Label {
    open spec fn ready(&self) -> bool {
        self.label != 0
    }

    open spec fn is_filled_spec(&self, idx: int) -> bool {
        self.labels@[idx] != 0
    }

    open spec fn field_len(&self) -> nat {
        self.labels@.len()
    }

    open spec fn value(&self, idx: int) -> i32 {
        self.labels@[idx]
    }

    open spec fn fill_value(&self, cost: i32) -> i32 {
        self.label
    }

    fn is_filled(&self, idx: usize) -> (res: bool) {
        self.labels[idx] != 0
    }

    fn fill(&mut self, idx: usize, cost: i32)
        ensures
            final(self).labels@ == old(self).labels@.update(idx as int, old(self).label),
            final(self).label == old(self).label,
    {
        let l = self.label;
        self.labels.set(idx, l);
    }
}

/// `x + y * w` is the index of cell `(x, y)` of a `w` by `h` board.
pub proof fn lemma_rect_index(x: int, y: int, w: int, h: int)
    requires
        0 <= x < w,
        0 <= y < h,
    ensures
        0 <= x + y * w < w * h,
{
    assert(0 <= y * w) by (nonlinear_arith) requires 0 <= y, 0 <= w;
    assert(y * w + w <= h * w) by (nonlinear_arith) requires y + 1 <= h, 0 <= w;
    assert(h * w == w * h) by (nonlinear_arith);
}

/// The cells not reached yet.
pub open spec fn unfilled<F: DijkstraField>(f: &F) -> Set<int> {
    Set::new(|i: int| 0 <= i < f.field_len() && !f.is_filled_spec(i))
}

proof fn lemma_unfilled_finite<F: DijkstraField>(f: &F)
    ensures
        unfilled(f).finite(),
        unfilled(f).len() <= f.field_len(),
{
    lemma_int_range(0, f.field_len() as int);
    assert(unfilled(f).subset_of(set_int_range(0, f.field_len() as int)));
    lemma_len_subset(unfilled(f), set_int_range(0, f.field_len() as int));
}

/// The four directions in which a cell has neighbors.
pub open spec fn direction(d: int) -> [i32; 2] {
    if d == 0 { [-1i32, 0i32] } else if d == 1 { [0i32, -1i32] } else if d == 2 { [1i32, 0i32] } else { [0i32, 1i32] }
}

/// `(x, y)` is a cell of a board of the given shape.
pub open spec fn on_board(shape: (usize, usize), x: int, y: int) -> bool {
    0 <= x < shape.0 && 0 <= y < shape.1
}

/// The index of cell `(x, y)`.
pub open spec fn cell_index(shape: (usize, usize), x: int, y: int) -> int {
    x + y * shape.0
}

/// Every passable neighbor of cell `(x, y)` is reached.
pub open spec fn neighbors_filled<F: DijkstraField>(f: &F, board: Seq<bool>, shape: (usize, usize), x: int, y: int) -> bool {
    forall|d: int| 0 <= d < 4 && on_board(shape, x + direction(d)[0], y + direction(d)[1])
        && board[cell_index(shape, x + direction(d)[0], y + direction(d)[1])] ==>
        #[trigger] f.is_filled_spec(cell_index(shape, x + direction(d)[0], y + direction(d)[1]))
}

/// The cell `(x, y)` can be entered by a fill over `board` that starts from the marks of `f0`:
/// it is on the board, passable, and was not marked before.
pub open spec fn enterable<F: DijkstraField>(f0: &F, board: Seq<bool>, shape: (usize, usize), x: int, y: int) -> bool {
    on_board(shape, x, y) && board[cell_index(shape, x, y)] && !f0.is_filled_spec(cell_index(shape, x, y))
}

/// The cell `(x, y)` lies at most `k` steps from `start`, each step into an enterable neighbor.
pub open spec fn within<F: DijkstraField>(f0: &F, board: Seq<bool>, shape: (usize, usize), start: [i32; 2], k: nat, x: int, y: int) -> bool
    decreases k,
{
    if k == 0 {
        x == start[0] && y == start[1]
    } else {
        ||| within(f0, board, shape, start, (k - 1) as nat, x, y)
        ||| enterable(f0, board, shape, x, y) && (
            within(f0, board, shape, start, (k - 1) as nat, x + 1, y)
            || within(f0, board, shape, start, (k - 1) as nat, x, y + 1)
            || within(f0, board, shape, start, (k - 1) as nat, x - 1, y)
            || within(f0, board, shape, start, (k - 1) as nat, x, y - 1))
    }
}

/// The cell `(x, y)` lies exactly `k` steps from `start`: within `k` steps and not fewer.
pub open spec fn at_distance<F: DijkstraField>(f0: &F, board: Seq<bool>, shape: (usize, usize), start: [i32; 2], k: nat, x: int, y: int) -> bool {
    within(f0, board, shape, start, k, x, y) && (k > 0 ==> !within(f0, board, shape, start, (k - 1) as nat, x, y))
}

/// Being within `k1` steps means being within any larger number of steps.
pub proof fn lemma_within_mono<F: DijkstraField>(f0: &F, board: Seq<bool>, shape: (usize, usize), start: [i32; 2], k1: nat, k2: nat, x: int, y: int)
    requires
        k1 <= k2,
        within(f0, board, shape, start, k1, x, y),
    ensures
        within(f0, board, shape, start, k2, x, y),
    decreases k2,
{
    if k1 < k2 {
        lemma_within_mono(f0, board, shape, start, k1, (k2 - 1) as nat, x, y);
    }
}

/// A cell within reach is the start or an enterable cell.
pub proof fn lemma_within_source<F: DijkstraField>(f0: &F, board: Seq<bool>, shape: (usize, usize), start: [i32; 2], k: nat, x: int, y: int)
    requires
        within(f0, board, shape, start, k, x, y),
    ensures
        (x == start[0] && y == start[1]) || enterable(f0, board, shape, x, y),
    decreases k,
{
    if k > 0 && within(f0, board, shape, start, (k - 1) as nat, x, y) {
        lemma_within_source(f0, board, shape, start, (k - 1) as nat, x, y);
    }
}

/// One step from a cell within `c` steps into an enterable neighbor stays within `c + 1`.
proof fn lemma_within_step<F: DijkstraField>(f0: &F, board: Seq<bool>, shape: (usize, usize), start: [i32; 2], c: nat, x: int, y: int, d: int)
    requires
        0 <= d < 4,
        within(f0, board, shape, start, c, x, y),
        enterable(f0, board, shape, x + direction(d)[0], y + direction(d)[1]),
    ensures
        within(f0, board, shape, start, c + 1, x + direction(d)[0], y + direction(d)[1]),
{
    let nx = x + direction(d)[0];
    let ny = y + direction(d)[1];
    if d == 0 {
        assert(nx + 1 == x && ny == y);
    } else if d == 1 {
        assert(nx == x && ny + 1 == y);
    } else if d == 2 {
        assert(nx - 1 == x && ny == y);
    } else {
        assert(nx == x && ny - 1 == y);
    }
}

/// The cells of a fill that are closed under steps to passable neighbors hold every cell
/// within reach of the start.
proof fn lemma_within_filled<F: DijkstraField>(f0: &F, f1: &F, board: Seq<bool>, shape: (usize, usize), start: [i32; 2], k: nat, x: int, y: int)
    requires
        board.len() == shape.0 * shape.1,
        on_board(shape, start[0] as int, start[1] as int),
        f1.is_filled_spec(cell_index(shape, start[0] as int, start[1] as int)),
        neighbors_filled(f1, board, shape, start[0] as int, start[1] as int),
        forall|xx: int, yy: int| on_board(shape, xx, yy) && #[trigger] f1.is_filled_spec(cell_index(shape, xx, yy))
            && !f0.is_filled_spec(cell_index(shape, xx, yy)) ==> neighbors_filled(f1, board, shape, xx, yy),
        within(f0, board, shape, start, k, x, y),
    ensures
        f1.is_filled_spec(cell_index(shape, x, y)),
    decreases k,
{
    if k > 0 && !within(f0, board, shape, start, (k - 1) as nat, x, y) {
        let (px, py, d) = if within(f0, board, shape, start, (k - 1) as nat, x + 1, y) {
            (x + 1, y, 0int)
        } else if within(f0, board, shape, start, (k - 1) as nat, x, y + 1) {
            (x, y + 1, 1int)
        } else if within(f0, board, shape, start, (k - 1) as nat, x - 1, y) {
            (x - 1, y, 2int)
        } else {
            (x, y - 1, 3int)
        };
        assert(px + direction(d)[0] == x && py + direction(d)[1] == y);
        lemma_within_filled(f0, f1, board, shape, start, (k - 1) as nat, px, py);
        lemma_within_source(f0, board, shape, start, (k - 1) as nat, px, py);
        assert(neighbors_filled(f1, board, shape, px, py));
    } else if k > 0 {
        lemma_within_filled(f0, f1, board, shape, start, (k - 1) as nat, x, y);
    }
}

/// The costs of the queue never decrease, each entry is at its distance from the start, and
/// its cell is marked with its cost.
pub open spec fn queue_layered<F: DijkstraField>(f0: &F, f: &F, board: Seq<bool>, shape: (usize, usize), start: [i32; 2],
    queue: Seq<([i32; 2], i32)>) -> bool {
    &&& forall|i: int, j: int| 0 <= i <= j < queue.len() ==> (#[trigger] queue[i]).1 <= (#[trigger] queue[j]).1
    &&& forall|j: int| 0 <= j < queue.len() ==> {
        let q = #[trigger] queue[j];
        &&& 0 <= q.1
        &&& f.is_filled_spec(cell_index(shape, q.0[0] as int, q.0[1] as int))
        &&& f.value(cell_index(shape, q.0[0] as int, q.0[1] as int)) == f0.fill_value(q.1)
        &&& at_distance(f0, board, shape, start, q.1 as nat, q.0[0] as int, q.0[1] as int)
    }
}

/// Every cell within `c` steps of the start is marked.
pub open spec fn layer_filled<F: DijkstraField>(f0: &F, f: &F, board: Seq<bool>, shape: (usize, usize), start: [i32; 2], c: nat) -> bool {
    forall|x: int, y: int| on_board(shape, x, y) && #[trigger] within(f0, board, shape, start, c, x, y)
        ==> f.is_filled_spec(cell_index(shape, x, y))
}

/// Once the entries before `h` are expanded, every cell within the cost of entry `h` is marked:
/// the cells one step beyond the previous layer are neighbors of expanded entries.
proof fn lemma_layer_filled<F: DijkstraField>(f0: &F, f: &F, board: Seq<bool>, shape: (usize, usize), start: [i32; 2],
    queue: Seq<([i32; 2], i32)>, h: int)
    requires
        board.len() == shape.0 * shape.1,
        1 <= h < queue.len(),
        queue[0] == (start, 0i32),
        on_board(shape, start[0] as int, start[1] as int),
        queue_layered(f0, f, board, shape, start, queue),
        queue[h].1 <= queue[h - 1].1 + 1,
        layer_filled(f0, f, board, shape, start, queue[h - 1].1 as nat),
        forall|j: int| 0 <= j < queue.len() ==> on_board(shape, (#[trigger] queue[j]).0[0] as int, queue[j].0[1] as int),
        forall|j: int| 0 <= j < h ==> neighbors_filled(f, board, shape, (#[trigger] queue[j]).0[0] as int, queue[j].0[1] as int),
        forall|i: int| 0 <= i < board.len() && #[trigger] f.is_filled_spec(i) && !f0.is_filled_spec(i) ==>
            exists|j: int| 0 <= j < queue.len() && cell_index(shape, (#[trigger] queue[j]).0[0] as int, queue[j].0[1] as int) == i,
    ensures
        layer_filled(f0, f, board, shape, start, queue[h].1 as nat),
{
    let dd = queue[h - 1].1;
    let dn = queue[h].1;
    assert(queue[h - 1].1 <= queue[h].1);
    assert forall|x: int, y: int| on_board(shape, x, y) && #[trigger] within(f0, board, shape, start, dn as nat, x, y)
        implies f.is_filled_spec(cell_index(shape, x, y)) by {
        if dn == dd || within(f0, board, shape, start, dd as nat, x, y) {
            assert(within(f0, board, shape, start, dd as nat, x, y));
        } else {
            assert(dn == dd + 1);
            assert((dn as nat - 1) as nat == dd as nat);
            assert(enterable(f0, board, shape, x, y) && (
                within(f0, board, shape, start, dd as nat, x + 1, y)
                || within(f0, board, shape, start, dd as nat, x, y + 1)
                || within(f0, board, shape, start, dd as nat, x - 1, y)
                || within(f0, board, shape, start, dd as nat, x, y - 1)));
            let (px, py, d) = if within(f0, board, shape, start, dd as nat, x + 1, y) {
                (x + 1, y, 0int)
            } else if within(f0, board, shape, start, dd as nat, x, y + 1) {
                (x, y + 1, 1int)
            } else if within(f0, board, shape, start, dd as nat, x - 1, y) {
                (x - 1, y, 2int)
            } else {
                (x, y - 1, 3int)
            };
            assert(within(f0, board, shape, start, dd as nat, px, py));
            assert(px + direction(d)[0] == x && py + direction(d)[1] == y);
            lemma_within_source(f0, board, shape, start, dd as nat, px, py);
            assert(on_board(shape, px, py));
            lemma_rect_index(px, py, shape.0 as int, shape.1 as int);
            assert(f.is_filled_spec(cell_index(shape, px, py)));
            // the entry of the predecessor
            let j = if px == start[0] && py == start[1] {
                0int
            } else {
                assert(!f0.is_filled_spec(cell_index(shape, px, py)));
                choose|j: int| 0 <= j < queue.len() && cell_index(shape, (#[trigger] queue[j]).0[0] as int, queue[j].0[1] as int)
                    == cell_index(shape, px, py)
            };
            assert(0 <= j < queue.len());
            assert(on_board(shape, queue[j].0[0] as int, queue[j].0[1] as int));
            if !(px == start[0] && py == start[1]) {
                lemma_rect_index_injective(queue[j].0[0] as int, queue[j].0[1] as int, px, py, shape.0 as int);
            }
            assert(queue[j].0[0] == px && queue[j].0[1] == py);
            let cj = queue[j].1;
            assert(at_distance(f0, board, shape, start, cj as nat, px, py));
            if cj > dd {
                lemma_within_mono(f0, board, shape, start, dd as nat, (cj - 1) as nat, px, py);
            }
            assert(cj < dn);
            if j >= h {
                assert(queue[h].1 <= queue[j].1);
            }
            assert(neighbors_filled(f, board, shape, queue[j].0[0] as int, queue[j].0[1] as int));
        }
    }
}

/// Appending a newly marked cell at its distance keeps the queue layered.
proof fn lemma_layered_push<F: DijkstraField>(f0: &F, pre: &F, post: &F, board: Seq<bool>, shape: (usize, usize), start: [i32; 2],
    q_pre: Seq<([i32; 2], i32)>, q_post: Seq<([i32; 2], i32)>, next: [i32; 2], cost: i32)
    requires
        queue_layered(f0, pre, board, shape, start, q_pre),
        q_pre.len() >= 1,
        q_pre[q_pre.len() - 1].1 <= cost,
        0 <= cost,
        q_post == q_pre.push((next, cost)),
        at_distance(f0, board, shape, start, cost as nat, next[0] as int, next[1] as int),
        !pre.is_filled_spec(cell_index(shape, next[0] as int, next[1] as int)),
        post.is_filled_spec(cell_index(shape, next[0] as int, next[1] as int)),
        post.value(cell_index(shape, next[0] as int, next[1] as int)) == f0.fill_value(cost),
        board.len() == shape.0 * shape.1,
        forall|j: int| 0 <= j < q_pre.len() ==> on_board(shape, (#[trigger] q_pre[j]).0[0] as int, q_pre[j].0[1] as int),
        forall|j: int| 0 <= j < board.len() && j != cell_index(shape, next[0] as int, next[1] as int) ==>
            #[trigger] post.value(j) == pre.value(j) && post.is_filled_spec(j) == pre.is_filled_spec(j),
    ensures
        queue_layered(f0, post, board, shape, start, q_post),
{
    let n = q_pre.len() as int;
    assert forall|i: int, j: int| 0 <= i <= j < q_post.len() implies (#[trigger] q_post[i]).1 <= (#[trigger] q_post[j]).1 by {
        if j < n {
            assert(q_post[i] == q_pre[i] && q_post[j] == q_pre[j]);
        } else if i < n {
            assert(q_post[i] == q_pre[i]);
            assert(q_pre[i].1 <= q_pre[n - 1].1);
        }
    }
    assert forall|j: int| 0 <= j < q_post.len() implies {
        let q = #[trigger] q_post[j];
        &&& 0 <= q.1
        &&& post.is_filled_spec(cell_index(shape, q.0[0] as int, q.0[1] as int))
        &&& post.value(cell_index(shape, q.0[0] as int, q.0[1] as int)) == f0.fill_value(q.1)
        &&& at_distance(f0, board, shape, start, q.1 as nat, q.0[0] as int, q.0[1] as int)
    } by {
        if j < n {
            let q = q_pre[j];
            assert(q_post[j] == q);
            lemma_rect_index(q.0[0] as int, q.0[1] as int, shape.0 as int, shape.1 as int);
            assert(pre.is_filled_spec(cell_index(shape, q.0[0] as int, q.0[1] as int)));
            assert(post.value(cell_index(shape, q.0[0] as int, q.0[1] as int)) == pre.value(cell_index(shape, q.0[0] as int, q.0[1] as int)));
        }
    }
}

/// Spreads from `start` over the passable cells of `board` (in breadth-first order, each cell
/// at one more than the cost of the cell it was reached from), marking every cell that it
/// reaches and that was not marked yet. The start cell is marked at cost 0 whatever the board
/// holds there. Each cell is marked with its distance from the start: the fewest steps between
/// neighbors, through passable cells that were not marked before, that lead to it.
pub fn dijkstra_fill<F: DijkstraField>(board: &[bool], shape: (usize, usize), start: [i32; 2], costmap: &mut F)
    requires
        board@.len() == shape.0 * shape.1,
        board@.len() < i32::MAX,
        old(costmap).ready(),
        old(costmap).field_len() == board@.len(),
        on_board(shape, start[0] as int, start[1] as int),
    ensures
        final(costmap).ready(),
        final(costmap).field_len() == old(costmap).field_len(),
        final(costmap).is_filled_spec(cell_index(shape, start[0] as int, start[1] as int)),
        forall|i: int| 0 <= i < board@.len() && #[trigger] old(costmap).is_filled_spec(i) ==> final(costmap).is_filled_spec(i),
        forall|i: int| 0 <= i < board@.len() && #[trigger] final(costmap).is_filled_spec(i) && !old(costmap).is_filled_spec(i)
            && i != cell_index(shape, start[0] as int, start[1] as int) ==> board@[i],
        neighbors_filled(&*final(costmap), board@, shape, start[0] as int, start[1] as int),
        forall|x: int, y: int| on_board(shape, x, y) && #[trigger] final(costmap).is_filled_spec(cell_index(shape, x, y))
            && !old(costmap).is_filled_spec(cell_index(shape, x, y)) ==> neighbors_filled(&*final(costmap), board@, shape, x, y),
        forall|c: i32| #[trigger] final(costmap).fill_value(c) == old(costmap).fill_value(c),
        final(costmap).value(cell_index(shape, start[0] as int, start[1] as int)) == old(costmap).fill_value(0),
        forall|i: int| 0 <= i < board@.len() && old(costmap).is_filled_spec(i) && i != cell_index(shape, start[0] as int, start[1] as int)
            ==> #[trigger] final(costmap).value(i) == old(costmap).value(i),
        forall|i: int| 0 <= i < board@.len() && !old(costmap).is_filled_spec(i) ==>
            (exists|c: i32| 0 <= c <= board@.len() && #[trigger] final(costmap).value(i) == old(costmap).fill_value(c)) || !final(costmap).is_filled_spec(i),
        forall|x: int, y: int| on_board(shape, x, y) && #[trigger] final(costmap).is_filled_spec(cell_index(shape, x, y))
            && (!old(costmap).is_filled_spec(cell_index(shape, x, y)) || (x == start[0] && y == start[1])) ==>
            exists|c: i32| 0 <= c <= board@.len() && final(costmap).value(cell_index(shape, x, y)) == old(costmap).fill_value(c)
                && #[trigger] at_distance(&*old(costmap), board@, shape, start, c as nat, x, y),
        forall|k: nat, x: int, y: int| #[trigger] within(&*old(costmap), board@, shape, start, k, x, y) ==>
            on_board(shape, x, y) && final(costmap).is_filled_spec(cell_index(shape, x, y)),
{
    let ghost start_i = cell_index(shape, start[0] as int, start[1] as int);
    proof {
        lemma_rect_index(start[0] as int, start[1] as int, shape.0 as int, shape.1 as int);
        assert(shape.0 <= shape.0 * shape.1) by (nonlinear_arith) requires shape.1 >= 1;
        assert(shape.1 <= shape.0 * shape.1) by (nonlinear_arith) requires shape.0 >= 1;
    }
    let mut queue: Vec<([i32; 2], i32)> = Vec::new();
    queue.push((start, 0));
    let ghost f0 = *old(costmap);
    costmap.fill(start[0] as usize + start[1] as usize * shape.0, 0);
    let mut head: usize = 0;
    let ghost mut unf = unfilled(&*costmap);
    proof {
        lemma_unfilled_finite(&*costmap);
        assert forall|i: int| 0 <= i < board@.len() && !f0.is_filled_spec(i) implies
            (exists|c: i32| 0 <= c <= board@.len() && #[trigger] costmap.value(i) == f0.fill_value(c)) || !costmap.is_filled_spec(i) by {
            if i == start_i {
                assert(costmap.value(i) == f0.fill_value(0));
            }
        }
        assert(cell_index(shape, queue@[0].0[0] as int, queue@[0].0[1] as int) == start_i);
        assert(at_distance(&f0, board@, shape, start, 0, start[0] as int, start[1] as int));
        assert(queue_layered(&f0, &*costmap, board@, shape, start, queue@));
        assert forall|x: int, y: int| on_board(shape, x, y) && #[trigger] within(&f0, board@, shape, start, 0, x, y)
            implies costmap.is_filled_spec(cell_index(shape, x, y)) by {}
        assert(layer_filled(&f0, &*costmap, board@, shape, start, queue@[0].1 as nat));
        assert forall|i: int| 0 <= i < board@.len() && #[trigger] costmap.is_filled_spec(i) && !f0.is_filled_spec(i) implies
            (i == start_i || board@[i]) && exists|j: int| 0 <= j < queue.len()
                && cell_index(shape, (#[trigger] queue@[j]).0[0] as int, queue@[j].0[1] as int) == i by {
            assert(i == start_i);
            assert(cell_index(shape, queue@[0].0[0] as int, queue@[0].0[1] as int) == i);
        }
    }
    while head < queue.len()
        invariant
            board@.len() == shape.0 * shape.1,
            board@.len() < i32::MAX,
            shape.0 <= board@.len(),
            shape.1 <= board@.len(),
            costmap.ready(),
            costmap.field_len() == board@.len(),
            0 <= start_i < board@.len(),
            start_i == cell_index(shape, start[0] as int, start[1] as int),
            on_board(shape, start[0] as int, start[1] as int),
            costmap.is_filled_spec(start_i),
            head <= queue.len(),
            queue.len() >= 1,
            queue@[0] == (start, 0i32),
            unf == unfilled(&*costmap),
            unf.finite(),
            queue.len() + unf.len() <= board@.len() + 1,
            forall|c: i32| #[trigger] costmap.fill_value(c) == f0.fill_value(c),
            costmap.value(start_i) == f0.fill_value(0),
            forall|i: int| 0 <= i < board@.len() && f0.is_filled_spec(i) && i != start_i ==> #[trigger] costmap.value(i) == f0.value(i),
            forall|i: int| 0 <= i < board@.len() && !f0.is_filled_spec(i) ==>
                (exists|c: i32| 0 <= c <= board@.len() && #[trigger] costmap.value(i) == f0.fill_value(c)) || !costmap.is_filled_spec(i),
            forall|i: int| 0 <= i < board@.len() && #[trigger] f0.is_filled_spec(i) ==> costmap.is_filled_spec(i),
            forall|j: int| 0 <= j < queue.len() ==> on_board(shape, (#[trigger] queue@[j]).0[0] as int, queue@[j].0[1] as int)
                && 0 <= queue@[j].1 <= j,
            forall|j: int| 0 <= j < head ==> neighbors_filled(&*costmap, board@, shape, (#[trigger] queue@[j]).0[0] as int, queue@[j].0[1] as int),
            forall|i: int| 0 <= i < board@.len() && #[trigger] costmap.is_filled_spec(i) && !f0.is_filled_spec(i) ==>
                (i == start_i || board@[i]) && exists|j: int| 0 <= j < queue.len()
                    && cell_index(shape, (#[trigger] queue@[j]).0[0] as int, queue@[j].0[1] as int) == i,
            queue_layered(&f0, &*costmap, board@, shape, start, queue@),
            head < queue.len() ==> queue@[queue.len() - 1].1 <= queue@[head as int].1 + 1,
            head < queue.len() ==> layer_filled(&f0, &*costmap, board@, shape, start, queue@[head as int].1 as nat),
        decreases unf.len(), queue.len() - head,
    {
        let popped = queue[head];
        let ghost unf_before = unf;
        let ghost qlen_before = queue.len();
        let mut d: usize = 0;
        while d < 4
            invariant
                board@.len() == shape.0 * shape.1,
                board@.len() < i32::MAX,
                shape.0 <= board@.len(),
                shape.1 <= board@.len(),
                costmap.ready(),
                costmap.field_len() == board@.len(),
                0 <= start_i < board@.len(),
                start_i == cell_index(shape, start[0] as int, start[1] as int),
                costmap.is_filled_spec(start_i),
                head < queue.len(),
                qlen_before <= queue.len(),
                queue.len() >= 1,
                queue@[0] == (start, 0i32),
                popped == queue@[head as int],
                d <= 4,
                unf == unfilled(&*costmap),
                unf.finite(),
                queue.len() + unf.len() <= board@.len() + 1,
                unf.len() <= unf_before.len(),
                unf.len() == unf_before.len() ==> queue.len() == qlen_before,
                forall|c: i32| #[trigger] costmap.fill_value(c) == f0.fill_value(c),
                costmap.value(start_i) == f0.fill_value(0),
                forall|i: int| 0 <= i < board@.len() && f0.is_filled_spec(i) && i != start_i ==> #[trigger] costmap.value(i) == f0.value(i),
                forall|i: int| 0 <= i < board@.len() && !f0.is_filled_spec(i) ==>
                    (exists|c: i32| 0 <= c <= board@.len() && #[trigger] costmap.value(i) == f0.fill_value(c)) || !costmap.is_filled_spec(i),

                forall|i: int| 0 <= i < board@.len() && #[trigger] f0.is_filled_spec(i) ==> costmap.is_filled_spec(i),
                forall|j: int| 0 <= j < queue.len() ==> on_board(shape, (#[trigger] queue@[j]).0[0] as int, queue@[j].0[1] as int)
                    && 0 <= queue@[j].1 <= j,
                forall|j: int| 0 <= j < head ==> neighbors_filled(&*costmap, board@, shape, (#[trigger] queue@[j]).0[0] as int, queue@[j].0[1] as int),
                forall|dd: int| 0 <= dd < d && on_board(shape, popped.0[0] + direction(dd)[0], popped.0[1] + direction(dd)[1])
                    && board@[cell_index(shape, popped.0[0] + direction(dd)[0], popped.0[1] + direction(dd)[1])] ==>
                    #[trigger] costmap.is_filled_spec(cell_index(shape, popped.0[0] + direction(dd)[0], popped.0[1] + direction(dd)[1])),
                forall|i: int| 0 <= i < board@.len() && #[trigger] costmap.is_filled_spec(i) && !f0.is_filled_spec(i) ==>
                    (i == start_i || board@[i]) && exists|j: int| 0 <= j < queue.len()
                        && cell_index(shape, (#[trigger] queue@[j]).0[0] as int, queue@[j].0[1] as int) == i,
                queue_layered(&f0, &*costmap, board@, shape, start, queue@),
                queue@[queue.len() - 1].1 <= popped.1 + 1,
                layer_filled(&f0, &*costmap, board@, shape, start, popped.1 as nat),
            decreases 4 - d,
        {
            let ghost pre_iter = *costmap;
            let dir: [i32; 2] = if d == 0 { [-1, 0] } else if d == 1 { [0, -1] } else if d == 2 { [1, 0] } else { [0, 1] };
            assert(dir == direction(d as int));
            let next_idx = [popped.0[0] + dir[0], popped.0[1] + dir[1]];
            let next_cost = popped.1 + 1;
            if !(next_idx[0] < 0 || shape.0 as i32 <= next_idx[0] || next_idx[1] < 0 || shape.1 as i32 <= next_idx[1]) {
                proof { lemma_rect_index(next_idx[0] as int, next_idx[1] as int, shape.0 as int, shape.1 as int); }
                let idx = next_idx[0] as usize + next_idx[1] as usize * shape.0;
                assert(idx == cell_index(shape, next_idx[0] as int, next_idx[1] as int));
                if !costmap.is_filled(idx) {
                    if board[idx] {
                        let ghost pre = *costmap;
                        let ghost q_pre = queue@;
                        proof {
                            assert(unf.contains(idx as int));
                            vstd::set_lib::lemma_set_empty_equivalency_len(unf);
                        }
                        proof {
                            assert(queue_layered(&f0, &pre, board@, shape, start, q_pre));
                            assert(at_distance(&f0, board@, shape, start, popped.1 as nat, popped.0[0] as int, popped.0[1] as int));
                            assert(enterable(&f0, board@, shape, next_idx[0] as int, next_idx[1] as int));
                            lemma_within_step(&f0, board@, shape, start, popped.1 as nat, popped.0[0] as int, popped.0[1] as int, d as int);
                            assert(!within(&f0, board@, shape, start, popped.1 as nat, next_idx[0] as int, next_idx[1] as int));
                            assert(at_distance(&f0, board@, shape, start, next_cost as nat, next_idx[0] as int, next_idx[1] as int));
                        }
                        costmap.fill(idx, next_cost);
                        queue.push((next_idx, next_cost));
                        proof {
                            lemma_layered_push(&f0, &pre, &*costmap, board@, shape, start, q_pre, queue@, next_idx, next_cost);
                            assert forall|x: int, y: int| on_board(shape, x, y) && #[trigger] within(&f0, board@, shape, start, popped.1 as nat, x, y)
                                implies costmap.is_filled_spec(cell_index(shape, x, y)) by {
                                lemma_rect_index(x, y, shape.0 as int, shape.1 as int);
                                assert(pre.is_filled_spec(cell_index(shape, x, y)));
                            }
                            assert(unfilled(&*costmap) =~= unf.remove(idx as int));
                            unf = unfilled(&*costmap);
                            assert(idx != start_i);
                            assert(!f0.is_filled_spec(idx as int));
                            assert forall|i: int| 0 <= i < board@.len() && !f0.is_filled_spec(i) implies
                                (exists|c: i32| 0 <= c <= board@.len() && #[trigger] costmap.value(i) == f0.fill_value(c)) || !costmap.is_filled_spec(i) by {
                                if i == idx {
                                    assert(costmap.value(i) == f0.fill_value(next_cost));
                                } else if pre.is_filled_spec(i) {
                                    let c = choose|c: i32| 0 <= c && #[trigger] pre.value(i) == f0.fill_value(c);
                                    assert(costmap.value(i) == f0.fill_value(c));
                                }
                            }
                            assert forall|j: int| 0 <= j < head implies
                                neighbors_filled(&*costmap, board@, shape, (#[trigger] queue@[j]).0[0] as int, queue@[j].0[1] as int) by {
                                assert(queue@[j] == q_pre[j]);
                                lemma_neighbors_filled_mono(&pre, &*costmap, board@, shape, q_pre[j].0[0] as int, q_pre[j].0[1] as int);
                            }
                            assert(queue@[queue.len() - 1] == (next_idx, next_cost));
                            assert forall|i: int| 0 <= i < board@.len() && #[trigger] costmap.is_filled_spec(i) && !f0.is_filled_spec(i) implies
                                (i == start_i || board@[i]) && exists|j: int| 0 <= j < queue.len()
                                    && cell_index(shape, (#[trigger] queue@[j]).0[0] as int, queue@[j].0[1] as int) == i by {
                                if i == idx {
                                    assert(cell_index(shape, queue@[queue.len() - 1].0[0] as int, queue@[queue.len() - 1].0[1] as int) == i);
                                } else {
                                    assert(pre.is_filled_spec(i));
                                    let j = choose|j: int| 0 <= j < q_pre.len()
                                        && cell_index(shape, (#[trigger] q_pre[j]).0[0] as int, q_pre[j].0[1] as int) == i;
                                    assert(queue@[j] == q_pre[j]);
                                }
                            }
                        }
                    }
                }
            }
            proof {
                assert forall|i: int| 0 <= i < board@.len() && #[trigger] pre_iter.is_filled_spec(i) implies costmap.is_filled_spec(i) by {}
                assert forall|dd: int| 0 <= dd < d + 1 && on_board(shape, popped.0[0] + direction(dd)[0], popped.0[1] + direction(dd)[1])
                    && board@[cell_index(shape, popped.0[0] + direction(dd)[0], popped.0[1] + direction(dd)[1])] implies
                    #[trigger] costmap.is_filled_spec(cell_index(shape, popped.0[0] + direction(dd)[0], popped.0[1] + direction(dd)[1])) by {
                    lemma_rect_index(popped.0[0] + direction(dd)[0], popped.0[1] + direction(dd)[1], shape.0 as int, shape.1 as int);
                    if dd < d {
                        assert(pre_iter.is_filled_spec(cell_index(shape, popped.0[0] + direction(dd)[0], popped.0[1] + direction(dd)[1])));
                    }
                }
            }
            d += 1;
        }
        head += 1;
        proof {
            if head < queue.len() {
                assert(queue@[head - 1] == popped);
                assert(popped.1 <= queue@[head as int].1);
                lemma_layer_filled(&f0, &*costmap, board@, shape, start, queue@, head as int);
            }
        }
    }
    proof {
        assert forall|x: int, y: int| on_board(shape, x, y) && #[trigger] costmap.is_filled_spec(cell_index(shape, x, y))
            && !f0.is_filled_spec(cell_index(shape, x, y)) implies neighbors_filled(&*costmap, board@, shape, x, y) by {
            lemma_rect_index(x, y, shape.0 as int, shape.1 as int);
            let i = cell_index(shape, x, y);
            let j = choose|j: int| 0 <= j < queue.len() && cell_index(shape, (#[trigger] queue@[j]).0[0] as int, queue@[j].0[1] as int) == i;
            lemma_rect_index_injective(queue@[j].0[0] as int, queue@[j].0[1] as int, x, y, shape.0 as int);
        }
        assert(neighbors_filled(&*costmap, board@, shape, queue@[0].0[0] as int, queue@[0].0[1] as int));
        assert forall|x: int, y: int| on_board(shape, x, y) && #[trigger] costmap.is_filled_spec(cell_index(shape, x, y))
            && (!f0.is_filled_spec(cell_index(shape, x, y)) || (x == start[0] && y == start[1])) implies
            exists|c: i32| 0 <= c <= board@.len() && costmap.value(cell_index(shape, x, y)) == f0.fill_value(c)
                && #[trigger] at_distance(&f0, board@, shape, start, c as nat, x, y) by {
            lemma_rect_index(x, y, shape.0 as int, shape.1 as int);
            let i = cell_index(shape, x, y);
            let j = if x == start[0] && y == start[1] {
                0int
            } else {
                choose|j: int| 0 <= j < queue.len() && cell_index(shape, (#[trigger] queue@[j]).0[0] as int, queue@[j].0[1] as int) == i
            };
            if !(x == start[0] && y == start[1]) {
                lemma_rect_index_injective(queue@[j].0[0] as int, queue@[j].0[1] as int, x, y, shape.0 as int);
            }
            let q = queue@[j];
            assert(q.0[0] == x && q.0[1] == y);
            assert(at_distance(&f0, board@, shape, start, q.1 as nat, x, y));
            assert(0 <= q.1 <= board@.len());
        }
        assert forall|k: nat, x: int, y: int| #[trigger] within(&f0, board@, shape, start, k, x, y) implies
            on_board(shape, x, y) && costmap.is_filled_spec(cell_index(shape, x, y)) by {
            lemma_within_source(&f0, board@, shape, start, k, x, y);
            lemma_within_filled(&f0, &*costmap, board@, shape, start, k, x, y);
        }
    }
}

/// Reaching more cells keeps the neighbors of a cell reached.
pub proof fn lemma_neighbors_filled_mono<F: DijkstraField>(f1: &F, f2: &F, board: Seq<bool>, shape: (usize, usize), x: int, y: int)
    requires
        board.len() == shape.0 * shape.1,
        f1.field_len() == board.len(),
        forall|i: int| 0 <= i < board.len() && #[trigger] f1.is_filled_spec(i) ==> f2.is_filled_spec(i),
        neighbors_filled(f1, board, shape, x, y),
    ensures
        neighbors_filled(f2, board, shape, x, y),
{
    assert forall|d: int| 0 <= d < 4 && on_board(shape, x + direction(d)[0], y + direction(d)[1])
        && board[cell_index(shape, x + direction(d)[0], y + direction(d)[1])] implies
        #[trigger] f2.is_filled_spec(cell_index(shape, x + direction(d)[0], y + direction(d)[1])) by {
        lemma_rect_index(x + direction(d)[0], y + direction(d)[1], shape.0 as int, shape.1 as int);
        assert(f1.is_filled_spec(cell_index(shape, x + direction(d)[0], y + direction(d)[1])));
    }
}

/// Cell indices of a board of width `w` name distinct cells.
pub proof fn lemma_rect_index_injective(x1: int, y1: int, x2: int, y2: int, w: int)
    requires
        0 <= x1 < w,
        0 <= x2 < w,
        0 <= y1,
        0 <= y2,
        x1 + y1 * w == x2 + y2 * w,
    ensures
        x1 == x2,
        y1 == y2,
{
    if y1 < y2 {
        assert(y1 * w + w <= y2 * w) by (nonlinear_arith) requires y1 < y2, 0 <= w;
    } else if y2 < y1 {
        assert(y2 * w + w <= y1 * w) by (nonlinear_arith) requires y2 < y1, 0 <= w;
    }
}

/// Every passable neighbor of the labeled cell `(x, y)` holds the same label.
pub open spec fn label_closed(labels: Seq<i32>, board: Seq<bool>, shape: (usize, usize), x: int, y: int) -> bool {
    forall|d: int| 0 <= d < 4 && on_board(shape, x + direction(d)[0], y + direction(d)[1])
        && board[cell_index(shape, x + direction(d)[0], y + direction(d)[1])] ==>
        #[trigger] labels[cell_index(shape, x + direction(d)[0], y + direction(d)[1])] == labels[cell_index(shape, x, y)]
}

/// One flood of `label` keeps the labels sound: the start and every newly reached cell hold
/// the new label, and every labeled cell shares its label with its passable neighbors.
proof fn lemma_label_step(f0: &Label, f1: &Label, board: Seq<bool>, shape: (usize, usize), x: int, y: int)
    requires
        board.len() == shape.0 * shape.1,
        f0.labels@.len() == board.len(),
        f1.labels@.len() == board.len(),
        f1.label == f0.label,
        f0.label >= 1,
        on_board(shape, x, y),
        board[cell_index(shape, x, y)],
        f0.labels@[cell_index(shape, x, y)] == 0,
        forall|i: int| 0 <= i < board.len() ==> 0 <= #[trigger] f0.labels@[i] < f0.label,
        forall|i: int| 0 <= i < board.len() && #[trigger] f0.labels@[i] != 0 ==> board[i],
        forall|xx: int, yy: int| on_board(shape, xx, yy) && #[trigger] f0.labels@[cell_index(shape, xx, yy)] != 0 ==>
            label_closed(f0.labels@, board, shape, xx, yy),
        // what the flood from (x, y) guarantees
        f1.value(cell_index(shape, x, y)) == f0.fill_value(0),
        forall|i: int| 0 <= i < board.len() && #[trigger] f0.is_filled_spec(i) ==> f1.is_filled_spec(i),
        forall|i: int| 0 <= i < board.len() && #[trigger] f1.is_filled_spec(i) && !f0.is_filled_spec(i)
            && i != cell_index(shape, x, y) ==> board[i],
        neighbors_filled(f1, board, shape, x, y),
        forall|xx: int, yy: int| on_board(shape, xx, yy) && #[trigger] f1.is_filled_spec(cell_index(shape, xx, yy))
            && !f0.is_filled_spec(cell_index(shape, xx, yy)) ==> neighbors_filled(f1, board, shape, xx, yy),
        forall|i: int| 0 <= i < board.len() && f0.is_filled_spec(i) && i != cell_index(shape, x, y)
            ==> #[trigger] f1.value(i) == f0.value(i),
        forall|i: int| 0 <= i < board.len() && !f0.is_filled_spec(i) ==>
            (exists|c: i32| 0 <= c <= board.len() && #[trigger] f1.value(i) == f0.fill_value(c)) || !f1.is_filled_spec(i),
    ensures
        forall|i: int| 0 <= i < board.len() ==> 0 <= #[trigger] f1.labels@[i] < f0.label + 1,
        forall|i: int| 0 <= i < board.len() && #[trigger] f1.labels@[i] != 0 ==> board[i],
        forall|i: int| 0 <= i < board.len() && #[trigger] f0.labels@[i] != 0 ==> f1.labels@[i] != 0,
        f1.labels@[cell_index(shape, x, y)] != 0,
        forall|xx: int, yy: int| on_board(shape, xx, yy) && #[trigger] f1.labels@[cell_index(shape, xx, yy)] != 0 ==>
            label_closed(f1.labels@, board, shape, xx, yy),
{
    let s = cell_index(shape, x, y);
    let lab = f0.label;
    // every cell holds its old label, the new one, or nothing
    assert forall|i: int| 0 <= i < board.len() implies
        (f0.labels@[i] != 0 ==> #[trigger] f1.labels@[i] == f0.labels@[i])
        && (f0.labels@[i] == 0 ==> (f1.labels@[i] == lab || f1.labels@[i] == 0)) by {
        if i == s {
            assert(f1.value(s) == lab);
        } else if f0.labels@[i] != 0 {
            assert(f0.is_filled_spec(i));
            assert(f1.value(i) == f0.value(i));
        } else {
            assert(!f0.is_filled_spec(i));
            if f1.labels@[i] != 0 {
                assert(f1.is_filled_spec(i));
                let c = choose|c: i32| 0 <= c && #[trigger] f1.value(i) == f0.fill_value(c);
                assert(f1.labels@[i] == lab);
            }
        }
    }
    assert forall|i: int| 0 <= i < board.len() && #[trigger] f1.labels@[i] != 0 implies board[i] by {
        if i != s && f0.labels@[i] == 0 {
            assert(f1.is_filled_spec(i) && !f0.is_filled_spec(i));
        }
    }
    assert forall|xx: int, yy: int| on_board(shape, xx, yy) && #[trigger] f1.labels@[cell_index(shape, xx, yy)] != 0 implies
        label_closed(f1.labels@, board, shape, xx, yy) by {
        lemma_rect_index(xx, yy, shape.0 as int, shape.1 as int);
        let c = cell_index(shape, xx, yy);
        assert forall|d: int| 0 <= d < 4 && on_board(shape, xx + direction(d)[0], yy + direction(d)[1])
            && board[cell_index(shape, xx + direction(d)[0], yy + direction(d)[1])] implies
            #[trigger] f1.labels@[cell_index(shape, xx + direction(d)[0], yy + direction(d)[1])] == f1.labels@[c] by {
            let nx = xx + direction(d)[0];
            let ny = yy + direction(d)[1];
            let n = cell_index(shape, nx, ny);
            lemma_rect_index(nx, ny, shape.0 as int, shape.1 as int);
            if f0.labels@[c] != 0 {
                // an old region: closed before, and its cells keep their labels
                assert(label_closed(f0.labels@, board, shape, xx, yy));
                assert(f0.labels@[n] == f0.labels@[c]);
            } else {
                // a new cell: its passable neighbors were reached by the flood
                if c == s {
                    lemma_rect_index_injective(xx, yy, x, y, shape.0 as int);
                    assert(neighbors_filled(f1, board, shape, x, y));
                } else {
                    assert(f1.is_filled_spec(cell_index(shape, xx, yy)));
                    assert(!f0.is_filled_spec(cell_index(shape, xx, yy)));
                    assert(neighbors_filled(f1, board, shape, xx, yy));
                }
                assert(f1.is_filled_spec(cell_index(shape, xx + direction(d)[0], yy + direction(d)[1])));
                assert(f1.labels@[n] != 0);
                if f0.labels@[n] != 0 {
                    // then the old region of n would have held c already
                    assert(label_closed(f0.labels@, board, shape, nx, ny));
                    let back = if d == 0 { 2int } else if d == 1 { 3int } else if d == 2 { 0int } else { 1int };
                    assert(nx + direction(back)[0] == xx && ny + direction(back)[1] == yy);
                    assert(board[c]);
                    assert(f0.labels@[c] == f0.labels@[n]);
                    assert(false);
                }
            }
        }
    }
}

/// The passable cell `(x, y)` reaches `(tx, ty)` in at most `k` steps between 4-neighboring
/// passable cells.
pub open spec fn linked(board: Seq<bool>, shape: (usize, usize), x: int, y: int, tx: int, ty: int, k: nat) -> bool
    decreases k,
{
    &&& on_board(shape, x, y)
    &&& board[cell_index(shape, x, y)]
    &&& ((x == tx && y == ty) || (k > 0 && (
        linked(board, shape, x - 1, y, tx, ty, (k - 1) as nat)
        || linked(board, shape, x, y - 1, tx, ty, (k - 1) as nat)
        || linked(board, shape, x + 1, y, tx, ty, (k - 1) as nat)
        || linked(board, shape, x, y + 1, tx, ty, (k - 1) as nat))))
}

/// The passable cells `(x, y)` and `(tx, ty)` are 4-connected through passable cells.
pub open spec fn same_region(board: Seq<bool>, shape: (usize, usize), x: int, y: int, tx: int, ty: int) -> bool {
    exists|k: nat| #[trigger] linked(board, shape, x, y, tx, ty, k)
}

/// The largest of the first `n` labels, or 0.
pub open spec fn label_max(labels: Seq<i32>, n: int) -> int
    decreases n,
{
    if n <= 0 {
        0
    } else if labels[n - 1] > label_max(labels, n - 1) {
        labels[n - 1] as int
    } else {
        label_max(labels, n - 1)
    }
}

/// No cell before cell `i` holds its label: `i` is where a row-major scan first meets it.
pub open spec fn first_of_label(labels: Seq<i32>, i: int) -> bool {
    forall|j: int| 0 <= j < i ==> #[trigger] labels[j] != labels[i]
}

proof fn lemma_linked_mono(board: Seq<bool>, shape: (usize, usize), x: int, y: int, tx: int, ty: int, k1: nat, k2: nat)
    requires
        k1 <= k2,
        linked(board, shape, x, y, tx, ty, k1),
    ensures
        linked(board, shape, x, y, tx, ty, k2),
    decreases k1,
{
    if !(x == tx && y == ty) {
        let a = (k1 - 1) as nat;
        let b = (k2 - 1) as nat;
        if linked(board, shape, x - 1, y, tx, ty, a) {
            lemma_linked_mono(board, shape, x - 1, y, tx, ty, a, b);
        } else if linked(board, shape, x, y - 1, tx, ty, a) {
            lemma_linked_mono(board, shape, x, y - 1, tx, ty, a, b);
        } else if linked(board, shape, x + 1, y, tx, ty, a) {
            lemma_linked_mono(board, shape, x + 1, y, tx, ty, a, b);
        } else {
            lemma_linked_mono(board, shape, x, y + 1, tx, ty, a, b);
        }
    }
}

proof fn lemma_linked_trans(board: Seq<bool>, shape: (usize, usize), x: int, y: int, mx: int, my: int, tx: int, ty: int, k1: nat, k2: nat)
    requires
        linked(board, shape, x, y, mx, my, k1),
        linked(board, shape, mx, my, tx, ty, k2),
    ensures
        linked(board, shape, x, y, tx, ty, k1 + k2),
    decreases k1,
{
    if x == mx && y == my {
        lemma_linked_mono(board, shape, x, y, tx, ty, k2, k1 + k2);
    } else {
        let a = (k1 - 1) as nat;
        assert((k1 + k2 - 1) as nat == a + k2);
        if linked(board, shape, x - 1, y, mx, my, a) {
            lemma_linked_trans(board, shape, x - 1, y, mx, my, tx, ty, a, k2);
        } else if linked(board, shape, x, y - 1, mx, my, a) {
            lemma_linked_trans(board, shape, x, y - 1, mx, my, tx, ty, a, k2);
        } else if linked(board, shape, x + 1, y, mx, my, a) {
            lemma_linked_trans(board, shape, x + 1, y, mx, my, tx, ty, a, k2);
        } else {
            lemma_linked_trans(board, shape, x, y + 1, mx, my, tx, ty, a, k2);
        }
    }
}

proof fn lemma_linked_sym(board: Seq<bool>, shape: (usize, usize), x: int, y: int, tx: int, ty: int, k: nat)
    requires
        linked(board, shape, x, y, tx, ty, k),
    ensures
        linked(board, shape, tx, ty, x, y, k),
    decreases k,
{
    if !(x == tx && y == ty) {
        let a = (k - 1) as nat;
        let (nx, ny) = if linked(board, shape, x - 1, y, tx, ty, a) {
            (x - 1, y)
        } else if linked(board, shape, x, y - 1, tx, ty, a) {
            (x, y - 1)
        } else if linked(board, shape, x + 1, y, tx, ty, a) {
            (x + 1, y)
        } else {
            (x, y + 1)
        };
        lemma_linked_sym(board, shape, nx, ny, tx, ty, a);
        assert(linked(board, shape, x, y, x, y, 0));
        assert(linked(board, shape, nx, ny, x, y, 1));
        lemma_linked_trans(board, shape, tx, ty, nx, ny, x, y, a, 1);
    }
}

/// Labels that every passable cell shares with its passable neighbors are shared along paths.
proof fn lemma_linked_same_label(labels: Seq<i32>, board: Seq<bool>, shape: (usize, usize), x: int, y: int, tx: int, ty: int, k: nat)
    requires
        linked(board, shape, x, y, tx, ty, k),
        forall|xx: int, yy: int| on_board(shape, xx, yy) && #[trigger] board[cell_index(shape, xx, yy)] ==>
            label_closed(labels, board, shape, xx, yy),
    ensures
        labels[cell_index(shape, x, y)] == labels[cell_index(shape, tx, ty)],
    decreases k,
{
    if !(x == tx && y == ty) {
        let a = (k - 1) as nat;
        assert(label_closed(labels, board, shape, x, y));
        if linked(board, shape, x - 1, y, tx, ty, a) {
            assert(x + direction(0)[0] == x - 1 && y + direction(0)[1] == y);
            lemma_linked_same_label(labels, board, shape, x - 1, y, tx, ty, a);
        } else if linked(board, shape, x, y - 1, tx, ty, a) {
            assert(x + direction(1)[0] == x && y + direction(1)[1] == y - 1);
            lemma_linked_same_label(labels, board, shape, x, y - 1, tx, ty, a);
        } else if linked(board, shape, x + 1, y, tx, ty, a) {
            assert(x + direction(2)[0] == x + 1 && y + direction(2)[1] == y);
            lemma_linked_same_label(labels, board, shape, x + 1, y, tx, ty, a);
        } else {
            assert(x + direction(3)[0] == x && y + direction(3)[1] == y + 1);
            lemma_linked_same_label(labels, board, shape, x, y + 1, tx, ty, a);
        }
    }
}

/// A cell within `k` steps of a passable flood start is linked to it.
proof fn lemma_within_linked<F: DijkstraField>(f0: &F, board: Seq<bool>, shape: (usize, usize), start: [i32; 2], k: nat, x: int, y: int)
    requires
        within(f0, board, shape, start, k, x, y),
        on_board(shape, start[0] as int, start[1] as int),
        board[cell_index(shape, start[0] as int, start[1] as int)],
    ensures
        linked(board, shape, x, y, start[0] as int, start[1] as int, k),
    decreases k,
{
    if k > 0 {
        let a = (k - 1) as nat;
        if within(f0, board, shape, start, a, x, y) {
            lemma_within_linked(f0, board, shape, start, a, x, y);
            lemma_linked_mono(board, shape, x, y, start[0] as int, start[1] as int, a, k);
        } else if within(f0, board, shape, start, a, x + 1, y) {
            lemma_within_linked(f0, board, shape, start, a, x + 1, y);
        } else if within(f0, board, shape, start, a, x, y + 1) {
            lemma_within_linked(f0, board, shape, start, a, x, y + 1);
        } else if within(f0, board, shape, start, a, x - 1, y) {
            lemma_within_linked(f0, board, shape, start, a, x - 1, y);
        } else {
            lemma_within_linked(f0, board, shape, start, a, x, y - 1);
        }
    }
}

proof fn lemma_label_max_frame(l1: Seq<i32>, l2: Seq<i32>, n: int)
    requires
        forall|i: int| 0 <= i < n ==> #[trigger] l1[i] == l2[i],
    ensures
        label_max(l1, n) == label_max(l2, n),
    decreases n,
{
    if n > 0 {
        lemma_label_max_frame(l1, l2, n - 1);
    }
}

proof fn lemma_label_max_bound(l: Seq<i32>, n: int, b: int)
    requires
        0 <= b,
        forall|i: int| 0 <= i < n ==> #[trigger] l[i] <= b,
    ensures
        label_max(l, n) <= b,
    decreases n,
{
    if n > 0 {
        lemma_label_max_bound(l, n - 1, b);
    }
}

/// What a row-major labeling scan knows once it has passed the first `pos` cells: label `l + 1`
/// was started from the cell `seeds[l]` before `pos`; every labeled cell is 4-connected to the
/// seed of its label; and every scanned cell that is the first of its label holds one more
/// than the largest label before it.
#[verifier::opaque]
pub open spec fn scan_facts(labels: Seq<i32>, board: Seq<bool>, shape: (usize, usize), seeds: Seq<(int, int)>, pos: int) -> bool {
    &&& forall|l: int| 0 <= l < seeds.len() ==> on_board(shape, (#[trigger] seeds[l]).0, seeds[l].1)
        && cell_index(shape, seeds[l].0, seeds[l].1) < pos
        && labels[cell_index(shape, seeds[l].0, seeds[l].1)] == l + 1
    &&& forall|xx: int, yy: int| on_board(shape, xx, yy) && #[trigger] labels[cell_index(shape, xx, yy)] != 0 ==>
        same_region(board, shape, xx, yy, seeds[labels[cell_index(shape, xx, yy)] - 1].0, seeds[labels[cell_index(shape, xx, yy)] - 1].1)
    &&& forall|i: int| 0 <= i < pos && #[trigger] board[i] && first_of_label(labels, i) ==>
        labels[i] == label_max(labels, i) + 1
}

/// A scan step that starts no region: the cell is not passable or already labeled.
proof fn lemma_label_skip(labels: Seq<i32>, board: Seq<bool>, shape: (usize, usize), seeds: Seq<(int, int)>, pos: int, counter: int)
    requires
        0 <= pos < board.len(),
        labels.len() == board.len(),
        scan_facts(labels, board, shape, seeds, pos),
        !(board[pos] && labels[pos] == 0),
        forall|i: int| 0 <= i < board.len() ==> 0 <= #[trigger] labels[i] < counter,
        forall|i: int| 0 <= i < board.len() && #[trigger] labels[i] != 0 ==> board[i],
        counter == label_max(labels, pos) + 1,
        seeds.len() == counter - 1,
    ensures
        scan_facts(labels, board, shape, seeds, pos + 1),
        label_max(labels, pos + 1) == label_max(labels, pos),
{
    reveal(scan_facts);
    lemma_label_max_bound(labels, pos, counter - 1);
    if board[pos] {
        let s = seeds[labels[pos] - 1];
        let si = cell_index(shape, s.0, s.1);
        assert(si < pos && labels[si] == labels[pos]);
        assert(!first_of_label(labels, pos));
    }
}

/// What the finished scan gives: labels tell regions apart exactly.
proof fn lemma_label_regions(labels: Seq<i32>, board: Seq<bool>, shape: (usize, usize), seeds: Seq<(int, int)>)
    requires
        board.len() == shape.0 * shape.1,
        labels.len() == board.len(),
        scan_facts(labels, board, shape, seeds, board.len() as int),
        forall|i: int| 0 <= i < board.len() ==> (#[trigger] board[i] <==> labels[i] != 0),
        forall|i: int| 0 <= i < board.len() ==> 0 <= #[trigger] labels[i] <= seeds.len(),
        forall|x: int, y: int| on_board(shape, x, y) && #[trigger] board[cell_index(shape, x, y)] ==>
            label_closed(labels, board, shape, x, y),
    ensures
        forall|x1: int, y1: int, x2: int, y2: int|
            on_board(shape, x1, y1) && on_board(shape, x2, y2) && #[trigger] board[cell_index(shape, x1, y1)]
            && #[trigger] board[cell_index(shape, x2, y2)] ==>
            (labels[cell_index(shape, x1, y1)] == labels[cell_index(shape, x2, y2)] <==> same_region(board, shape, x1, y1, x2, y2)),
        forall|i: int| 0 <= i < board.len() && #[trigger] board[i] && first_of_label(labels, i) ==>
            labels[i] == label_max(labels, i) + 1,
{
    reveal(scan_facts);
    assert forall|x1: int, y1: int, x2: int, y2: int|
        on_board(shape, x1, y1) && on_board(shape, x2, y2) && #[trigger] board[cell_index(shape, x1, y1)]
        && #[trigger] board[cell_index(shape, x2, y2)] implies
        (labels[cell_index(shape, x1, y1)] == labels[cell_index(shape, x2, y2)] <==> same_region(board, shape, x1, y1, x2, y2)) by {
        lemma_rect_index(x1, y1, shape.0 as int, shape.1 as int);
        lemma_rect_index(x2, y2, shape.0 as int, shape.1 as int);
        let c1 = cell_index(shape, x1, y1);
        let c2 = cell_index(shape, x2, y2);
        assert(labels[c1] != 0 && labels[c2] != 0);
        if same_region(board, shape, x1, y1, x2, y2) {
            let k = choose|k: nat| linked(board, shape, x1, y1, x2, y2, k);
            lemma_linked_same_label(labels, board, shape, x1, y1, x2, y2, k);
        }
        if labels[c1] == labels[c2] {
            let s = seeds[labels[c1] - 1];
            assert(same_region(board, shape, x1, y1, s.0, s.1));
            assert(same_region(board, shape, x2, y2, s.0, s.1));
            let k1 = choose|k: nat| linked(board, shape, x1, y1, s.0, s.1, k);
            let k2 = choose|k: nat| linked(board, shape, x2, y2, s.0, s.1, k);
            lemma_linked_sym(board, shape, x2, y2, s.0, s.1, k2);
            lemma_linked_trans(board, shape, x1, y1, s.0, s.1, x2, y2, k1, k2);
        }
    }
}

/// One new region of `label`: the flood from the scan position `(x, y)` gives its cells the
/// next label, which leaves the cells before the scan position as they were, makes `(x, y)` the
/// seed of the new label, links every newly labeled cell to it, and numbers it one past the
/// largest label before it.
proof fn lemma_label_seed(f0: &Label, f1: &Label, board: Seq<bool>, shape: (usize, usize), x: int, y: int, st: [i32; 2], seeds: Seq<(int, int)>)
    requires
        st[0] == x,
        st[1] == y,
        board.len() == shape.0 * shape.1,
        f0.labels@.len() == board.len(),
        f1.labels@.len() == board.len(),
        f1.label == f0.label,
        on_board(shape, x, y),
        board[cell_index(shape, x, y)],
        f0.labels@[cell_index(shape, x, y)] == 0,
        forall|i: int| 0 <= i < cell_index(shape, x, y) && #[trigger] board[i] ==> f0.labels@[i] != 0,
        forall|i: int| 0 <= i < board.len() && #[trigger] f0.labels@[i] != 0 ==> board[i],
        forall|i: int| 0 <= i < board.len() ==> 0 <= #[trigger] f0.labels@[i] < f0.label,
        f0.label == label_max(f0.labels@, cell_index(shape, x, y)) + 1,
        seeds.len() == f0.label - 1,
        scan_facts(f0.labels@, board, shape, seeds, cell_index(shape, x, y)),
        // what the flood from (x, y) guarantees
        f1.value(cell_index(shape, x, y)) == f0.fill_value(0),
        forall|i: int| 0 <= i < board.len() && #[trigger] f1.is_filled_spec(i) && !f0.is_filled_spec(i)
            && i != cell_index(shape, x, y) ==> board[i],
        forall|i: int| 0 <= i < board.len() && f0.is_filled_spec(i) && i != cell_index(shape, x, y)
            ==> #[trigger] f1.value(i) == f0.value(i),
        forall|xx: int, yy: int| on_board(shape, xx, yy) && #[trigger] f1.is_filled_spec(cell_index(shape, xx, yy))
            && (!f0.is_filled_spec(cell_index(shape, xx, yy)) || (xx == x && yy == y)) ==>
            exists|c: i32| 0 <= c <= board.len() && f1.value(cell_index(shape, xx, yy)) == f0.fill_value(c)
                && #[trigger] at_distance(f0, board, shape, st, c as nat, xx, yy),
    ensures
        forall|i: int| 0 <= i < cell_index(shape, x, y) ==> #[trigger] f1.labels@[i] == f0.labels@[i],
        label_max(f1.labels@, cell_index(shape, x, y) + 1) == f0.label,
        scan_facts(f1.labels@, board, shape, seeds.push((x, y)), cell_index(shape, x, y) + 1),
{
    reveal(scan_facts);
    let pos = cell_index(shape, x, y);
    lemma_rect_index(x, y, shape.0 as int, shape.1 as int);
    let l0 = f0.labels@;
    let l1 = f1.labels@;
    let new_seeds = seeds.push((x, y));
    assert forall|i: int| 0 <= i < pos implies #[trigger] l1[i] == l0[i] by {
        if board[i] {
            assert(l0[i] != 0);
            assert(f0.is_filled_spec(i));
            assert(f1.value(i) == f0.value(i));
        } else {
            assert(l0[i] == 0);
            if l1[i] != 0 {
                assert(f1.is_filled_spec(i));
            }
        }
    }
    lemma_label_max_frame(l0, l1, pos);
    assert(l1[pos] == f0.label);
    assert(label_max(l1, pos + 1) == f0.label);
    assert forall|l: int| 0 <= l < new_seeds.len() implies on_board(shape, (#[trigger] new_seeds[l]).0, new_seeds[l].1)
        && cell_index(shape, new_seeds[l].0, new_seeds[l].1) < pos + 1
        && l1[cell_index(shape, new_seeds[l].0, new_seeds[l].1)] == l + 1 by {
        if l < seeds.len() {
            assert(new_seeds[l] == seeds[l]);
            assert(l1[cell_index(shape, seeds[l].0, seeds[l].1)] == l0[cell_index(shape, seeds[l].0, seeds[l].1)]);
        }
    }
    assert forall|xx: int, yy: int| on_board(shape, xx, yy) && #[trigger] l1[cell_index(shape, xx, yy)] != 0 implies
        same_region(board, shape, xx, yy, new_seeds[l1[cell_index(shape, xx, yy)] - 1].0, new_seeds[l1[cell_index(shape, xx, yy)] - 1].1) by {
        lemma_rect_index(xx, yy, shape.0 as int, shape.1 as int);
        let c = cell_index(shape, xx, yy);
        if l0[c] != 0 {
            assert(f0.is_filled_spec(c));
            if c != pos {
                assert(f1.value(c) == f0.value(c));
            }
            assert(l1[c] == l0[c]);
            assert(new_seeds[l0[c] - 1] == seeds[l0[c] - 1]);
        } else {
            assert(f1.is_filled_spec(c));
            if xx == x && yy == y {
                assert(linked(board, shape, xx, yy, x, y, 0));
                assert(l1[c] == f0.label);
            } else {
                let cc = choose|cc: i32| 0 <= cc <= board.len() && f1.value(cell_index(shape, xx, yy)) == f0.fill_value(cc)
                    && #[trigger] at_distance(f0, board, shape, st, cc as nat, xx, yy);
                lemma_within_linked(f0, board, shape, st, cc as nat, xx, yy);
                assert(linked(board, shape, xx, yy, x, y, cc as nat));
                assert(l1[c] == f0.label);
            }
            assert(new_seeds[l1[c] - 1] == (x, y));
        }
    }
    assert forall|i: int| 0 <= i < pos + 1 && #[trigger] board[i] && first_of_label(l1, i) implies
        l1[i] == label_max(l1, i) + 1 by {
        if i < pos {
            assert forall|j: int| 0 <= j < i implies #[trigger] l0[j] != l0[i] by {
                assert(l1[j] == l0[j]);
            }
            lemma_label_max_frame(l0, l1, i);
        }
    }
}

/// Labels the 4-connected regions of passable cells: every passable cell gets a positive
/// label, shared with its passable neighbors, and every other cell gets 0. Two passable cells
/// share a label exactly when they are 4-connected through passable cells. Regions are
/// numbered from 1 in the order in which a row-major scan meets them: the first cell of each
/// region holds one more than the largest label before it.
pub fn label(board: &[bool], shape: (usize, usize)) -> (labels: Vec<i32>)
    requires
        board@.len() == shape.0 * shape.1,
        board@.len() < i32::MAX,
    ensures
        labels@.len() == board@.len(),
        forall|i: int| 0 <= i < board@.len() ==> (#[trigger] board@[i] <==> labels@[i] != 0),
        forall|i: int| 0 <= i < board@.len() ==> #[trigger] labels@[i] >= 0,
        forall|x: int, y: int| on_board(shape, x, y) && #[trigger] board@[cell_index(shape, x, y)] ==>
            label_closed(labels@, board@, shape, x, y),
        forall|x1: int, y1: int, x2: int, y2: int|
            on_board(shape, x1, y1) && on_board(shape, x2, y2) && #[trigger] board@[cell_index(shape, x1, y1)]
            && #[trigger] board@[cell_index(shape, x2, y2)] ==>
            (labels@[cell_index(shape, x1, y1)] == labels@[cell_index(shape, x2, y2)] <==> same_region(board@, shape, x1, y1, x2, y2)),
        forall|i: int| 0 <= i < board@.len() && #[trigger] board@[i] && first_of_label(labels@, i) ==>
            labels@[i] == label_max(labels@, i) + 1,
{
    let mut labels: Vec<i32> = vec![0; board.len()];
    let mut label_counter: i32 = 1;
    let ghost mut seeds: Seq<(int, int)> = Seq::empty();
    proof {
        reveal(scan_facts);
        assert forall|x: int, yy: int| on_board(shape, x, yy) implies #[trigger] labels@[cell_index(shape, x, yy)] == 0 by {
            lemma_rect_index(x, yy, shape.0 as int, shape.1 as int);
        }
    }
    let mut y: usize = 0;
    while y < shape.1
        invariant
            board@.len() == shape.0 * shape.1,
            board@.len() < i32::MAX,
            y <= shape.1,
            labels@.len() == board@.len(),
            1 <= label_counter <= y * shape.0 + 1,
            forall|i: int| 0 <= i < board@.len() ==> 0 <= #[trigger] labels@[i] < label_counter,
            forall|i: int| 0 <= i < board@.len() && #[trigger] labels@[i] != 0 ==> board@[i],
            forall|i: int| 0 <= i < y * shape.0 && #[trigger] board@[i] ==> labels@[i] != 0,
            forall|x: int, yy: int| on_board(shape, x, yy) && #[trigger] labels@[cell_index(shape, x, yy)] != 0 ==>
                label_closed(labels@, board@, shape, x, yy),
            label_counter == label_max(labels@, y * shape.0) + 1,
            seeds.len() == label_counter - 1,
            scan_facts(labels@, board@, shape, seeds, y * shape.0),
        decreases shape.1 - y,
    {
        proof {
            assert(shape.0 <= shape.0 * shape.1) by (nonlinear_arith) requires shape.1 >= 1;
            assert(shape.1 <= shape.0 * shape.1 || shape.0 == 0) by (nonlinear_arith) requires shape.1 >= 1;
        }
        let mut x: usize = 0;
        while x < shape.0
            invariant
                shape.0 <= board@.len(),
                shape.1 <= board@.len() || shape.0 == 0,
                board@.len() == shape.0 * shape.1,
                board@.len() < i32::MAX,
                y < shape.1,
                x <= shape.0,
                labels@.len() == board@.len(),
                1 <= label_counter <= y * shape.0 + x + 1,
                forall|i: int| 0 <= i < board@.len() ==> 0 <= #[trigger] labels@[i] < label_counter,
                forall|i: int| 0 <= i < board@.len() && #[trigger] labels@[i] != 0 ==> board@[i],
                forall|i: int| 0 <= i < y * shape.0 + x && #[trigger] board@[i] ==> labels@[i] != 0,
                forall|xx: int, yy: int| on_board(shape, xx, yy) && #[trigger] labels@[cell_index(shape, xx, yy)] != 0 ==>
                    label_closed(labels@, board@, shape, xx, yy),
                label_counter == label_max(labels@, y * shape.0 + x) + 1,
                seeds.len() == label_counter - 1,
                scan_facts(labels@, board@, shape, seeds, y * shape.0 + x),
            decreases shape.0 - x,
        {
            proof { lemma_rect_index(x as int, y as int, shape.0 as int, shape.1 as int); }
            let idx = x + y * shape.0;
            let ghost pos = idx as int;
            let ghost l0 = labels@;
            if board[idx] && labels[idx] == 0 {
                let mut field = Label { labels, label: label_counter };
                let ghost f0 = field;
                dijkstra_fill(board, shape, [x as i32, y as i32], &mut field);
                proof {
                    assert(field.fill_value(0) == f0.fill_value(0));
                    lemma_label_step(&f0, &field, board@, shape, x as int, y as int);
                }
                labels = field.labels;
                proof {
                    lemma_label_seed(&f0, &field, board@, shape, x as int, y as int, [x as i32, y as i32], seeds);
                    seeds = seeds.push((x as int, y as int));
                }
                label_counter += 1;
            } else {
                proof {
                    lemma_label_skip(labels@, board@, shape, seeds, pos, label_counter as int);
                }
            }
            x += 1;
        }
        proof {
            assert((y + 1) * shape.0 == y * shape.0 + shape.0) by (nonlinear_arith);
        }
        y += 1;
    }
    proof {
        assert(shape.1 * shape.0 == shape.0 * shape.1) by (nonlinear_arith);
        assert forall|x: int, y: int| on_board(shape, x, y) && #[trigger] board@[cell_index(shape, x, y)] implies
            label_closed(labels@, board@, shape, x, y) by {
            lemma_rect_index(x, y, shape.0 as int, shape.1 as int);
            assert(labels@[cell_index(shape, x, y)] != 0);
        }
        lemma_label_regions(labels@, board@, shape, seeds);
    }
    labels
}

} // verus!
