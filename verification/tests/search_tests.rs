use swarm_rs::qtree::search::{PathFindError, QTreeIdx, SearchTree};
use swarm_rs::qtree::{CellState, QTreeSearcher, Rect};

/// An 8x8 board with a wall in the column x == 3, rows 0..6.
fn wall_board() -> Vec<bool> {
    let mut board = vec![true; 64];
    for y in 0..6 {
        board[3 + y * 8] = false;
    }
    board
}

fn searcher_for(board: &[bool], shape: (usize, usize)) -> QTreeSearcher {
    let mut searcher = QTreeSearcher::new();
    let b = board.to_vec();
    let f = move |r: Rect| {
        let (x, y) = (r[0] as usize, r[1] as usize);
        if x < shape.0 && y < shape.1 && b[x + y * shape.0] {
            CellState::Free
        } else {
            CellState::Obstacle
        }
    };
    searcher.initialize(shape, &f).unwrap();
    searcher
}

fn cell_holding(searcher: &QTreeSearcher, pos: [i32; 2]) -> QTreeIdx {
    let (level, _) = searcher.find_by_idx(pos).unwrap();
    let w = searcher.get_qtree().width(level) as i32;
    (level, [pos[0] / w, pos[1] / w])
}

fn adjacent(searcher: &QTreeSearcher, a: QTreeIdx, b: QTreeIdx) -> bool {
    searcher.get_qtree().find_neighbors(a.0, a.1).contains(&b)
}

/// The pixel squares of the two cells share a stretch of edge.
fn touch(searcher: &QTreeSearcher, a: QTreeIdx, b: QTreeIdx) -> bool {
    let wa = searcher.get_qtree().width(a.0) as i32;
    let wb = searcher.get_qtree().width(b.0) as i32;
    let (ax0, ax1, ay0, ay1) = (a.1[0] * wa, (a.1[0] + 1) * wa, a.1[1] * wa, (a.1[1] + 1) * wa);
    let (bx0, bx1, by0, by1) = (b.1[0] * wb, (b.1[0] + 1) * wb, b.1[1] * wb, (b.1[1] + 1) * wb);
    ((ax1 == bx0 || bx1 == ax0) && ay0 < by1 && by0 < ay1) || ((ay1 == by0 || by1 == ay0) && ax0 < bx1 && bx0 < ax1)
}

/// Every pixel of the cell is free on the board.
fn cell_free(searcher: &QTreeSearcher, board: &[bool], c: QTreeIdx) -> bool {
    let w = searcher.get_qtree().width(c.0) as i32;
    (0..w).all(|dx| (0..w).all(|dy| {
        let (x, y) = ((c.1[0] * w + dx) as usize, (c.1[1] * w + dy) as usize);
        board[x + y * 8]
    }))
}

#[test]
fn path_around_the_wall() {
    let board = wall_board();
    let searcher = searcher_for(&board, (8, 8));
    let all = |_: usize| true;
    let (res, tree) = searcher.path_find(&all, [1, 1], [6, 1]);
    let path = res.expect("a path exists around the wall");
    let start = cell_holding(&searcher, [1, 1]);
    assert_eq!(*path.last().unwrap(), start);
    let goal = cell_holding(&searcher, [6, 1]);
    assert!(path[0] == goal || adjacent(&searcher, path[0], goal));
    for i in 0..path.len() - 1 {
        assert!(adjacent(&searcher, path[i + 1], path[i]));
        assert!(touch(&searcher, path[i + 1], path[i]));
    }
    assert!(path[0] == goal || touch(&searcher, path[0], goal));
    for c in &path {
        assert!(cell_free(&searcher, &board, *c), "cell {c:?}");
    }
    // The path has to go below the wall, through row 6 or 7.
    assert!(path.iter().any(|c| {
        let w = searcher.get_qtree().width(c.0) as i32;
        (c.1[1] + 1) * w > 6
    }));
    assert_eq!(tree.get_nodes().len(), 2 * tree.get_edges().len());
    assert!(!tree.get_edges().is_empty());
}

#[test]
fn path_in_the_same_cell() {
    let board = vec![true; 16];
    let searcher = searcher_for(&board, (4, 4));
    let all = |_: usize| true;
    let (res, tree) = searcher.path_find(&all, [0, 0], [3, 2]);
    assert_eq!(res, Ok(vec![(0, [0, 0])]));
    assert!(tree.get_nodes().is_empty());
    assert!(tree.get_edges().is_empty());
}

#[test]
fn path_errors() {
    let board = wall_board();
    let searcher = searcher_for(&board, (8, 8));
    let all = |_: usize| true;
    // Outside the board no cell holds the start.
    let (res, tree) = searcher.path_find(&all, [-20, 1], [6, 1]);
    assert_eq!(res, Err(PathFindError::StartBlocked));
    assert!(tree.get_edges().is_empty());
    // A start on the wall is reported as a blocked goal, as the end on the wall is.
    let (res, _) = searcher.path_find(&all, [3, 1], [6, 1]);
    assert_eq!(res, Err(PathFindError::GoalBlocked));
    let (res, _) = searcher.path_find(&all, [1, 1], [3, 2]);
    assert_eq!(res, Err(PathFindError::GoalBlocked));
    let (res, _) = searcher.path_find(&all, [1, 1], [100, 1]);
    assert_eq!(res, Err(PathFindError::GoalBlocked));
    assert_eq!(PathFindError::StartBlocked.message(), "StartBlocked");
    assert_eq!(PathFindError::GoalBlocked.message(), "GoalBlocked");
    assert_eq!(PathFindError::SearchFailed.message(), "SearchFailed");
}

#[test]
fn path_search_fails_behind_a_full_wall() {
    let mut board = vec![true; 64];
    for y in 0..8 {
        board[3 + y * 8] = false;
    }
    let searcher = searcher_for(&board, (8, 8));
    let all = |_: usize| true;
    let (res, tree) = searcher.path_find(&all, [1, 1], [6, 1]);
    assert_eq!(res, Err(PathFindError::SearchFailed));
    // Every cell the search reached lies left of the wall.
    for c in tree.get_nodes() {
        let w = searcher.get_qtree().width(c.0) as i32;
        assert!((c.1[0] + 1) * w <= 3, "cell {c:?}");
    }
}

#[test]
fn occupied_cells_block_unless_ignored() {
    let mut searcher = QTreeSearcher::new();
    let f = |r: Rect| {
        if r[0] == 3 {
            CellState::Occupied(7)
        } else {
            CellState::Free
        }
    };
    searcher.initialize((8, 8), &f).unwrap();
    let none = |_: usize| false;
    let (res, _) = searcher.path_find(&none, [1, 1], [6, 1]);
    assert_eq!(res, Err(PathFindError::SearchFailed));
    let seven = |id: usize| id == 7;
    let (res, _) = searcher.path_find(&seven, [1, 1], [6, 1]);
    assert!(res.is_ok());
}

#[test]
fn contour_of_a_free_board() {
    let board = vec![true; 64];
    let mut b2 = board.clone();
    b2[0] = false;
    let searcher = searcher_for(&b2, (8, 8));
    let all = |_: usize| true;
    let tree = searcher.get_qtree();
    // Outside the board there is nothing to start from.
    assert_eq!(tree.find_contour(&all, [-9, 0], 1), None);
    // On an obstacle neither.
    assert_eq!(tree.find_contour(&all, [0, 0], 1), None);
    let contour = tree.find_contour(&all, [7, 7], 1).unwrap();
    assert!(!contour.is_empty());
    for c in &contour {
        assert!(cell_free(&searcher, &b2, *c));
    }
    // A distance farther than any cell leaves nothing to return.
    assert_eq!(tree.find_contour(&all, [7, 7], 1000), Some(vec![]));
    let _ = SearchTree::new();
}

#[test]
fn neighbors_are_the_touching_cells() {
    let mut board = wall_board();
    board[5 + 6 * 8] = false;
    board[6 + 2 * 8] = false;
    let searcher = searcher_for(&board, (8, 8));
    let tree = searcher.get_qtree();
    // the uniform cells of the tree, one per region of pixels
    let mut leaves: Vec<QTreeIdx> = vec![];
    for y in 0..8 {
        for x in 0..8 {
            let c = cell_holding(&searcher, [x, y]);
            if !leaves.contains(&c) {
                leaves.push(c);
            }
        }
    }
    for c in &leaves {
        let mut found = tree.find_neighbors(c.0, c.1);
        found.sort();
        let mut touching: Vec<QTreeIdx> = leaves.iter().copied().filter(|n| touch(&searcher, *c, *n)).collect();
        touching.sort();
        assert_eq!(found, touching, "neighbors of {c:?}");
    }
}
