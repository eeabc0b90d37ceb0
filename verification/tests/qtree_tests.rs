use swarm_rs::qtree::cache_map::CacheMap;
use swarm_rs::qtree::qtree::{blocked, QTree};
use swarm_rs::qtree::{log2ceil, CellState, Log2CeilError, QTreeSearcher, Rect};

#[test]
fn log2test() {
    assert!(log2ceil(0usize).is_err());
    assert!(log2ceil(1usize).is_err());
    assert_eq!(log2ceil(2usize), Ok(1));
    assert_eq!(log2ceil(3usize), Ok(2));
    assert_eq!(log2ceil(4usize), Ok(2));
    assert_eq!(log2ceil(5usize), Ok(3));
}

#[test]
fn log2ceil_powers_and_between() {
    assert_eq!(log2ceil(8), Ok(3));
    assert_eq!(log2ceil(9), Ok(4));
    assert_eq!(log2ceil(1024), Ok(10));
    assert_eq!(log2ceil(1025), Ok(11));
    assert_eq!(log2ceil(0), Err(Log2CeilError));
    assert_eq!(Log2CeilError.message(), "Log2 cannot receive 0");
}

/// An 8x8 board with a wall in the column x == 3, rows 0..6.
fn wall_board() -> Vec<bool> {
    let mut board = vec![true; 64];
    for y in 0..6 {
        board[3 + y * 8] = false;
    }
    board
}

fn searcher_for(board: &[bool], shape: (usize, usize)) -> QTreeSearcher {
    let mut searcher = QTreeSearcher::new();
    let b = board.to_vec();
    let f = move |r: Rect| {
        let (x, y) = (r[0] as usize, r[1] as usize);
        if x < shape.0 && y < shape.1 && b[x + y * shape.0] {
            CellState::Free
        } else {
            CellState::Obstacle
        }
    };
    searcher.initialize(shape, &f).unwrap();
    searcher
}

#[test]
fn initialize_rejects_tiny_shapes() {
    let mut searcher = QTreeSearcher::new();
    let f = |_r: Rect| CellState::Free;
    assert_eq!(searcher.initialize((1, 1), &f), Err(Log2CeilError));
    assert_eq!(searcher.initialize((0, 1), &f), Err(Log2CeilError));
    assert_eq!(searcher.initialize((0, 0), &f), Err(Log2CeilError));
    assert_eq!(searcher.initialize((1, 0), &f), Err(Log2CeilError));
    assert_eq!(searcher.get_qtree().levels.len(), 0);
}

#[test]
fn initialized_tree_has_one_root_and_exact_leaves() {
    let board = wall_board();
    let searcher = searcher_for(&board, (8, 8));
    assert_eq!(searcher.get_qtree().levels[0].len(), 1);
    assert_eq!(searcher.get_qtree().toplevel, 3);
    // writing the state a pixel already holds changes nothing
    let mut s2 = searcher_for(&board, (8, 8));
    let before: Vec<_> = (0..8).map(|l| s2.get_qtree().levels.get(l).map(|m| m.len())).collect();
    let st = s2.get_cache_map().get([0, 0]);
    assert_eq!(s2.update([0, 0], st), Ok(()));
    let after: Vec<_> = (0..8).map(|l| s2.get_qtree().levels.get(l).map(|m| m.len())).collect();
    assert_eq!(before, after);
}

#[test]
fn lookup_agrees_with_pixels() {
    let board = wall_board();
    let searcher = searcher_for(&board, (8, 8));
    for y in 0..8 {
        for x in 0..8 {
            let (_, state) = searcher.find_by_idx([x as i32, y as i32]).unwrap();
            assert_ne!(state, CellState::Mixed);
            assert_eq!(state == CellState::Free, board[x + y * 8], "pixel {x} {y}");
        }
    }
}

#[test]
fn free_board_is_one_cell() {
    let board = vec![true; 16];
    let searcher = searcher_for(&board, (4, 4));
    assert_eq!(searcher.find_by_idx([1, 2]), Some((0, CellState::Free)));
    assert_eq!(searcher.get_qtree().toplevel, 2);
    assert_eq!(searcher.get_cache_map().size(), 4);
}

#[test]
fn check_collision_finds_the_wall() {
    let board = wall_board();
    let searcher = searcher_for(&board, (8, 8));
    assert!(searcher.check_collision(&[2, 0, 5, 2]));
    assert!(!searcher.check_collision(&[0, 0, 3, 8]));
    assert!(!searcher.check_collision(&[3, 6, 4, 8]));
    assert!(!searcher.check_collision(&[5, 5, 5, 8]));
}

#[test]
fn update_changes_lookup_and_keeps_agreement() {
    let board = wall_board();
    let mut searcher = searcher_for(&board, (8, 8));
    searcher.start_update();
    assert_eq!(searcher.update([6, 6], CellState::Occupied(7)), Ok(()));
    assert_eq!(searcher.update([3, 0], CellState::Free), Ok(()));
    searcher.finish_update();
    assert_eq!(searcher.find_by_idx([6, 6]).map(|c| c.1), Some(CellState::Occupied(7)));
    assert_eq!(searcher.find_by_idx([3, 0]).map(|c| c.1), Some(CellState::Free));
    assert_eq!(searcher.get_cache_map().get([6, 6]), CellState::Occupied(7));
    for y in 0..8i32 {
        for x in 0..8i32 {
            let (_, state) = searcher.find_by_idx([x, y]).unwrap();
            assert_eq!(state, searcher.get_cache_map().get([x, y]), "pixel {x} {y}");
        }
    }
}

#[test]
fn update_out_of_bounds_is_an_error() {
    let board = vec![true; 16];
    let mut searcher = searcher_for(&board, (4, 4));
    searcher.start_update();
    assert_eq!(searcher.update([4, 0], CellState::Free), Err("Out of bounds!".to_string()));
    assert_eq!(searcher.update([-1, 0], CellState::Free), Err("Out of bounds!".to_string()));
    searcher.finish_update();
}

#[test]
fn fresh_cells_age_after_each_update() {
    let board = vec![true; 16];
    let mut searcher = searcher_for(&board, (4, 4));
    searcher.start_update();
    searcher.update([1, 1], CellState::Obstacle).unwrap();
    searcher.finish_update();
    let ticks = searcher.get_cache_map().fresh_cell_ticks([1, 1]);
    assert!(ticks > 0);
    searcher.start_update();
    searcher.finish_update();
    assert_eq!(searcher.get_cache_map().fresh_cell_ticks([1, 1]), ticks - 1);
    assert_eq!(searcher.get_cache_map().fresh_cell_ticks([0, 0]), 0);
}

#[test]
fn qtree_width_and_neighbors() {
    let board = wall_board();
    let searcher = searcher_for(&board, (8, 8));
    let tree: &QTree = searcher.get_qtree();
    assert_eq!(tree.width(0), 8);
    assert_eq!(tree.width(3), 1);
    assert_eq!(tree.to_idx([5, 6], 1), [1, 1]);
    assert_eq!(searcher.find_by_idx([5, 1]), Some((1, CellState::Free)));
    let n = tree.find_neighbors(1, [1, 0]);
    assert!(n.contains(&(1, [1, 1])), "{n:?}");
}

#[test]
fn cache_map_starts_empty() {
    let c = CacheMap::new();
    assert_eq!(c.size(), 0);
}

#[test]
fn blocked_cells() {
    let ignore = |id: usize| id == 3;
    assert!(blocked(CellState::Obstacle, &ignore));
    assert!(!blocked(CellState::Occupied(3), &ignore));
    assert!(blocked(CellState::Occupied(4), &ignore));
    assert!(!blocked(CellState::Free, &ignore));
    assert!(!blocked(CellState::Mixed, &ignore));
}
