use swarm_rs::boards::{crank_board, crank_pixel, fill_board, rect_board, rect_pixel};
use swarm_rs::game::{classify_rect, new_qtree, pixel_state_at, update_rect};
use swarm_rs::qtree::CellState;

#[test]
fn rect_board_is_a_centered_rectangle() {
    let board = rect_board((8, 8));
    assert_eq!(board.len(), 64);
    let free: Vec<usize> = (0..64).filter(|i| board[*i]).collect();
    // |x - 4| < 2 and |y - 4| < 2
    let expected: Vec<usize> = (0..64usize).filter(|i| {
        let (x, y) = ((i % 8) as isize, (i / 8) as isize);
        (x - 4).abs() < 2 && (y - 4).abs() < 2
    }).collect();
    assert_eq!(free, expected);
    assert_eq!(free, vec![27, 28, 29, 35, 36, 37, 43, 44, 45]);
    assert!(rect_pixel((8, 8), 4, 4));
    assert!(!rect_pixel((8, 8), 2, 4));
}

#[test]
fn crank_board_matches_its_formula() {
    let shape = (32usize, 32usize);
    let board = crank_board(shape);
    let (xs, ys) = (shape.0 as isize, shape.1 as isize);
    for i in 0..board.len() {
        let (xi, yi) = (i % shape.0, i / shape.0);
        let dx = xi as isize - xs / 2;
        let dy = yi as isize - ys / 2;
        let expected = dx.abs() < xs * 3 / 8
            && dy.abs() < ys / 8
            && !(-xs * 3 / 16 < dx && dx < -xs * 2 / 16 && -ys / 16 < dy)
            && !(xs * 2 / 16 < dx && dx < xs * 3 / 16 && dy < ys / 16);
        assert_eq!(board[i], expected, "pixel {xi} {yi}");
        assert_eq!(crank_pixel(shape, xi, yi), expected);
    }
    assert!(board.iter().any(|b| *b));
}

#[test]
fn fill_board_stores_rows_of_the_board_width() {
    // On a 3x2 board, pixel 5 is column 2 of row 1.
    let board = fill_board((3, 2), &|x: usize, y: usize| x == 2 && y == 1);
    assert_eq!(board, vec![false, false, false, false, false, true]);
    let empty = fill_board((0, 5), &|_x: usize, _y: usize| true);
    assert!(empty.is_empty());
}

#[test]
fn classify_pixels_and_rects() {
    // 4x4 board with an obstacle at (0, 0) and an entity box over (2..=3, 2..=3)
    let mut board = vec![true; 16];
    board[0] = false;
    let boxes = vec![(7usize, [2i64, 2, 3, 3]), (8usize, [3i64, 3, 3, 3])];
    assert_eq!(pixel_state_at(&board, (4, 4), &boxes, 0, 0), CellState::Obstacle);
    assert_eq!(pixel_state_at(&board, (4, 4), &boxes, -1, 0), CellState::Obstacle);
    assert_eq!(pixel_state_at(&board, (4, 4), &boxes, 1, 0), CellState::Free);
    assert_eq!(pixel_state_at(&board, (4, 4), &boxes, 3, 3), CellState::Occupied(7));
    assert_eq!(classify_rect(&board, (4, 4), &boxes, [0, 0, 2, 2]), CellState::Mixed);
    assert_eq!(classify_rect(&board, (4, 4), &boxes, [2, 0, 4, 2]), CellState::Free);
    assert_eq!(classify_rect(&board, (4, 4), &boxes, [2, 2, 4, 4]), CellState::Occupied(7));
    assert_eq!(classify_rect(&board, (4, 4), &boxes, [2, 2, 2, 4]), CellState::Obstacle);
    assert_eq!(classify_rect(&board, (4, 4), &boxes, [4, 0, 6, 2]), CellState::Obstacle);
}

#[test]
fn new_qtree_follows_the_pixels() {
    let mut board = vec![true; 16];
    board[0] = false;
    let boxes = vec![(7usize, [2i64, 2, 3, 3])];
    let searcher = new_qtree((4, 4), &board, &boxes);
    assert_eq!(searcher.find_by_idx([0, 0]).map(|f| f.1), Some(CellState::Obstacle));
    assert_eq!(searcher.find_by_idx([3, 3]).map(|f| f.1), Some(CellState::Occupied(7)));
    assert_eq!(searcher.find_by_idx([3, 0]).map(|f| f.1), Some(CellState::Free));
    // the free quadrant on the upper right is one cell
    assert_eq!(searcher.find_by_idx([3, 0]).map(|f| f.0), Some(1));
    let tiny = new_qtree((1, 1), &[true], &[]);
    assert_eq!(tiny.find_by_idx([0, 0]), None);
}

#[test]
fn entities_move_through_the_tree() {
    let mut board = vec![true; 16];
    board[15] = false;
    let mut searcher = new_qtree((4, 4), &board, &[]);
    assert_eq!(searcher.find_by_idx([2, 2]).map(|f| f.1), Some(CellState::Free));
    searcher.start_update();
    update_rect(&mut searcher, &board, (4, 4), [2, 2, 4, 4], Some(5));
    searcher.finish_update();
    assert_eq!(searcher.find_by_idx([2, 2]).map(|f| f.1), Some(CellState::Occupied(5)));
    assert_eq!(searcher.find_by_idx([3, 2]).map(|f| f.1), Some(CellState::Occupied(5)));
    // the obstacle under the box stays
    assert_eq!(searcher.find_by_idx([3, 3]).map(|f| f.1), Some(CellState::Obstacle));
    assert_eq!(searcher.find_by_idx([1, 1]).map(|f| f.1), Some(CellState::Free));
    // a box partly off the board is written where it lies on it
    searcher.start_update();
    update_rect(&mut searcher, &board, (4, 4), [2, 2, 6, 6], None);
    searcher.finish_update();
    assert_eq!(searcher.find_by_idx([2, 2]).map(|f| f.1), Some(CellState::Free));
    assert_eq!(searcher.find_by_idx([3, 3]).map(|f| f.1), Some(CellState::Obstacle));
}
