use swarm_rs::iterative_maze::{iterate_map, iterate_maze, ITERATIONS};

fn reference_step(board: &[bool], w: usize, h: usize) -> Vec<bool> {
    let mut next = board.to_vec();
    for y in 4..h - 4 {
        for x in 4..w - 4 {
            let count = |r: usize| {
                let mut c = 0;
                for ty in y - r..=y + r {
                    for tx in x - r..=x + r {
                        if !board[ty * w + tx] {
                            c += 1;
                        }
                    }
                }
                c
            };
            next[y * w + x] = !(12 <= count(2) || count(4) <= 8);
        }
    }
    next
}

fn pseudo_random_board(w: usize, h: usize, seed: u32) -> Vec<bool> {
    let mut s = seed | 1;
    let mut board = vec![false; w * h];
    for y in 4..h - 4 {
        for x in 4..w - 4 {
            s ^= s << 13;
            s ^= s >> 17;
            s ^= s << 5;
            board[x + y * w] = s % 10 >= 4;
        }
    }
    board
}

#[test]
fn one_run_matches_the_rule() {
    let (w, h) = (20, 16);
    let board = pseudo_random_board(w, h, 9);
    let mut temp = board.clone();
    iterate_map(&board, &mut temp, (w, h));
    assert_eq!(temp, reference_step(&board, w, h));
}

#[test]
fn seven_runs_match_the_rule() {
    let (w, h) = (24, 24);
    let board = pseudo_random_board(w, h, 77);
    let mut expected = board.clone();
    for _ in 0..ITERATIONS {
        expected = reference_step(&expected, w, h);
    }
    assert_eq!(iterate_maze(board, (w, h)), expected);
}

#[test]
fn walls_stay_walls_and_crowded_cells_close() {
    let (w, h) = (12, 12);
    let walls = vec![false; w * h];
    assert_eq!(iterate_maze(walls.clone(), (w, h)), walls);
    let mut open = vec![false; w * h];
    for y in 4..8 {
        for x in 4..8 {
            open[x + y * w] = true;
        }
    }
    let mut expected = open.clone();
    for _ in 0..ITERATIONS {
        expected = reference_step(&expected, w, h);
    }
    assert_eq!(iterate_maze(open.clone(), (w, h)), expected);
    // the corners of the open block are crowded by walls and close
    let once = reference_step(&open, w, h);
    assert!(!once[4 + 4 * w] && once[5 + 5 * w]);
}

#[test]
fn a_lone_free_cell_is_filled() {
    let (w, h) = (12, 12);
    let mut board = vec![false; w * h];
    board[5 + 6 * w] = true;
    let mut temp = board.clone();
    iterate_map(&board, &mut temp, (w, h));
    assert!(temp.iter().all(|b| !b));
}

#[test]
fn small_boards_are_left_alone() {
    let board = vec![true, false, true, false, true, false, true, false, true];
    let mut temp = board.clone();
    iterate_map(&board, &mut temp, (3, 3));
    assert_eq!(temp, board);
}
