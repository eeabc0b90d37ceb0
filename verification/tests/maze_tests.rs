use swarm_rs::maze::maze_board;

fn free_cells_connected(board: &[bool], w: usize) -> bool {
    let start = w / 2 + (w / 2) * w;
    if !board[start] {
        return false;
    }
    let mut seen = vec![false; board.len()];
    let mut stack = vec![start];
    seen[start] = true;
    while let Some(i) = stack.pop() {
        let (x, y) = (i % w, i / w);
        let mut push = |j: usize| {
            if board[j] && !seen[j] {
                seen[j] = true;
                stack.push(j);
            }
        };
        if x > 0 {
            push(i - 1);
        }
        if x + 1 < w {
            push(i + 1);
        }
        if y > 0 {
            push(i - w);
        }
        if y + 1 < w {
            push(i + w);
        }
    }
    board.iter().zip(seen.iter()).all(|(b, s)| !b || *s)
}

#[test]
fn maze_is_one_connected_region() {
    for seed in [1u32, 7, 123513] {
        for (w, expansions) in [(8usize, 32usize), (16, 100), (64, 512), (128, 1024)] {
            let board = maze_board((w, w), seed, expansions);
            assert_eq!(board.len(), w * w);
            assert!(free_cells_connected(&board, w), "seed {seed} width {w}");
        }
    }
}

#[test]
fn maze_grows_beyond_the_center() {
    let board = maze_board((64, 64), 3, 512);
    let free = board.iter().filter(|b| **b).count();
    assert!(free > 64, "{free}");
    assert!(free < 64 * 64);
}

#[test]
fn maze_without_expansions_is_the_center_block() {
    let board = maze_board((16, 16), 3, 0);
    // the center cell of the coarsest resolution, 8 by 8 pixels
    for y in 0..16 {
        for x in 0..16 {
            assert_eq!(board[x + y * 16], x >= 8 && y >= 8, "{x} {y}");
        }
    }
}

#[test]
fn maze_is_reproducible() {
    let a = maze_board((32, 32), 42, 200);
    let b = maze_board((32, 32), 42, 200);
    assert_eq!(a, b);
}
