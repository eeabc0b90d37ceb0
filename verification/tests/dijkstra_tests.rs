use swarm_rs::dijkstra::{dijkstra_fill, label, DijkstraField, Label};

#[test]
fn fill_costs_on_an_open_board() {
    let board = vec![true; 9];
    let mut costmap = vec![i32::MAX; 9];
    dijkstra_fill(&board, (3, 3), [0, 0], &mut costmap);
    assert_eq!(costmap, vec![0, 1, 2, 1, 2, 3, 2, 3, 4]);
}

#[test]
fn fill_stops_at_walls() {
    // . # .
    // . # .
    // . . .
    let board = vec![true, false, true, true, false, true, true, true, true];
    let mut costmap = vec![i32::MAX; 9];
    dijkstra_fill(&board, (3, 3), [0, 0], &mut costmap);
    assert_eq!(costmap, vec![0, i32::MAX, 6, 1, i32::MAX, 5, 2, 3, 4]);
}

#[test]
fn fill_keeps_cells_already_filled() {
    let board = vec![true; 4];
    let mut costmap = vec![i32::MAX, 7, i32::MAX, i32::MAX];
    dijkstra_fill(&board, (2, 2), [0, 0], &mut costmap);
    assert_eq!(costmap[1], 7);
    assert_eq!(costmap[0], 0);
    assert!(costmap.iter().all(|c| *c != i32::MAX));
}

#[test]
fn fill_marks_the_start_even_on_a_wall() {
    let board = vec![false; 4];
    let mut costmap = vec![i32::MAX; 4];
    dijkstra_fill(&board, (2, 2), [1, 1], &mut costmap);
    assert_eq!(costmap, vec![i32::MAX, i32::MAX, i32::MAX, 0]);
}

#[test]
fn labels_of_separate_regions() {
    // # . # .
    // . . # .
    let board = vec![false, true, false, true, true, true, false, true];
    let labels = label(&board, (4, 2));
    assert_eq!(labels, vec![0, 1, 0, 2, 1, 1, 0, 2]);
}

#[test]
fn labels_law_on_a_larger_board() {
    let shape = (6usize, 5usize);
    let mut board = vec![true; 30];
    for y in 0..5 {
        board[2 + y * 6] = y == 4;
    }
    board[4 + 6] = false;
    let labels = label(&board, shape);
    for y in 0..shape.1 {
        for x in 0..shape.0 {
            let i = x + y * shape.0;
            assert_eq!(board[i], labels[i] != 0);
            if board[i] && x + 1 < shape.0 && board[i + 1] {
                assert_eq!(labels[i], labels[i + 1]);
            }
            if board[i] && y + 1 < shape.1 && board[i + shape.0] {
                assert_eq!(labels[i], labels[i + shape.0]);
            }
        }
    }
    assert!(labels.iter().all(|l| *l <= 1));
}

#[test]
fn label_field_fills_with_its_label() {
    let mut f = Label { labels: vec![0; 4], label: 3 };
    assert!(!f.is_filled(1));
    f.fill(1, 9);
    assert!(f.is_filled(1));
    assert_eq!(f.labels, vec![0, 3, 0, 0]);
    let mut v = vec![i32::MAX; 2];
    assert!(!v.is_filled(0));
    v.fill(0, 5);
    assert!(v.is_filled(0));
    assert_eq!(v[0], 5);
}

/// Breadth-first distances computed directly, for comparison.
fn reference_distances(board: &[bool], shape: (usize, usize), start: (usize, usize)) -> Vec<i32> {
    let mut dist = vec![i32::MAX; board.len()];
    let mut queue = std::collections::VecDeque::new();
    dist[start.0 + start.1 * shape.0] = 0;
    queue.push_back(start);
    while let Some((x, y)) = queue.pop_front() {
        let d = dist[x + y * shape.0];
        let mut next = vec![];
        if x > 0 { next.push((x - 1, y)); }
        if y > 0 { next.push((x, y - 1)); }
        if x + 1 < shape.0 { next.push((x + 1, y)); }
        if y + 1 < shape.1 { next.push((x, y + 1)); }
        for (nx, ny) in next {
            let i = nx + ny * shape.0;
            if board[i] && dist[i] == i32::MAX {
                dist[i] = d + 1;
                queue.push_back((nx, ny));
            }
        }
    }
    dist
}

#[test]
fn fill_costs_are_shortest_distances() {
    let shape = (12usize, 9usize);
    let mut seed: u32 = 12345;
    for _round in 0..20 {
        let board: Vec<bool> = (0..shape.0 * shape.1)
            .map(|_| {
                seed = seed.wrapping_mul(1103515245).wrapping_add(12345);
                (seed >> 16) % 10 < 7
            })
            .collect();
        let start = ((seed as usize >> 3) % shape.0, (seed as usize >> 9) % shape.1);
        let mut costmap = vec![i32::MAX; board.len()];
        dijkstra_fill(&board, shape, [start.0 as i32, start.1 as i32], &mut costmap);
        assert_eq!(costmap, reference_distances(&board, shape, start));
    }
}
