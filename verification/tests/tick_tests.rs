use swarm_rs::xor128::Xor128;
use swarm_rs::agent::avoidance::{count_from_grid_map, insert_to_grid_map, new_grid_map};
use swarm_rs::dijkstra::label;
use swarm_rs::game::{new_qtree, TeamStats, UpdateResult};
use swarm_rs::marching_squares::{trace_lines, BoolField};
use swarm_rs::qtree::qtree::QTree;
use swarm_rs::qtree::CellState;
use swarm_rs::tick::{finish_tick, refresh_qtree};

fn stats() -> [TeamStats; 2] {
    [
        TeamStats { spawned: 1, kills: 2, wins: 0 },
        TeamStats { spawned: 3, kills: 4, wins: 5 },
    ]
}

#[test]
fn tick_keeps_active_entities_and_counts() {
    let mut s = stats();
    // (team, is_agent, active)
    let entities = [(0, false, true), (1, true, false), (1, false, true), (0, true, true)];
    let (time, kept, outcome) = finish_tick(9, &mut s, [1, 2], [0, 3], &entities);
    assert_eq!(time, 10);
    assert_eq!(kept, vec![0, 2, 3]);
    assert_eq!(outcome, UpdateResult::Running);
    assert_eq!((s[0].kills, s[1].kills), (3, 6));
    assert_eq!((s[0].spawned, s[1].spawned), (1, 6));
    assert_eq!((s[0].wins, s[1].wins), (0, 5));
}

#[test]
fn team_without_spawner_loses() {
    let mut s = stats();
    // team 1's spawner is gone: team 0 wins
    let entities = [(0, false, true), (1, false, false), (1, true, true)];
    let (_, kept, outcome) = finish_tick(0, &mut s, [0, 0], [0, 0], &entities);
    assert_eq!(kept, vec![0, 2]);
    assert_eq!(outcome, UpdateResult::TeamWon(0));
    assert_eq!((s[0].wins, s[1].wins), (1, 5));
    // with no spawner at all, team 0 is checked first and team 1 wins
    let mut s = stats();
    let (_, kept, outcome) = finish_tick(0, &mut s, [0, 0], [0, 0], &[(0, true, true)]);
    assert_eq!(kept, vec![0]);
    assert_eq!(outcome, UpdateResult::TeamWon(1));
    assert_eq!((s[0].wins, s[1].wins), (0, 6));
}

#[test]
fn refresh_clears_old_boxes_and_writes_new_ones() {
    let mut board = vec![true; 16];
    board[15] = false;
    let mut searcher = new_qtree((4, 4), &board, &[]);
    refresh_qtree(&mut searcher, &board, (4, 4), &[], &[(5, true, [0, 0, 2, 2])]);
    assert_eq!(searcher.find_by_idx([1, 1]).map(|f| f.1), Some(CellState::Occupied(5)));
    // the entity moved: its old box is cleared, its new one written; a dead entity leaves background
    refresh_qtree(&mut searcher, &board, (4, 4), &[[0, 0, 2, 2]], &[(5, true, [2, 2, 4, 4]), (6, false, [0, 0, 1, 1])]);
    assert_eq!(searcher.find_by_idx([1, 1]).map(|f| f.1), Some(CellState::Free));
    assert_eq!(searcher.find_by_idx([0, 0]).map(|f| f.1), Some(CellState::Free));
    assert_eq!(searcher.find_by_idx([2, 2]).map(|f| f.1), Some(CellState::Occupied(5)));
    assert_eq!(searcher.find_by_idx([3, 3]).map(|f| f.1), Some(CellState::Obstacle));
}

#[test]
fn label_numbers_regions_in_scan_order() {
    let board = [true, false, true, true, false, true];
    assert_eq!(label(&board, (3, 2)), vec![1, 0, 2, 1, 0, 2]);
    let board = [false, true, true, false, false, true, true, false, true];
    assert_eq!(label(&board, (3, 3)), vec![0, 1, 1, 0, 0, 1, 2, 0, 1]);
}

#[test]
fn trace_lines_of_a_single_cell() {
    let f = [false, false, false, false, true, false, false, false, false];
    let lines = trace_lines(&BoolField::new(&f, (3, 3)));
    assert_eq!(lines, vec![vec![[0, 0], [0, 1], [1, 1], [1, 0], [0, 0]]]);
}

#[test]
fn merging_four_free_cells_frees_their_parent() {
    let mut q = QTree::new();
    q.toplevel = 1;
    q.insert(0, [0, 0], CellState::Mixed);
    for p in [[0, 0], [1, 0], [0, 1], [1, 1]] {
        q.insert(1, p, CellState::Free);
    }
    q.try_merge(1, [1, 1]);
    assert!(q.levels[1].is_empty());
    assert_eq!(q.levels[0].len(), 1);
    assert_eq!(q.find_by_idx([1, 0]), Some((0, CellState::Free)));
    // siblings that differ are left as they are
    let mut q = QTree::new();
    q.toplevel = 1;
    q.insert(0, [0, 0], CellState::Mixed);
    for p in [[0, 0], [1, 0], [0, 1]] {
        q.insert(1, p, CellState::Occupied(3));
    }
    q.insert(1, [1, 1], CellState::Obstacle);
    q.try_merge(1, [0, 0]);
    assert_eq!(q.levels[1].len(), 4);
    assert_eq!(q.find_by_idx([1, 1]), Some((1, CellState::Obstacle)));
}

#[test]
fn trace_lines_finds_each_separate_contour() {
    let mut f = vec![false; 15];
    f[1 + 5] = true;
    f[3 + 5] = true;
    let lines = trace_lines(&BoolField::new(&f, (5, 3)));
    assert_eq!(
        lines,
        vec![
            vec![[0, 0], [0, 1], [1, 1], [1, 0], [0, 0]],
            vec![[2, 0], [2, 1], [3, 1], [3, 0], [2, 0]],
        ]
    );
}

#[test]
fn new_grid_map_counts_each_node_once() {
    let mut g = new_grid_map();
    assert_eq!(count_from_grid_map(&mut g, [1, 2]), 0);
    insert_to_grid_map(&mut g, [1, 2], 7);
    assert_eq!(count_from_grid_map(&mut g, [1, 2]), 1);
    insert_to_grid_map(&mut g, [1, 2], 7);
    assert_eq!(count_from_grid_map(&mut g, [1, 2]), 1);
    insert_to_grid_map(&mut g, [1, 2], 8);
    assert_eq!(count_from_grid_map(&mut g, [1, 2]), 2);
    assert_eq!(count_from_grid_map(&mut g, [2, 1]), 0);
}

#[test]
fn qtree_of_an_empty_board_is_fresh() {
    let s = new_qtree((0, 0), &[], &[]);
    assert!(s.get_qtree().levels.is_empty());
    let s = new_qtree((1, 0), &[], &[]);
    assert!(s.get_qtree().levels.is_empty());
}

#[test]
fn room_corridors_reach_every_inner_room() {
    let rows = 5;
    let mut rand = Xor128::new(7);
    let conns = swarm_rs::rooms::connect_rooms(rows, &mut rand);
    // corridors join neighbors among the inner rooms, each once, smaller room first
    for (k, (a, b)) in conns.iter().enumerate() {
        assert!(1 <= a.0 && a.0 < rows && 1 <= a.1 && a.1 < rows);
        assert!((b.0 == a.0 + 1 && b.1 == a.1) || (b.0 == a.0 && b.1 == a.1 + 1));
        assert!(!conns[..k].contains(&(*a, *b)));
    }
    // a grid of 2 rows has one inner room and no corridor
    let mut rand = Xor128::new(1);
    assert!(swarm_rs::rooms::connect_rooms(2, &mut rand).is_empty());
    // on 3 rows the center has inner neighbors, so some corridor is dug
    let mut rand = Xor128::new(3);
    assert!(!swarm_rs::rooms::connect_rooms(3, &mut rand).is_empty());
}

#[test]
fn xorshift_draws_marsaglia_sequence() {
    let mut rand = Xor128::new(0);
    assert_eq!(rand.nexti(), 3701687786);
    assert_eq!(rand.nexti(), 458299110);
    assert_eq!(rand.nexti(), 2500872618);
    let mut other = Xor128::new(5);
    assert_ne!(other.nexti(), 3701687786);
}
