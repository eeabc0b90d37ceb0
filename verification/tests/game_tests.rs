use swarm_rs::agent::agent_class::{AgentClass, AGENT_MAX_HEALTH, BULLET_DAMAGE};
use swarm_rs::agent::avoidance::{
    can_connect_goal, count_from_grid_map, insert_to_grid_map, AvoidanceRenderParams, GridMap, NodeLink,
};
use swarm_rs::agent::find_path::ignore_id;
use swarm_rs::agent::motion::{MotionCommandResult, MotionResult, OrientToResult};
use swarm_rs::game::{is_passable_at_i, AvoidanceMode, BoardType, TeamConfig, TeamStats, UpdateResult};
use swarm_rs::ui::{BTEditor, LineMode};
use std::collections::HashSet;

#[test]
fn passable_at_integer_positions() {
    // . #
    // . .
    // # .
    let board = vec![true, false, true, true, false, true];
    let shape = (2, 3);
    assert!(is_passable_at_i(&board, shape, [0, 0]));
    assert!(!is_passable_at_i(&board, shape, [1, 0]));
    assert!(is_passable_at_i(&board, shape, [1, 2]));
    assert!(!is_passable_at_i(&board, shape, [0, 2]));
    assert!(!is_passable_at_i(&board, shape, [-1, 0]));
    assert!(!is_passable_at_i(&board, shape, [2, 0]));
    assert!(!is_passable_at_i(&board, shape, [0, 3]));
}

#[test]
fn agent_class_tables() {
    assert_eq!(AgentClass::Worker.cost(), 100);
    assert_eq!(AgentClass::Fighter.cost(), 500);
    assert_eq!(AgentClass::Worker.time(), 200);
    assert_eq!(AgentClass::Fighter.time(), 1500);
    assert_eq!(AgentClass::Worker.health(), AGENT_MAX_HEALTH);
    assert_eq!(AgentClass::Fighter.health(), 300);
    assert_eq!(AgentClass::Worker.damage(), BULLET_DAMAGE);
    assert_eq!(AgentClass::Fighter.damage(), 100);
    assert_eq!(AgentClass::Worker.name(), "Worker");
    assert_eq!(AgentClass::Fighter.name(), "Fighter");
}

#[test]
fn motion_results() {
    assert_eq!(MotionResult::from(true), MotionResult::Following);
    assert_eq!(MotionResult::from(false), MotionResult::Blocked);
    assert!(bool::from(MotionResult::Following));
    assert!(!bool::from(MotionResult::Arrived));
    assert!(bool::from(OrientToResult::Arrived));
    assert!(!bool::from(OrientToResult::Approaching));

    let last = Some(MotionCommandResult::MoveTo(MotionResult::Arrived));
    assert_eq!(MotionCommandResult::as_move_to(&last), Some(MotionResult::Arrived));
    assert_eq!(MotionCommandResult::as_follow_path(&last), Some(MotionResult::Following));
    assert_eq!(MotionCommandResult::as_face_to_target(&last), None);
    assert_eq!(MotionCommandResult::as_drive(&last), None);
    let last = Some(MotionCommandResult::FollowPath(MotionResult::Blocked));
    assert_eq!(MotionCommandResult::as_follow_path(&last), Some(MotionResult::Blocked));
    assert_eq!(MotionCommandResult::as_move_to(&last), None);
    let last = Some(MotionCommandResult::FaceToTarget(OrientToResult::Blocked));
    assert_eq!(MotionCommandResult::as_face_to_target(&last), Some(OrientToResult::Blocked));
    let last = Some(MotionCommandResult::Drive(true));
    assert_eq!(MotionCommandResult::as_drive(&last), Some(true));
    assert_eq!(MotionCommandResult::as_follow_path(&None), None);
    assert_eq!(MotionCommandResult::as_move_to(&None), None);
}

#[test]
fn grid_map_counts_distinct_nodes() {
    let mut grid = GridMap::new();
    assert_eq!(count_from_grid_map(&mut grid, [1, -2]), 0);
    insert_to_grid_map(&mut grid, [1, -2], 5);
    insert_to_grid_map(&mut grid, [1, -2], 5);
    insert_to_grid_map(&mut grid, [1, -2], 6);
    insert_to_grid_map(&mut grid, [-2, 1], 7);
    assert_eq!(count_from_grid_map(&mut grid, [1, -2]), 2);
    assert_eq!(count_from_grid_map(&mut grid, [-2, 1]), 1);
    assert_eq!(count_from_grid_map(&mut grid, [0, 0]), 0);
}

fn link(from: Option<usize>, passable: bool) -> NodeLink {
    NodeLink { from, passable }
}

#[test]
fn walk_back_to_a_start_node() {
    // 0 <- 1 <- 2 <- 3, start nodes {1}
    let nodes = vec![link(None, true), link(Some(0), true), link(Some(1), true), link(Some(2), true)];
    let start: HashSet<usize> = [1].into_iter().collect();
    assert_eq!(can_connect_goal(&start, &nodes, 3), Some(vec![2, 1]));
    let start: HashSet<usize> = [0, 2].into_iter().collect();
    assert_eq!(can_connect_goal(&start, &nodes, 3), Some(vec![2]));
    let start: HashSet<usize> = HashSet::new();
    assert_eq!(can_connect_goal(&start, &nodes, 3), None);
    assert_eq!(can_connect_goal(&start, &nodes, 0), None);
}

#[test]
fn walk_back_fails_through_a_blocked_node() {
    let nodes = vec![link(None, true), link(Some(0), false), link(Some(1), true)];
    let start: HashSet<usize> = [0].into_iter().collect();
    assert_eq!(can_connect_goal(&start, &nodes, 2), None);
    let start: HashSet<usize> = [1].into_iter().collect();
    assert_eq!(can_connect_goal(&start, &nodes, 2), None);
}

#[test]
fn ignored_ids() {
    assert!(ignore_id(&[3, 5], 5));
    assert!(!ignore_id(&[3, 5], 4));
    assert!(!ignore_id(&[], 0));
}

#[test]
fn plain_settings() {
    let p = AvoidanceRenderParams::new();
    assert!(p.visible && !p.circle_visible && !p.shape_visible && !p.cost_visible && !p.grid_visible);
    let stats = TeamStats::default();
    assert_eq!((stats.spawned, stats.kills, stats.wins), (0, 0, 0));
    let config = TeamConfig::default();
    assert!(config.agent_source.is_empty() && config.spawner_source.is_empty());
    assert_ne!(BoardType::Maze, BoardType::Rooms);
    assert_ne!(AvoidanceMode::Rrt, AvoidanceMode::RrtStar);
    assert!(matches!(UpdateResult::TeamWon(1), UpdateResult::TeamWon(1)));
    assert_ne!(LineMode::NoLine, LineMode::Polygon);
    assert_ne!(BTEditor::Agent, BTEditor::Spawner);
}
