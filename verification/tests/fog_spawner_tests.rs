use swarm_rs::raycast::{fow_raycast, raycast_visibility};
use swarm_rs::agent::agent_class::AgentClass;
use swarm_rs::agent::behavior_nodes::NodeResult;
use swarm_rs::agent::resources::{collect_resource, deposit_resource, AGENT_MAX_RESOURCE};
use swarm_rs::fog::{occupancy_image, sat_sub, FogOfWar, BACKGROUND_COLOR, FOG_MAX_AGE, OBSTACLE_COLOR};
use swarm_rs::spawner::{damage, remove_resource, Spawner, SPAWNER_MAX_HEALTH, SPAWNER_MAX_RESOURCE};

#[test]
fn fog_starts_unseen() {
    let fog = FogOfWar::new(6);
    assert_eq!(fog.fow, vec![i32::MIN; 6]);
    // Without fog of war everything is clear, even off the board.
    assert!(fog.is_clear_at(false, (3, 2), 5, [-1, 0]));
    assert!(!fog.is_clear_at(true, (3, 2), 5, [0, 0]));
    assert!(!fog.is_clear_at(true, (3, 2), 5, [3, 0]));
    assert!(!fog.is_clear_at(true, (3, 2), 5, [0, -1]));
}

#[test]
fn fog_clears_where_seen() {
    let mut fog = FogOfWar::new(6);
    // pixel (1, 1) is index 1 + 1 * 3 = 4
    fog.fow[4] = 7;
    assert!(fog.is_clear_at(true, (3, 2), 7, [1, 1]));
    assert!(!fog.is_clear_at(true, (3, 2), 8, [1, 1]));
    assert!(fog.is_older_than(true, (3, 2), 10, [1, 1], 3));
    assert!(!fog.is_older_than(true, (3, 2), 10, [1, 1], 4));
    assert!(!fog.is_older_than(true, (3, 2), 10, [5, 1], 0));
    // never seen: the age saturates
    assert!(fog.is_older_than(true, (3, 2), 10, [0, 0], i32::MAX));
    assert!(fog.is_older_than(false, (3, 2), 10, [5, 1], i32::MAX));
}

#[test]
fn saturating_difference() {
    assert_eq!(sat_sub(5, 3), 2);
    assert_eq!(sat_sub(0, i32::MIN), i32::MAX);
    assert_eq!(sat_sub(i32::MIN, 1), i32::MIN);
    assert_eq!(sat_sub(5, 3), 5i32.saturating_sub(3));
}

#[test]
fn occupancy_image_without_fog() {
    let board = vec![true, false, true];
    let fog = FogOfWar::new(3);
    let (shape, img) = occupancy_image(&board, (3, 1), &fog, &fog, false, 0, &[true, true], true).unwrap();
    assert_eq!(shape, [3, 1]);
    assert_eq!(img, vec![191, 191, 191, 80, 80, 80, 191, 191, 191]);
    assert_eq!((BACKGROUND_COLOR, OBSTACLE_COLOR), (191, 80));
}

#[test]
fn occupancy_image_with_fog() {
    let board = vec![true, true, false];
    let mut f0 = FogOfWar::new(3);
    let mut f1 = FogOfWar::new(3);
    let t = 100;
    f0.fow = vec![t, t - 5, t];
    f1.fow = vec![t - FOG_MAX_AGE, t, i32::MIN];
    // no team shown: plain grays
    let (_, img) = occupancy_image(&board, (3, 1), &f0, &f1, true, t, &[false, false], false).unwrap();
    assert_eq!(img, vec![191, 191, 191, 191, 191, 191, 80, 80, 80]);
    // team 0 shown, colored: [c / 4, c0 / 2, c0]
    let (_, img) = occupancy_image(&board, (3, 1), &f0, &f1, true, t, &[true, false], true).unwrap();
    assert_eq!(&img[0..3], &[47, 95, 191]);
    assert_eq!(&img[3..6], &[47, 63, 127]);
    // both teams, gray: the later sighting counts
    let (_, img) = occupancy_image(&board, (3, 1), &f0, &f1, true, t, &[true, true], false).unwrap();
    assert_eq!(&img[0..3], &[95, 95, 191]);
    assert_eq!(&img[3..6], &[95, 95, 191]);
    assert_eq!(&img[6..9], &[40, 40, 80]);
    // both teams, colored: [c1 / 2, c0 / 2, max]
    let (_, img) = occupancy_image(&board, (3, 1), &f0, &f1, true, t, &[true, true], true).unwrap();
    assert_eq!(&img[0..3], &[47, 95, 191]);
    // team 1 only, colored, never seen by it: half
    let (_, img) = occupancy_image(&board, (3, 1), &f0, &f1, true, t, &[false, true], true).unwrap();
    assert_eq!(&img[6..9], &[20, 20, 40]);
    // the image stops at the shortest of board and fogs
    f1.fow.pop();
    let (_, img) = occupancy_image(&board, (3, 1), &f0, &f1, true, t, &[true, true], true).unwrap();
    assert_eq!(img.len(), 6);
}

#[test]
fn spawner_lifecycle() {
    let mut id_gen = 4;
    let mut sp = Spawner::new(&mut id_gen, 1);
    assert_eq!((sp.id, id_gen, sp.team, sp.health, sp.resource), (4, 5, 1, SPAWNER_MAX_HEALTH, 0));
    for _ in 0..150 {
        sp.regenerate();
    }
    // the resource stops growing at a worker's cost
    assert_eq!(sp.resource, AgentClass::Worker.cost());
    assert_eq!(sp.start_spawn(AgentClass::Worker), None);
    assert_eq!(sp.spawn_progress, Some((200, AgentClass::Worker)));
    // a second start keeps the task under way
    sp.start_spawn(AgentClass::Fighter);
    assert_eq!(sp.spawn_progress, Some((200, AgentClass::Worker)));
    for _ in 0..200 {
        assert_eq!(sp.try_spawn(0, 5), None);
    }
    assert_eq!(sp.spawn_progress, Some((0, AgentClass::Worker)));
    // at the limit it waits
    assert_eq!(sp.try_spawn(5, 5), None);
    assert_eq!(sp.try_spawn(4, 5), Some(AgentClass::Worker));
    assert_eq!(sp.spawn_progress, None);
    assert_eq!(sp.spawn_result, Some(true));
    assert_eq!(sp.start_spawn(AgentClass::Fighter), Some(true));
    assert!(sp.cancel_task());
    assert!(!sp.cancel_task());
    sp.remove_resource(AgentClass::Worker.cost());
    assert_eq!(sp.resource, 0);
    sp.remove_resource(5);
    assert_eq!(sp.resource, 0);
    assert!(!sp.damage(999));
    assert!(sp.damage(5));
    assert_eq!(sp.health, 0);
    assert_eq!(SPAWNER_MAX_RESOURCE, 1000);
}

#[test]
fn spawn_needs_resource() {
    let mut id_gen = 0;
    let mut sp = Spawner::new(&mut id_gen, 0);
    sp.start_spawn(AgentClass::Fighter);
    for _ in 0..1500 {
        assert_eq!(sp.try_spawn(0, 5), None);
    }
    sp.resource = 499;
    assert_eq!(sp.try_spawn(0, 5), None);
    sp.resource = 500;
    assert_eq!(sp.try_spawn(0, 5), Some(AgentClass::Fighter));
}

#[test]
fn damage_and_resource_helpers() {
    let mut h = 10u32;
    assert!(!damage(&mut h, 3));
    assert_eq!(h, 7);
    assert!(damage(&mut h, 30));
    assert_eq!(h, 0);
    let mut r = 50;
    remove_resource(&mut r, 20);
    assert_eq!(r, 30);
    remove_resource(&mut r, -5);
    assert_eq!(r, 35);
}

#[test]
fn collecting_moves_resource() {
    let mut held = 0;
    let mut amounts = vec![5, 30, 40];
    let reach = [false, true, true];
    assert_eq!(collect_resource(&mut held, &mut amounts, &reach), NodeResult::Running);
    assert_eq!((held, amounts.clone()), (10, vec![5, 20, 40]));
    for _ in 0..2 {
        collect_resource(&mut held, &mut amounts, &reach);
    }
    assert_eq!((held, amounts.clone()), (30, vec![5, 0, 40]));
    assert_eq!(collect_resource(&mut held, &mut amounts, &reach), NodeResult::Running);
    assert_eq!((held, amounts.clone()), (40, vec![5, 0, 30]));
    held = 95;
    assert_eq!(collect_resource(&mut held, &mut amounts, &reach), NodeResult::Running);
    assert_eq!((held, amounts.clone()), (AGENT_MAX_RESOURCE, vec![5, 0, 25]));
    assert_eq!(collect_resource(&mut held, &mut amounts, &reach), NodeResult::Fail);
    let mut held = 0;
    let mut none = vec![5, 0];
    assert_eq!(collect_resource(&mut held, &mut none, &[false, true]), NodeResult::Success);
    assert_eq!((held, none), (0, vec![5, 0]));
}

#[test]
fn depositing_moves_resource() {
    let mut held = 0;
    let mut spawners = vec![990, 100];
    let eligible = [true, true];
    assert_eq!(deposit_resource(&mut held, &mut spawners, &eligible), NodeResult::Fail);
    held = 25;
    assert_eq!(deposit_resource(&mut held, &mut spawners, &eligible), NodeResult::Running);
    assert_eq!((held, spawners.clone()), (15, vec![1000, 100]));
    assert_eq!(deposit_resource(&mut held, &mut spawners, &eligible), NodeResult::Running);
    assert_eq!((held, spawners.clone()), (5, vec![1000, 110]));
    assert_eq!(deposit_resource(&mut held, &mut spawners, &eligible), NodeResult::Success);
    assert_eq!((held, spawners.clone()), (0, vec![1000, 115]));
    let mut held = 7;
    let mut full = vec![1000, 3];
    assert_eq!(deposit_resource(&mut held, &mut full, &[true, false]), NodeResult::Success);
    assert_eq!((held, full), (7, vec![1000, 3]));
}

#[test]
fn raycast_sees_the_open_circle() {
    let board = vec![true; 25];
    let graph: Vec<Vec<[i32; 2]>> = vec![vec![]; 4];
    let mut fog = FogOfWar::new(25);
    let vis = fow_raycast(&mut fog, &board, (5, 5), [2, 2], &graph, 2, 7);
    assert_eq!(vis, vec![true; 9]);
    for y in 0..5 {
        for x in 0..5 {
            let seen = (1..=3).contains(&x) && (1..=3).contains(&y);
            assert_eq!(fog.fow[x + y * 5], if seen { 7 } else { i32::MIN }, "{x} {y}");
        }
    }
}

#[test]
fn raycast_obstacle_casts_its_shadow() {
    let mut board = vec![true; 25];
    board[3 + 2 * 5] = false;
    let mut graph: Vec<Vec<[i32; 2]>> = vec![vec![]; 4];
    graph[1] = vec![[1, 1]];
    let vis = raycast_visibility(&board, (5, 5), [2, 2], &graph, 2);
    assert_eq!(vis, vec![true, true, false, true, true, false, true, true, false]);
    let mut fog = FogOfWar::new(25);
    fow_raycast(&mut fog, &board, (5, 5), [2, 2], &graph, 2, 3);
    assert_eq!(fog.fow[3 + 2 * 5], i32::MIN);
    assert_eq!(fog.fow[3 + 1 * 5], i32::MIN);
    assert_eq!(fog.fow[1 + 1 * 5], 3);
    // Out of the circle of radius 4 only the far corners of the map are hidden.
    let wide = raycast_visibility(&vec![true; 81], (9, 9), [4, 4], &vec![vec![]; 16], 4);
    assert_eq!(wide.iter().filter(|v| !**v).count(), 4);
}
