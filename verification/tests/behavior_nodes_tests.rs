use swarm_rs::agent::behavior_nodes::{NodeResult, ThrottleNode, TimeoutNode};

#[test]
fn throttle_runs_child_once_per_period() {
    let mut node = ThrottleNode::default();
    let ticks: Vec<bool> = (0..70).map(|_| node.step(Some(20))).collect();
    let runs: Vec<usize> = ticks.iter().enumerate().filter(|(_, t)| **t).map(|(i, _)| i + 1).collect();
    // the first tick sets the timer; then the child runs every 21 ticks
    assert_eq!(runs, vec![22, 43, 64]);
}

#[test]
fn throttle_without_time_never_runs() {
    let mut node = ThrottleNode::default();
    for _ in 0..5 {
        assert!(!node.step(None));
        assert_eq!(node.timer, None);
    }
}

#[test]
fn throttle_with_zero_time_runs_every_tick_after_the_first() {
    let mut node = ThrottleNode::default();
    assert!(!node.step(Some(0)));
    assert!(node.step(Some(0)));
    assert!(node.step(Some(0)));
}

#[test]
fn timeout_fails_then_runs_then_succeeds() {
    let mut node = TimeoutNode::default();
    let results: Vec<NodeResult> = (0..6).map(|_| node.step(Some(3))).collect();
    assert_eq!(
        results,
        vec![
            NodeResult::Fail,
            NodeResult::Running,
            NodeResult::Running,
            NodeResult::Running,
            NodeResult::Success,
            NodeResult::Fail
        ]
    );
    let mut node = TimeoutNode::default();
    assert_eq!(node.step(None), NodeResult::Fail);
    assert_eq!(node.timer, None);
}
