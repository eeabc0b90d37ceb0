//! The timers of the behavior tree nodes that count ticks: what each tick decides, given the
//! time that the node's port holds.

use vstd::prelude::*;

verus! {

/// The result of ticking a behavior tree node.
#[derive(Clone, Copy, Debug, PartialEq, Eq, Structural)]
pub enum NodeResult {
    Success,
    Fail,
    Running,
}

/// Throttle the execution of the child node by a given number of ticks. Useful to limit frequency of calling expensive operations.
///
/// If the child node fails, this node will fail too. Wrap the child node in a `ForceSuccess` to suppress this behavior.
#[derive(Clone, Copy, Debug, Default, PartialEq, Eq)]
pub struct ThrottleNode {
    pub timer: Option<usize>,
}

/// The timer of a throttle after a tick, and whether that tick runs the child.
pub open spec fn throttle_step(timer: Option<usize>, time: Option<usize>) -> (Option<usize>, bool) {
    match timer {
        Some(remaining) => if remaining == 0 { (time, true) } else { (Some((remaining - 1) as usize), false) },
        None => (time, false),
    }
}

impl ThrottleNode {
    /// One tick: a running timer counts down, and once it has run out the child is ticked and
    /// the timer is set again from `time`. A node without a timer only sets it. Returns whether
    /// the child is ticked now; otherwise the node succeeds without it.
    pub fn step(&mut self, time: Option<usize>) -> (tick_child: bool)
        ensures
            (final(self).timer, tick_child) == throttle_step(old(self).timer, time),
    {
        if let Some(remaining) = self.timer {
            if remaining == 0 {
                self.timer = time;
                return true;
            } else {
                self.timer = Some(remaining - 1);
                return false;
            }
        } else {
            self.timer = time;
        }
        false
    }
}

/// The timer of a throttle after `n` ticks from no timer, with `time` on its port each tick,
/// and how many of the ticks ran the child.
pub open spec fn throttle_run(time: usize, n: nat) -> (Option<usize>, nat)
    decreases n,
{
    if n == 0 {
        (None, 0)
    } else {
        let (timer, count) = throttle_run(time, (n - 1) as nat);
        let (next, ticked) = throttle_step(timer, Some(time));
        (next, count + if ticked { 1nat } else { 0nat })
    }
}

/// The throttle law: with `time` on its port, a throttle runs its child once in every
/// `time + 1` ticks; over the first `n` ticks it runs it `(n - 1) / (time + 1)` times, the
/// first tick only setting the timer.
pub proof fn lemma_throttle_period(time: usize, n: nat)
    requires
        n >= 1,
    ensures
        throttle_run(time, n) == (Some((time - (n - 1) % (time + 1)) as usize), ((n - 1) / (time + 1)) as nat),
    decreases n,
{
    let p = time + 1;
    if n > 1 {
        lemma_throttle_period(time, (n - 1) as nat);
        let m = n - 2;
        vstd::arithmetic::div_mod::lemma_fundamental_div_mod(m, p);
        vstd::arithmetic::div_mod::lemma_fundamental_div_mod(m + 1, p);
        vstd::arithmetic::div_mod::lemma_mod_bound(m, p);
        vstd::arithmetic::div_mod::lemma_mod_bound(m + 1, p);
        let q = m / p;
        let r = m % p;
        assert(m == q * p + r) by (nonlinear_arith) requires m == p * q + r;
        let prev = throttle_run(time, (n - 1) as nat);
        assert(prev == (Some((time - r) as usize), q as nat));
        assert(throttle_run(time, n) == ({
            let (next, ticked) = throttle_step(prev.0, Some(time));
            (next, prev.1 + if ticked { 1nat } else { 0nat })
        }));
        if r == time {
            assert(m + 1 == (q + 1) * p + 0) by (nonlinear_arith) requires m == q * p + r, r + 1 == p;
            vstd::arithmetic::div_mod::lemma_fundamental_div_mod_converse(m + 1, p, q + 1, 0);
            assert(n - 1 == m + 1);
        } else {
            vstd::arithmetic::div_mod::lemma_fundamental_div_mod_converse(m + 1, p, q, r + 1);
            assert(n - 1 == m + 1);
        }
    } else {
        vstd::arithmetic::div_mod::lemma_fundamental_div_mod_converse(0, p, 0, 0);
        assert(throttle_run(time, 0) == (None::<usize>, 0nat));
    }
}

/// A timer that makes its node run for a given number of ticks.
#[derive(Clone, Copy, Debug, Default, PartialEq, Eq)]
pub struct TimeoutNode {
    pub timer: Option<usize>,
}

/// The timer of a timeout node after a tick, and the tick's result.
pub open spec fn timeout_step(timer: Option<usize>, time: Option<usize>) -> (Option<usize>, NodeResult) {
    match timer {
        Some(remaining) => if remaining == 0 {
            (None, NodeResult::Success)
        } else {
            (Some((remaining - 1) as usize), NodeResult::Running)
        },
        None => match time {
            Some(input) => (Some(input), NodeResult::Fail),
            None => (None, NodeResult::Fail),
        },
    }
}

impl TimeoutNode {
    /// One tick: a node without a timer sets it from `time` and fails; a running timer counts
    /// down while the node runs, and the node succeeds once it has run out, dropping the timer.
    pub fn step(&mut self, time: Option<usize>) -> (res: NodeResult)
        ensures
            (final(self).timer, res) == timeout_step(old(self).timer, time),
    {
        if let Some(remaining) = self.timer {
            if remaining == 0 {
                self.timer = None;
                return NodeResult::Success;
            } else {
                self.timer = Some(remaining - 1);
                return NodeResult::Running;
            }
        } else if let Some(input) = time {
            self.timer = Some(input);
        }
        NodeResult::Fail
    }
}

/// The timer of a timeout node after `n` more ticks from the timer `timer`, with `time` on its
/// port each tick, and the result of the last of them.
pub open spec fn timeout_run(timer: Option<usize>, time: usize, n: nat) -> (Option<usize>, NodeResult)
    decreases n,
{
    if n <= 1 {
        timeout_step(timer, Some(time))
    } else {
        timeout_run(timeout_step(timer, Some(time)).0, time, (n - 1) as nat)
    }
}

/// The timeout law: a node whose timer was just set to `time` runs for `time` more ticks and
/// succeeds on the tick after them, dropping its timer.
pub proof fn lemma_timeout_runs(time: usize, k: nat)
    requires
        1 <= k <= time + 1,
    ensures
        timeout_run(Some(time), time, k) == if k <= time {
            (Some((time - k) as usize), NodeResult::Running)
        } else {
            (None, NodeResult::Success)
        },
{
    lemma_timeout_countdown(time, time, k);
}

proof fn lemma_timeout_countdown(remaining: usize, time: usize, k: nat)
    requires
        1 <= k <= remaining + 1,
    ensures
        timeout_run(Some(remaining), time, k) == if k <= remaining {
            (Some((remaining - k) as usize), NodeResult::Running)
        } else {
            (None, NodeResult::Success)
        },
    decreases k,
{
    if k > 1 {
        lemma_timeout_countdown((remaining - 1) as usize, time, (k - 1) as nat);
    }
}

} // verus!
