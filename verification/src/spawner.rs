//! Spawners: their health and resource, and the task of producing an agent.

use vstd::prelude::*;
use crate::agent::agent_class::AgentClass;

verus! {

/// The health of a spawner when it is built.
pub const SPAWNER_MAX_HEALTH: u32 = 1000;

/// The most resource a spawner holds.
pub const SPAWNER_MAX_RESOURCE: i32 = 1000;

/// Takes `amount` off `health`, stopping at zero, and tells whether nothing is left.
pub fn damage(health: &mut u32, amount: u32) -> (destroyed: bool)
    ensures
        *final(health) == if *old(health) >= amount { (*old(health) - amount) as u32 } else { 0u32 },
        destroyed == (*final(health) == 0),
{
    *health = health.saturating_sub(amount);
    *health == 0
}

/// Takes `amount` off `resource`, stopping at zero.
pub fn remove_resource(resource: &mut i32, amount: i32)
    requires
        i32::MIN <= *old(resource) - amount <= i32::MAX,
    ensures
        *final(resource) == if *old(resource) - amount > 0 { *old(resource) - amount } else { 0 },
{
    let left = *resource - amount;
    *resource = if left > 0 { left } else { 0 };
}

/// The integer state of a spawner: who it is, its health and resource, and the agent it is
/// producing, as the class with the ticks still to wait.
pub struct Spawner {
    pub id: usize,
    pub team: usize,
    pub active: bool,
    pub health: u32,
    pub resource: i32,
    pub spawn_progress: Option<(usize, AgentClass)>,
    pub spawn_result: Option<bool>,
}

/// The spawn task after one tick, and the class of the agent to spawn on that tick, if any:
/// a waiting task counts down; a finished one spawns when the resource pays for the class and
/// the team has fewer agents of it than the limit.
pub open spec fn spawn_step(
    progress: Option<(usize, AgentClass)>, resource: i32, agent_count: usize, agent_limit: usize,
) -> (Option<(usize, AgentClass)>, Option<AgentClass>) {
    match progress {
        Some((remaining, class)) => if 1 <= remaining {
            (Some(((remaining - 1) as usize, class)), None)
        } else if resource < class.cost_spec() || agent_limit <= agent_count {
            (progress, None)
        } else {
            (None, Some(class))
        },
        None => (None, None),
    }
}

/// The spawn task after `n` ticks from `progress`, with the same resource and count each tick,
/// and the class spawned on the last of them.
pub open spec fn spawn_run(
    progress: Option<(usize, AgentClass)>, resource: i32, agent_count: usize, agent_limit: usize, n: nat,
) -> (Option<(usize, AgentClass)>, Option<AgentClass>)
    decreases n,
{
    if n <= 1 {
        spawn_step(progress, resource, agent_count, agent_limit)
    } else {
        spawn_run(spawn_step(progress, resource, agent_count, agent_limit).0, resource, agent_count, agent_limit, (n - 1) as nat)
    }
}

/// The spawn law: a task just started for `class` waits `class.time()` ticks and spawns its
/// agent on the tick after them, when the resource pays for it and the team is under the limit.
pub proof fn lemma_spawn_after_time(class: AgentClass, resource: i32, agent_count: usize, agent_limit: usize, k: nat)
    requires
        1 <= k <= class.time_spec() + 1,
    ensures
        spawn_run(Some((class.time_spec(), class)), resource, agent_count, agent_limit, k) == if k <= class.time_spec() {
            (Some(((class.time_spec() - k) as usize, class)), None)
        } else if resource < class.cost_spec() || agent_limit <= agent_count {
            (Some((0usize, class)), None)
        } else {
            (None, Some(class))
        },
{
    lemma_spawn_countdown(class.time_spec(), class, resource, agent_count, agent_limit, k);
}

proof fn lemma_spawn_countdown(remaining: usize, class: AgentClass, resource: i32, agent_count: usize, agent_limit: usize, k: nat)
    requires
        1 <= k <= remaining + 1,
    ensures
        spawn_run(Some((remaining, class)), resource, agent_count, agent_limit, k) == if k <= remaining {
            (Some(((remaining - k) as usize, class)), None)
        } else if resource < class.cost_spec() || agent_limit <= agent_count {
            (Some((0usize, class)), None)
        } else {
            (None, Some(class))
        },
    decreases k,
{
    if k > 1 {
        lemma_spawn_countdown((remaining - 1) as usize, class, resource, agent_count, agent_limit, (k - 1) as nat);
    }
}

impl Spawner {
    /// A spawner of `team` at full health with no resource, taking the next id from `id_gen`.
    pub fn new(id_gen: &mut usize, team: usize) -> (res: Self)
        requires
            *old(id_gen) < usize::MAX,
        ensures
            res.id == *old(id_gen),
            *final(id_gen) == *old(id_gen) + 1,
            res.team == team,
            res.active,
            res.health == SPAWNER_MAX_HEALTH,
            res.resource == 0,
            res.spawn_progress is None,
            res.spawn_result is None,
    {
        let id = *id_gen;
        *id_gen += 1;
        Spawner {
            id,
            team,
            active: true,
            health: SPAWNER_MAX_HEALTH,
            resource: 0,
            spawn_progress: None,
            spawn_result: None,
        }
    }

    /// The resource grows by one each tick while it cannot yet pay for a worker.
    pub fn regenerate(&mut self)
        ensures
            final(self).resource == if old(self).resource < AgentClass::Worker.cost_spec() {
                old(self).resource + 1
            } else {
                old(self).resource as int
            },
            final(self).spawn_progress == old(self).spawn_progress,
            final(self).spawn_result == old(self).spawn_result,
            final(self).health == old(self).health,
    {
        if self.resource < AgentClass::Worker.cost() {
            self.resource += 1;
        }
    }

    /// Starts producing an agent of `class` unless a task is under way already; answers with
    /// the outcome of the last finished task, if any.
    pub fn start_spawn(&mut self, class: AgentClass) -> (res: Option<bool>)
        ensures
            final(self).spawn_progress == if old(self).spawn_progress is None {
                Some((class.time_spec(), class))
            } else {
                old(self).spawn_progress
            },
            res == old(self).spawn_result,
            final(self).spawn_result == old(self).spawn_result,
            final(self).resource == old(self).resource,
    {
        if self.spawn_progress.is_none() {
            self.spawn_progress = Some((class.time(), class));
        }
        self.spawn_result
    }

    /// One tick of the spawn task: gives the class of the agent to spawn now, if any (see
    /// `spawn_step`). The resource is paid when the agent is placed.
    pub fn try_spawn(&mut self, agent_count: usize, agent_limit: usize) -> (res: Option<AgentClass>)
        ensures
            (final(self).spawn_progress, res) == spawn_step(old(self).spawn_progress, old(self).resource, agent_count, agent_limit),
            final(self).spawn_result == if res is Some { Some(true) } else { old(self).spawn_result },
            final(self).resource == old(self).resource,
    {
        if let Some((remaining, class)) = self.spawn_progress {
            if 1 <= remaining {
                self.spawn_progress = Some((remaining - 1, class));
                return None;
            }
            if self.resource < class.cost() {
                return None;
            }
            if agent_count < agent_limit {
                self.spawn_progress = None;
                self.spawn_result = Some(true);
                return Some(class);
            }
        }
        None
    }

    /// Drops the task under way, and tells whether there was one.
    pub fn cancel_task(&mut self) -> (res: bool)
        ensures
            res == old(self).spawn_progress is Some,
            final(self).spawn_progress is None,
            final(self).spawn_result == old(self).spawn_result,
            final(self).resource == old(self).resource,
    {
        if self.spawn_progress.is_some() {
            self.spawn_progress = None;
            true
        } else {
            false
        }
    }

    /// Takes `amount` off the spawner's health, and tells whether it is destroyed.
    pub fn damage(&mut self, amount: u32) -> (destroyed: bool)
        ensures
            final(self).health == if old(self).health >= amount { (old(self).health - amount) as u32 } else { 0u32 },
            destroyed == (final(self).health == 0),
            final(self).resource == old(self).resource,
    {
        self::damage(&mut self.health, amount)
    }

    /// Takes `amount` off the spawner's resource, stopping at zero.
    pub fn remove_resource(&mut self, amount: i32)
        requires
            i32::MIN <= old(self).resource - amount <= i32::MAX,
        ensures
            final(self).resource == if old(self).resource - amount > 0 { old(self).resource - amount } else { 0 },
            final(self).health == old(self).health,
    {
        self::remove_resource(&mut self.resource, amount)
    }
}

} // verus!
