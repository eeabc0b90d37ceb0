//! The classes of agents and their integer characteristics.

use vstd::prelude::*;

verus! {

/// The health of a worker; a fighter has three times as much.
pub const AGENT_MAX_HEALTH: u32 = 100;

/// The damage of a worker's bullet; a fighter's does ten times as much.
pub const BULLET_DAMAGE: u32 = 10;

/// The kind of an agent.
#[derive(Debug, Clone, Copy, PartialEq, Eq, Structural)]
pub enum AgentClass {
    Worker,
    Fighter,
}

impl AgentClass {
    /// The resource a spawner spends on an agent of this class.
    pub open spec fn cost_spec(&self) -> i32 {
        match *self {
            AgentClass::Worker => 100i32,
            AgentClass::Fighter => 500i32,
        }
    }

    /// The ticks a spawner takes to produce an agent of this class.
    pub open spec fn time_spec(&self) -> usize {
        match *self {
            AgentClass::Worker => 200usize,
            AgentClass::Fighter => 1500usize,
        }
    }

    /// The resource a spawner spends on an agent of this class.
    pub fn cost(&self) -> (res: i32)
        ensures
            res == self.cost_spec(),
    {
        match self {
            Self::Worker => 100,
            Self::Fighter => 500,
        }
    }

    /// The ticks a spawner takes to produce an agent of this class.
    pub fn time(&self) -> (res: usize)
        ensures
            res == self.time_spec(),
    {
        match self {
            Self::Worker => 200,
            Self::Fighter => 1500,
        }
    }

    /// The health an agent of this class starts with.
    pub fn health(&self) -> (res: u32)
        ensures
            res == match *self {
                AgentClass::Worker => AGENT_MAX_HEALTH,
                AgentClass::Fighter => (AGENT_MAX_HEALTH * 3) as u32,
            },
    {
        match self {
            Self::Worker => AGENT_MAX_HEALTH,
            Self::Fighter => AGENT_MAX_HEALTH * 3,
        }
    }

    /// The damage a bullet of an agent of this class does.
    pub fn damage(&self) -> (res: u32)
        ensures
            res == match *self {
                AgentClass::Worker => BULLET_DAMAGE,
                AgentClass::Fighter => (BULLET_DAMAGE * 10) as u32,
            },
    {
        match self {
            Self::Worker => BULLET_DAMAGE,
            Self::Fighter => BULLET_DAMAGE * 10,
        }
    }

    /// The name of the class.
    pub fn name(&self) -> (res: &'static str)
        ensures
            res@ == match *self {
                AgentClass::Worker => "Worker"@,
                AgentClass::Fighter => "Fighter"@,
            },
    {
        match self {
            Self::Worker => "Worker",
            Self::Fighter => "Fighter",
        }
    }
}

} // verus!
