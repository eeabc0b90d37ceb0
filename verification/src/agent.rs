//! Agents: their classes, the results of their motion commands, and the bookkeeping of their
//! avoidance search and path finding.

pub mod agent_class;
pub mod motion;
pub mod avoidance;
pub mod find_path;
pub mod behavior_nodes;
pub mod resources;
