//! A declarative task-pipeline runner: validation of the task graph, scheduling
//! decisions, command interpolation and backend command lines, with their
//! contracts proved.

pub mod artifact;
pub mod backends;
pub mod cli;
pub mod graph;
pub mod interpolate;
pub mod pipeline;
pub mod plugins;
pub mod runner;
pub mod scheduler;
pub mod text;
pub mod validate;
