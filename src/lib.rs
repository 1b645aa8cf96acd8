//! Graph-driven code-generation orchestration: a dependency graph of source
//! files, a wave scheduler over it, prompt assembly, provider dispatch
//! decisions and an execution state machine that reports progress events.

pub mod model;
pub mod cycle;
pub mod graph;
pub mod planner;
pub mod text;
pub mod context;
pub mod validation;
pub mod provider;
pub mod events;
pub mod executor;
pub mod paths;
