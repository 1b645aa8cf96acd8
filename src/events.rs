//! Progress events of an execution, in the order they are emitted.

use vstd::prelude::*;
use crate::model::NodeStatus;

verus! {

/// Name of the channel execution events are published on.
pub const EXECUTION_EVENT_CHANNEL: &'static str = "execution-progress";

/// A change of one node's status.
#[derive(Debug, Clone)]
pub struct NodeProgress {
    pub node_id: String,
    pub status: NodeStatus,
    pub message: Option<String>,
    pub generated_code: Option<String>,
}

/// Events emitted during an execution.
#[derive(Debug, Clone)]
pub enum ExecutionEvent {
    Started { total_nodes: usize, total_waves: usize },
    WaveStarted { wave_number: usize, node_ids: Vec<String> },
    NodeUpdate(NodeProgress),
    WaveCompleted { wave_number: usize, successful: usize, failed: usize },
    Completed { total_successful: usize, total_failed: usize, total_skipped: usize },
    Cancelled,
    /// A failure of the execution itself, not of one node.
    Error { message: String },
}

} // verus!
