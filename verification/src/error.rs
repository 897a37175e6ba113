use vstd::prelude::*;

verus! {

/// Everything that can go wrong while a graph is assembled, scheduled or
/// emitted.
#[derive(Debug, PartialEq, Eq)]
pub enum ThrillerError {
    /// A task could not generate its code; the payload is the task's own
    /// message.
    CodeGen(String),
    /// The edge at this position in the graph's edge list has an endpoint
    /// that is not a node of the graph.
    DanglingEdge(usize),
    /// The graph has a cycle, so no schedule exists.
    CycleDetected,
}

pub type ThrillerResult<T> = Result<T, ThrillerError>;

} // verus!
