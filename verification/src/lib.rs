//! Dataflow graphs for kernel generation: nodes that wrap operations or
//! nested blocks, directed edges between them, a deterministic topological
//! schedule, and code emission in schedule order.
//!
//! Nodes and edges live in arenas owned by the graph and are addressed by
//! their position, so an edge names its endpoints by node index.

pub mod dataflow;
pub mod error;
pub mod ident;
pub mod memory;
pub mod task;

pub use dataflow::edge::{AttachedEdge, ThrillerEdge};
pub use dataflow::graph::ThrillerGraph;
pub use dataflow::loop_analysis::LoopGroup;
pub use dataflow::node::{ThrillerBlock, ThrillerNode, ThrillerNodeInner};
pub use dataflow::split::Partition;
pub use error::{ThrillerError, ThrillerResult};
pub use ident::IdGenerator;
pub use memory::MemoryLevel;
pub use task::Task;
