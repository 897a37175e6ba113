pub mod edge;
pub mod graph;
pub mod laws;
pub mod links;
pub mod loop_analysis;
pub mod node;
pub mod schedule;
pub mod split;
