use vstd::prelude::*;

verus! {

/// The nodes of a graph that share one loop nest, by position.
#[derive(Debug, PartialEq, Eq)]
pub struct LoopGroup {
    pub nodes: Vec<usize>,
}

} // verus!
