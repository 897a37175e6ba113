use vstd::prelude::*;

verus! {

/// Where a graph's data is placed. The graph only carries the tag; what it
/// means is up to the tasks that emit code.
#[derive(Debug, Clone, Copy, PartialEq, Eq)]
pub enum MemoryLevel {
    Register,
    Shared,
    Global,
}

impl Default for MemoryLevel {
    /// Registers, the placement closest to the computation.
    fn default() -> (r: Self)
        ensures
            r == MemoryLevel::Register,
    {
        MemoryLevel::Register
    }
}

} // verus!
