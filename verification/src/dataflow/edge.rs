use vstd::prelude::*;

verus! {

/// Describes a value handed from one buffer to another, each named by id.
#[derive(Debug, Clone, Copy, PartialEq, Eq)]
pub struct AttachedEdge {
    pub src: usize,
    pub dst: usize,
}

/// A directed dependency between two nodes of a graph.
///
/// The endpoints are node positions in the graph that the edge is added to.
/// An edge never changes after it is made.
#[derive(Debug, Clone, Copy, PartialEq, Eq)]
pub struct ThrillerEdge {
    id: usize,
    src: usize,
    dst: usize,
    attached: Option<AttachedEdge>,
}

impl ThrillerEdge {
    pub closed spec fn id(&self) -> usize {
        self.id
    }

    /// Position of the node that the edge leaves.
    pub closed spec fn src(&self) -> int {
        self.src as int
    }

    /// Position of the node that the edge enters.
    pub closed spec fn dst(&self) -> int {
        self.dst as int
    }

    pub closed spec fn attached(&self) -> Option<AttachedEdge> {
        self.attached
    }

    /// A plain dependency from node `src` to node `dst`.
    pub fn new(id: usize, src: usize, dst: usize) -> (r: Self)
        ensures
            r.id() == id,
            r.src() == src,
            r.dst() == dst,
            r.attached().is_none(),
    {
        ThrillerEdge { id, src, dst, attached: None }
    }

    /// A dependency from node `src` to node `dst` that carries a hand-off.
    pub fn with_attached(id: usize, src: usize, dst: usize, attached: AttachedEdge) -> (r: Self)
        ensures
            r.id() == id,
            r.src() == src,
            r.dst() == dst,
            r.attached() == Some(attached),
    {
        ThrillerEdge { id, src, dst, attached: Some(attached) }
    }

    pub fn get_id(&self) -> (r: usize)
        ensures
            r == self.id(),
    {
        self.id
    }

    pub fn get_src(&self) -> (r: usize)
        ensures
            r == self.src(),
    {
        self.src
    }

    pub fn get_dst(&self) -> (r: usize)
        ensures
            r == self.dst(),
    {
        self.dst
    }

    pub fn get_attached(&self) -> (r: Option<AttachedEdge>)
        ensures
            r == self.attached(),
    {
        self.attached
    }
}

} // verus!
