use vstd::prelude::*;
use crate::dataflow::edge::AttachedEdge;
use crate::dataflow::links::{as_ints, Links};
use crate::error::{ThrillerError, ThrillerResult};
use crate::task::Task;

verus! {

/// A composite unit: a body that emits the unit's code, and the values
/// that the unit hands on once it is reduced.
pub struct ThrillerBlock {
    /// Emits the code of the whole block.
    pub body: Box<dyn Task>,
    /// The block's output hand-offs, in the block's own order; `None` where
    /// the block reduces to nothing.
    pub outputs: Option<Vec<AttachedEdge>>,
}

impl ThrillerBlock {
    /// What reducing the block yields.
    pub open spec fn reduction(&self) -> Option<Seq<AttachedEdge>> {
        match self.outputs {
            Some(list) => Some(list@),
            None => None,
        }
    }

    /// Reduces the block to its output hand-offs.
    pub fn reduce(&self) -> (r: Option<&Vec<AttachedEdge>>)
        ensures
            self.reduction() == match r {
                Some(list) => Some(list@),
                None => None,
            },
    {
        match &self.outputs {
            Some(list) => Some(list),
            None => None,
        }
    }
}

impl Task for ThrillerBlock {
    open spec fn emission(&self) -> Result<Seq<char>, ThrillerError> {
        self.body.emission()
    }

    fn emit(&self) -> (r: ThrillerResult<String>) {
        self.body.emit()
    }
}

/// What a node stands for.
pub enum ThrillerNodeInner {
    /// A leaf operation.
    Op(Box<dyn Task>),
    /// A nested composite block.
    Block(ThrillerBlock),
    /// A buffer, named by id. It holds data and emits no code.
    Buffer(usize),
}

impl ThrillerNodeInner {
    /// What this payload contributes to a graph's code.
    pub open spec fn emission(&self) -> Result<Seq<char>, ThrillerError> {
        match self {
            ThrillerNodeInner::Op(op) => op.emission(),
            ThrillerNodeInner::Block(block) => block.emission(),
            ThrillerNodeInner::Buffer(_) => Ok(Seq::empty()),
        }
    }
}

/// A vertex of a dataflow graph.
pub struct ThrillerNode {
    id: usize,
    inner: ThrillerNodeInner,
    out_edges: Vec<usize>,
    in_edges: Vec<usize>,
    nexts: Vec<usize>,
    prevs: Vec<usize>,
    in_degrees: usize,
}

impl ThrillerNode {
    pub closed spec fn id(&self) -> usize {
        self.id
    }

    pub closed spec fn inner(&self) -> ThrillerNodeInner {
        self.inner
    }

    pub closed spec fn links(&self) -> Links {
        Links {
            out_edges: as_ints(self.out_edges@),
            in_edges: as_ints(self.in_edges@),
            nexts: as_ints(self.nexts@),
            prevs: as_ints(self.prevs@),
            in_degrees: self.in_degrees as nat,
        }
    }

    /// The node is connected to nothing.
    pub open spec fn is_unlinked(&self) -> bool {
        &&& self.links().out_edges.len() == 0
        &&& self.links().in_edges.len() == 0
        &&& self.links().nexts.len() == 0
        &&& self.links().prevs.len() == 0
        &&& self.links().in_degrees == 0
    }

    /// The lists of the node's adjacency agree in length, and the counter
    /// counts the in-edges.
    pub open spec fn is_balanced(&self) -> bool {
        &&& self.links().nexts.len() == self.links().out_edges.len()
        &&& self.links().prevs.len() == self.links().in_edges.len()
        &&& self.links().in_degrees == self.links().in_edges.len()
    }

    /// A node that is connected to nothing yet.
    pub fn new(id: usize, inner: ThrillerNodeInner) -> (r: Self)
        ensures
            r.id() == id,
            r.inner() == inner,
            r.is_unlinked(),
    {
        ThrillerNode {
            id,
            inner,
            out_edges: Vec::new(),
            in_edges: Vec::new(),
            nexts: Vec::new(),
            prevs: Vec::new(),
            in_degrees: 0,
        }
    }

    /// Records `edge` as leaving this node towards `next`.
    pub(crate) fn link_out(&mut self, edge: usize, next: usize)
        ensures
            final(self).id() == old(self).id(),
            final(self).inner() == old(self).inner(),
            final(self).links() == (Links {
                out_edges: old(self).links().out_edges.push(edge as int),
                nexts: old(self).links().nexts.push(next as int),
                ..old(self).links()
            }),
    {
        self.out_edges.push(edge);
        self.nexts.push(next);
        proof {
            assert(as_ints(self.out_edges@) =~= as_ints(old(self).out_edges@).push(edge as int));
            assert(as_ints(self.nexts@) =~= as_ints(old(self).nexts@).push(next as int));
        }
    }

    /// Records `edge` as entering this node from `prev`, and counts it.
    pub(crate) fn link_in(&mut self, edge: usize, prev: usize)
        requires
            old(self).is_balanced(),
        ensures
            final(self).id() == old(self).id(),
            final(self).inner() == old(self).inner(),
            final(self).links() == (Links {
                in_edges: old(self).links().in_edges.push(edge as int),
                prevs: old(self).links().prevs.push(prev as int),
                in_degrees: old(self).links().in_degrees + 1,
                ..old(self).links()
            }),
    {
        self.in_edges.push(edge);
        self.prevs.push(prev);
        assert(self.in_edges.len() == old(self).in_edges.len() + 1);
        self.in_degrees = self.in_degrees + 1;
        proof {
            assert(as_ints(self.in_edges@) =~= as_ints(old(self).in_edges@).push(edge as int));
            assert(as_ints(self.prevs@) =~= as_ints(old(self).prevs@).push(prev as int));
        }
    }

    pub fn get_id(&self) -> (r: usize)
        ensures
            r == self.id(),
    {
        self.id
    }

    pub fn get_inner(&self) -> (r: &ThrillerNodeInner)
        ensures
            *r == self.inner(),
    {
        &self.inner
    }

    pub fn get_in_degrees(&self) -> (r: usize)
        ensures
            r == self.links().in_degrees,
    {
        self.in_degrees
    }

    pub fn get_nexts(&self) -> (r: &Vec<usize>)
        ensures
            as_ints(r@) == self.links().nexts,
    {
        &self.nexts
    }

    pub fn get_prevs(&self) -> (r: &Vec<usize>)
        ensures
            as_ints(r@) == self.links().prevs,
    {
        &self.prevs
    }

    pub fn get_out_edges(&self) -> (r: &Vec<usize>)
        ensures
            as_ints(r@) == self.links().out_edges,
    {
        &self.out_edges
    }

    pub fn get_in_edges(&self) -> (r: &Vec<usize>)
        ensures
            as_ints(r@) == self.links().in_edges,
    {
        &self.in_edges
    }
}

} // verus!
