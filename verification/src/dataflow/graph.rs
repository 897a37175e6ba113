use vstd::prelude::*;
use crate::dataflow::edge::{AttachedEdge, ThrillerEdge};
use crate::dataflow::links::{
    as_ints, lemma_occurrences_absent, lemma_occurrences_prefix, lemma_occurrences_push,
    lemma_unplaced_empty, lemma_unplaced_push, lemma_unplaced_zero, occurrences, unplaced,
    with_edge, with_edges,
};
use crate::dataflow::node::{ThrillerNode, ThrillerNodeInner};
use crate::dataflow::schedule::{
    acyclic, has_cycle, is_cycle, is_topological_order, lemma_cycle_rules_out_order,
    lemma_distinct_nodes, lemma_full_order_is_idle, lemma_no_order_means_cycle,
    lemma_schedule_complete, lemma_schedule_is_stable, lemma_schedule_respects, lemma_sweep_idle,
    lemma_sweeps_one_more, lemma_sweeps_respects, preds_in_range, ready, schedule, sweep, sweeps,
};
use crate::error::{ThrillerError, ThrillerResult};
use crate::memory::MemoryLevel;
use crate::task::{after_fragment, append_fragment, Task};

verus! {

/// Entry `k` of node `v`'s out-edges names an edge of the graph that leaves
/// `v`, and entry `k` of its successors is where that edge leads.
pub open spec fn out_link_ok(
    nodes: Seq<ThrillerNode>,
    edges: Seq<ThrillerEdge>,
    v: int,
    k: int,
) -> bool {
    let l = nodes[v].links();
    &&& 0 <= l.out_edges[k] < edges.len()
    &&& edges[l.out_edges[k]].src() == v
    &&& edges[l.out_edges[k]].dst() == l.nexts[k]
    &&& 0 <= l.nexts[k] < nodes.len()
}

/// Entry `k` of node `v`'s in-edges names an edge of the graph that enters
/// `v`, and entry `k` of its predecessors is where that edge comes from.
pub open spec fn in_link_ok(
    nodes: Seq<ThrillerNode>,
    edges: Seq<ThrillerEdge>,
    v: int,
    k: int,
) -> bool {
    let l = nodes[v].links();
    &&& 0 <= l.in_edges[k] < edges.len()
    &&& edges[l.in_edges[k]].dst() == v
    &&& edges[l.in_edges[k]].src() == l.prevs[k]
    &&& 0 <= l.prevs[k] < nodes.len()
}

/// The adjacency that the nodes hold is consistent: every entry names an
/// edge and a node of the graph, every in-degree counts the node's
/// in-edges, and `v` is a successor of `u` as often as `u` is a predecessor
/// of `v`.
pub open spec fn linked(nodes: Seq<ThrillerNode>, edges: Seq<ThrillerEdge>) -> bool {
    &&& forall|v: int| 0 <= v < nodes.len() ==> (#[trigger] nodes[v]).is_balanced()
    &&& forall|v: int, k: int|
        0 <= v < nodes.len() && 0 <= k < nodes[v].links().out_edges.len()
            ==> #[trigger] out_link_ok(nodes, edges, v, k)
    &&& forall|v: int, k: int|
        0 <= v < nodes.len() && 0 <= k < nodes[v].links().in_edges.len()
            ==> #[trigger] in_link_ok(nodes, edges, v, k)
    &&& forall|u: int, v: int|
        0 <= u < nodes.len() && 0 <= v < nodes.len() ==> #[trigger] occurrences(
            nodes[u].links().nexts,
            v,
        ) == occurrences(nodes[v].links().prevs, u)
}

/// Consistent adjacency stays consistent when the graph gains edges.
proof fn lemma_linked_more_edges(
    nodes: Seq<ThrillerNode>,
    edges: Seq<ThrillerEdge>,
    more: Seq<ThrillerEdge>,
)
    requires
        linked(nodes, edges),
    ensures
        linked(nodes, edges + more),
{
    let all = edges + more;
    assert forall|v: int, k: int|
        0 <= v < nodes.len() && 0 <= k < nodes[v].links().out_edges.len()
        implies #[trigger] out_link_ok(nodes, all, v, k) by {
        assert(out_link_ok(nodes, edges, v, k));
        assert(all[nodes[v].links().out_edges[k]] == edges[nodes[v].links().out_edges[k]]);
    }
    assert forall|v: int, k: int|
        0 <= v < nodes.len() && 0 <= k < nodes[v].links().in_edges.len()
        implies #[trigger] in_link_ok(nodes, all, v, k) by {
        assert(in_link_ok(nodes, edges, v, k));
        assert(all[nodes[v].links().in_edges[k]] == edges[nodes[v].links().in_edges[k]]);
    }
}

/// No node at or after position `n` occurs among the successors or the
/// predecessors of a node of a consistent graph with `n` nodes.
proof fn lemma_later_nodes_absent(
    nodes: Seq<ThrillerNode>,
    edges: Seq<ThrillerEdge>,
    v: int,
    x: int,
)
    requires
        linked(nodes, edges),
        0 <= v < nodes.len(),
        x >= nodes.len(),
    ensures
        occurrences(nodes[v].links().nexts, x) == 0,
        occurrences(nodes[v].links().prevs, x) == 0,
{
    let l = nodes[v].links();
    assert(nodes[v].is_balanced());
    assert forall|k: int| 0 <= k < l.nexts.len() implies l.nexts[k] != x by {
        assert(out_link_ok(nodes, edges, v, k));
    }
    assert forall|k: int| 0 <= k < l.prevs.len() implies l.prevs[k] != x by {
        assert(in_link_ok(nodes, edges, v, k));
    }
    lemma_occurrences_absent(l.nexts, x);
    lemma_occurrences_absent(l.prevs, x);
}

/// Consistent adjacency stays consistent when the graph gains nodes that
/// are connected to nothing.
proof fn lemma_linked_more_nodes(
    nodes: Seq<ThrillerNode>,
    edges: Seq<ThrillerEdge>,
    more: Seq<ThrillerNode>,
)
    requires
        linked(nodes, edges),
        forall|i: int| 0 <= i < more.len() ==> (#[trigger] more[i]).is_unlinked(),
    ensures
        linked(nodes + more, edges),
{
    let all = nodes + more;
    assert forall|v: int| 0 <= v < all.len() implies (#[trigger] all[v]).is_balanced() by {
        if v < nodes.len() {
            assert(nodes[v].is_balanced());
        } else {
            assert(more[v - nodes.len()].is_unlinked());
        }
    }
    assert forall|v: int, k: int|
        0 <= v < all.len() && 0 <= k < all[v].links().out_edges.len()
        implies #[trigger] out_link_ok(all, edges, v, k) by {
        if v < nodes.len() {
            assert(out_link_ok(nodes, edges, v, k));
        } else {
            assert(more[v - nodes.len()].is_unlinked());
        }
    }
    assert forall|v: int, k: int|
        0 <= v < all.len() && 0 <= k < all[v].links().in_edges.len()
        implies #[trigger] in_link_ok(all, edges, v, k) by {
        if v < nodes.len() {
            assert(in_link_ok(nodes, edges, v, k));
        } else {
            assert(more[v - nodes.len()].is_unlinked());
        }
    }
    assert forall|u: int, v: int| 0 <= u < all.len() && 0 <= v < all.len()
        implies #[trigger] occurrences(all[u].links().nexts, v)
            == occurrences(all[v].links().prevs, u) by {
        if u < nodes.len() && v < nodes.len() {
            assert(occurrences(nodes[u].links().nexts, v)
                == occurrences(nodes[v].links().prevs, u));
        } else {
            if u < nodes.len() {
                lemma_later_nodes_absent(nodes, edges, u, v);
            } else {
                assert(more[u - nodes.len()].is_unlinked());
                assert(all[u].links().nexts =~= Seq::<int>::empty());
            }
            if v < nodes.len() {
                lemma_later_nodes_absent(nodes, edges, v, u);
            } else {
                assert(more[v - nodes.len()].is_unlinked());
                assert(all[v].links().prevs =~= Seq::<int>::empty());
            }
        }
    }
}

/// The edge at position `i` has an endpoint that is none of the `n` nodes.
pub open spec fn dangling(edges: Seq<ThrillerEdge>, n: nat, i: int) -> bool {
    !(0 <= edges[i].src() < n && 0 <= edges[i].dst() < n)
}

/// The edge at position `i` is the first one with an endpoint that is none
/// of the `n` nodes.
pub open spec fn is_first_dangling(edges: Seq<ThrillerEdge>, n: nat, i: int) -> bool {
    &&& 0 <= i < edges.len()
    &&& dangling(edges, n, i)
    &&& forall|j: int| 0 <= j < i ==> !dangling(edges, n, j)
}

/// `after` is the node `before`, at position `v`, once the edges of `edges`
/// have been connected: the same id and payload, and the adjacency grown by
/// every edge that leaves or enters `v`.
pub open spec fn connected_node(
    before: ThrillerNode,
    after: ThrillerNode,
    v: int,
    edges: Seq<ThrillerEdge>,
) -> bool {
    &&& after.id() == before.id()
    &&& after.inner() == before.inner()
    &&& after.links() == with_edges(before.links(), v, edges)
}

/// `after` is the graph `before` once `connect` has gone through its edge
/// list: no edge dangles, the lists and the tag are the same, and every
/// node has grown by the edges that leave or enter it.
pub open spec fn connects(before: GraphView, after: GraphView) -> bool {
    &&& forall|i: int|
        0 <= i < before.edges.len() ==> !dangling(before.edges, before.nodes.len(), i)
    &&& after.id == before.id
    &&& after.mem_level == before.mem_level
    &&& after.edges == before.edges
    &&& after.nodes.len() == before.nodes.len()
    &&& forall|v: int|
        0 <= v < before.nodes.len() ==> connected_node(
            before.nodes[v],
            #[trigger] after.nodes[v],
            v,
            before.edges,
        )
}

/// Connecting one more edge of the graph, between two of its nodes, keeps
/// the adjacency consistent.
proof fn lemma_linked_with_edge(
    before: Seq<ThrillerNode>,
    after: Seq<ThrillerNode>,
    edges: Seq<ThrillerEdge>,
    e: int,
)
    requires
        linked(before, edges),
        after.len() == before.len(),
        0 <= e < edges.len(),
        !dangling(edges, before.len(), e),
        forall|v: int|
            0 <= v < before.len() ==> (#[trigger] after[v]).links() == with_edge(
                before[v].links(),
                v,
                e,
                edges[e].src(),
                edges[e].dst(),
            ),
    ensures
        linked(after, edges),
{
    let src = edges[e].src();
    let dst = edges[e].dst();
    assert forall|v: int| 0 <= v < after.len() implies (#[trigger] after[v]).is_balanced() by {
        assert(before[v].is_balanced());
    }
    assert forall|v: int, k: int|
        0 <= v < after.len() && 0 <= k < after[v].links().out_edges.len()
        implies #[trigger] out_link_ok(after, edges, v, k) by {
        assert(before[v].is_balanced());
        if k < before[v].links().out_edges.len() {
            assert(out_link_ok(before, edges, v, k));
        }
    }
    assert forall|v: int, k: int|
        0 <= v < after.len() && 0 <= k < after[v].links().in_edges.len()
        implies #[trigger] in_link_ok(after, edges, v, k) by {
        assert(before[v].is_balanced());
        if k < before[v].links().in_edges.len() {
            assert(in_link_ok(before, edges, v, k));
        }
    }
    assert forall|u: int, v: int| 0 <= u < after.len() && 0 <= v < after.len()
        implies #[trigger] occurrences(after[u].links().nexts, v)
            == occurrences(after[v].links().prevs, u) by {
        assert(occurrences(before[u].links().nexts, v) == occurrences(before[v].links().prevs, u));
        lemma_occurrences_push(before[u].links().nexts, dst, v);
        lemma_occurrences_push(before[v].links().prevs, src, u);
    }
}

/// The working state of scheduling agrees with what has been placed:
/// `placed` marks the nodes of `order`, and `pending` counts, for every
/// node, the in-edges whose source is not in `order` yet.
spec fn tallied(
    preds: Seq<Seq<int>>,
    order: Seq<int>,
    pending: Seq<usize>,
    placed: Seq<bool>,
) -> bool {
    &&& pending.len() == preds.len()
    &&& placed.len() == preds.len()
    &&& forall|v: int| 0 <= v < preds.len() ==> #[trigger] placed[v] == order.contains(v)
    &&& forall|v: int| 0 <= v < preds.len() ==> #[trigger] pending[v] == unplaced(preds[v], order)
}

/// The code of the nodes that `order` lists, concatenated in that order.
/// Where a node fails, the first failure is the result.
pub open spec fn emission_of(nodes: Seq<ThrillerNode>, order: Seq<int>) -> Result<
    Seq<char>,
    ThrillerError,
>
    decreases order.len(),
{
    if order.len() == 0 {
        Ok(Seq::empty())
    } else {
        after_fragment(
            emission_of(nodes, order.drop_last()),
            nodes[order.last()].inner().emission(),
        )
    }
}

/// The first node that `order` lists whose payload is a block.
pub open spec fn first_block(nodes: Seq<ThrillerNode>, order: Seq<int>) -> Option<int>
    decreases order.len(),
{
    if order.len() == 0 {
        None
    } else {
        match first_block(nodes, order.drop_last()) {
            Some(v) => Some(v),
            None => if nodes[order.last()].inner() is Block {
                Some(order.last())
            } else {
                None
            },
        }
    }
}

/// What a call that reduces block outputs returned, with the list taken by
/// its view.
pub open spec fn reduced(r: ThrillerResult<Option<Vec<AttachedEdge>>>) -> Result<
    Option<Seq<AttachedEdge>>,
    ThrillerError,
> {
    match r {
        Ok(Some(list)) => Ok(Some(list@)),
        Ok(None) => Ok(None),
        Err(e) => Err(e),
    }
}

/// Once a prefix of `order` has failed, the whole of it fails in the same
/// way.
proof fn lemma_emission_fails(nodes: Seq<ThrillerNode>, order: Seq<int>, k: int)
    requires
        0 <= k <= order.len(),
        emission_of(nodes, order.take(k)) is Err,
    ensures
        emission_of(nodes, order) == emission_of(nodes, order.take(k)),
    decreases order.len() - k,
{
    if k < order.len() {
        assert(order.take(k + 1).drop_last() =~= order.take(k));
        lemma_emission_fails(nodes, order, k + 1);
    } else {
        assert(order.take(k) =~= order);
    }
}

/// Once a prefix of `order` holds a block, the first block of the whole is
/// the first block of the prefix.
proof fn lemma_first_block_found(nodes: Seq<ThrillerNode>, order: Seq<int>, k: int)
    requires
        0 <= k <= order.len(),
        first_block(nodes, order.take(k)) is Some,
    ensures
        first_block(nodes, order) == first_block(nodes, order.take(k)),
    decreases order.len() - k,
{
    if k < order.len() {
        assert(order.take(k + 1).drop_last() =~= order.take(k));
        lemma_first_block_found(nodes, order, k + 1);
    } else {
        assert(order.take(k) =~= order);
    }
}

/// A graph as its contracts see it.
pub struct GraphView {
    pub id: usize,
    pub nodes: Seq<ThrillerNode>,
    pub edges: Seq<ThrillerEdge>,
    pub mem_level: MemoryLevel,
}

impl GraphView {
    /// The predecessor list of every node.
    pub open spec fn preds(&self) -> Seq<Seq<int>> {
        Seq::new(self.nodes.len(), |v: int| self.nodes[v].links().prevs)
    }

    /// The code of the graph: the code of its nodes in schedule order. A
    /// graph with a cycle has no schedule and no code.
    pub open spec fn emission(&self) -> Result<Seq<char>, ThrillerError> {
        if acyclic(self.preds()) {
            emission_of(self.nodes, schedule(self.preds()))
        } else {
            Err(ThrillerError::CycleDetected)
        }
    }

    /// What reducing the graph's block outputs yields: the reduction of
    /// the first block in schedule order, and nothing where the graph
    /// holds no block.
    pub open spec fn reduction(&self) -> Result<Option<Seq<AttachedEdge>>, ThrillerError> {
        if acyclic(self.preds()) {
            match first_block(self.nodes, schedule(self.preds())) {
                Some(v) => Ok(self.nodes[v].inner()->Block_0.reduction()),
                None => Ok(None),
            }
        } else {
            Err(ThrillerError::CycleDetected)
        }
    }
}

/// A dataflow graph: nodes, the edges between them, and a placement tag.
pub struct ThrillerGraph {
    id: usize,
    nodes: Vec<ThrillerNode>,
    edges: Vec<ThrillerEdge>,
    mem_level: MemoryLevel,
}

impl View for ThrillerGraph {
    type V = GraphView;

    closed spec fn view(&self) -> GraphView {
        GraphView { id: self.id, nodes: self.nodes@, edges: self.edges@, mem_level: self.mem_level }
    }
}

impl Default for ThrillerGraph {
    /// An empty graph with id 0 and the default placement.
    fn default() -> (r: Self)
        ensures
            r@ == (GraphView {
                id: 0,
                nodes: Seq::empty(),
                edges: Seq::empty(),
                mem_level: MemoryLevel::Register,
            }),
    {
        ThrillerGraph {
            id: 0,
            nodes: Vec::new(),
            edges: Vec::new(),
            mem_level: MemoryLevel::Register,
        }
    }
}

impl ThrillerGraph {
    #[verifier::type_invariant]
    spec fn consistent(&self) -> bool {
        linked(self.nodes@, self.edges@)
    }

    /// An empty graph.
    pub fn new(id: usize, mem_level: MemoryLevel) -> (r: Self)
        ensures
            r@ == (GraphView { id, nodes: Seq::empty(), edges: Seq::empty(), mem_level }),
    {
        ThrillerGraph { id, nodes: Vec::new(), edges: Vec::new(), mem_level }
    }

    /// Moves the node and edge lists out of the graph, which is left empty.
    fn take_lists(&mut self) -> (r: (Vec<ThrillerNode>, Vec<ThrillerEdge>))
        ensures
            r.0@ == old(self)@.nodes,
            r.1@ == old(self)@.edges,
            linked(r.0@, r.1@),
            final(self)@ == (GraphView { nodes: Seq::empty(), edges: Seq::empty(), ..old(self)@ }),
    {
        proof {
            use_type_invariant(&*self);
        }
        let mut nodes: Vec<ThrillerNode> = Vec::new();
        let mut edges: Vec<ThrillerEdge> = Vec::new();
        core::mem::swap(&mut self.nodes, &mut nodes);
        core::mem::swap(&mut self.edges, &mut edges);
        (nodes, edges)
    }

    /// Gives an empty graph its node and edge lists.
    fn put_lists(&mut self, nodes: Vec<ThrillerNode>, edges: Vec<ThrillerEdge>)
        requires
            old(self)@.nodes.len() == 0,
            linked(nodes@, edges@),
        ensures
            final(self)@ == (GraphView { nodes: nodes@, edges: edges@, ..old(self)@ }),
    {
        self.edges = edges;
        self.nodes = nodes;
    }

    /// Add nodes into the graph. They take the positions after the nodes
    /// that the graph already has.
    pub fn add_nodes(&mut self, nodes: Vec<ThrillerNode>)
        requires
            forall|i: int| 0 <= i < nodes.len() ==> (#[trigger] nodes[i]).is_unlinked(),
        ensures
            final(self)@ == (GraphView { nodes: old(self)@.nodes + nodes@, ..old(self)@ }),
    {
        let (mut all, edges) = self.take_lists();
        let mut nodes = nodes;
        proof {
            lemma_linked_more_nodes(all@, edges@, nodes@);
        }
        all.append(&mut nodes);
        self.put_lists(all, edges);
    }

    /// Add edges into the graph. They take the positions after the edges
    /// that the graph already has; nothing is connected yet.
    pub fn add_edges(&mut self, edges: Vec<ThrillerEdge>)
        ensures
            final(self)@ == (GraphView { edges: old(self)@.edges + edges@, ..old(self)@ }),
    {
        let (nodes, mut all) = self.take_lists();
        let mut edges = edges;
        proof {
            lemma_linked_more_edges(nodes@, all@, edges@);
        }
        all.append(&mut edges);
        self.put_lists(nodes, all);
    }

    /// Connect the nodes in the graph: every edge, in the order of the edge
    /// list, is recorded on its source as an out-edge with its destination
    /// as a successor, and on its destination as an in-edge with its source
    /// as a predecessor, and adds one to the destination's in-degree. Two
    /// edges between the same pair of nodes count twice.
    ///
    /// Nothing is connected if some edge has an endpoint that is not a node
    /// of the graph; the error names the first such edge.
    ///
    /// Each call connects every edge of the list, also those that an
    /// earlier call has connected already.
    pub fn connect(&mut self) -> (r: ThrillerResult<()>)
        ensures
            match r {
                Ok(()) => connects(old(self)@, final(self)@),
                Err(e) => {
                    &&& final(self)@ == old(self)@
                    &&& e matches ThrillerError::DanglingEdge(i)
                    &&& is_first_dangling(old(self)@.edges, old(self)@.nodes.len(), i as int)
                },
            },
    {
        let ghost origin = self@;
        let (mut nodes, edges) = self.take_lists();
        let ghost emptied = self@;
        let n = nodes.len();
        let m = edges.len();
        let mut i: usize = 0;
        while i < m
            invariant
                i <= m,
                m == edges.len(),
                n == nodes.len(),
                self@ == emptied,
                origin == old(self)@,
                emptied == (GraphView { nodes: Seq::empty(), edges: Seq::empty(), ..origin }),
                nodes@ == origin.nodes,
                edges@ == origin.edges,
                linked(nodes@, edges@),
                forall|j: int| 0 <= j < i ==> !dangling(edges@, n as nat, j),
            decreases m - i,
        {
            if edges[i].get_src() >= n || edges[i].get_dst() >= n {
                self.put_lists(nodes, edges);
                return Err(ThrillerError::DanglingEdge(i));
            }
            i += 1;
        }
        let ghost before = nodes@;
        let mut i: usize = 0;
        while i < m
            invariant
                i <= m,
                m == edges.len(),
                n == nodes.len(),
                n == before.len(),
                before == origin.nodes,
                edges@ == origin.edges,
                self@ == emptied,
                origin == old(self)@,
                emptied == (GraphView { nodes: Seq::empty(), edges: Seq::empty(), ..origin }),
                forall|j: int| 0 <= j < m ==> !dangling(edges@, n as nat, j),
                linked(nodes@, edges@),
                forall|v: int|
                    0 <= v < n ==> connected_node(
                        before[v],
                        #[trigger] nodes@[v],
                        v,
                        edges@.take(i as int),
                    ),
            decreases m - i,
        {
            let src = edges[i].get_src();
            let dst = edges[i].get_dst();
            let ghost start = nodes@;
            assert(!dangling(edges@, n as nat, i as int));
            nodes[src].link_out(i, dst);
            assert(nodes@[dst as int].is_balanced()) by {
                assert(start[dst as int].is_balanced());
            }
            nodes[dst].link_in(i, src);
            proof {
                let done = edges@.take(i as int);
                let more = edges@.take(i as int + 1);
                assert(more.drop_last() =~= done);
                let edge = edges@[i as int];
                assert forall|v: int| 0 <= v < n implies (#[trigger] nodes@[v]).links()
                    == with_edge(start[v].links(), v, i as int, edge.src(), edge.dst()) by {}
                lemma_linked_with_edge(start, nodes@, edges@, i as int);
                assert forall|v: int| 0 <= v < n implies connected_node(
                    before[v],
                    #[trigger] nodes@[v],
                    v,
                    more,
                ) by {
                    assert(connected_node(before[v], start[v], v, done));
                }
            }
            i += 1;
        }
        assert(edges@.take(m as int) =~= edges@);
        self.put_lists(nodes, edges);
        Ok(())
    }

    /// Topological sort the nodes in the graph.
    ///
    /// The order is built from the adjacency that `connect` has recorded,
    /// by full sweeps over the nodes in ascending position: a sweep places
    /// each node that is not placed yet and whose in-edges all come from
    /// placed nodes. The in-degrees that the nodes hold are not changed.
    ///
    /// On a graph with a cycle, and on no other, there is no order, and the
    /// call says so.
    pub fn topo_sort(&self) -> (r: ThrillerResult<Vec<usize>>)
        ensures
            match r {
                Ok(order) => {
                    &&& as_ints(order@) == schedule(self@.preds())
                    &&& is_topological_order(self@.preds(), as_ints(order@))
                    &&& !has_cycle(self@.preds())
                },
                Err(e) => {
                    &&& e == ThrillerError::CycleDetected
                    &&& has_cycle(self@.preds())
                    &&& !acyclic(self@.preds())
                },
            },
    {
        proof {
            use_type_invariant(self);
        }
        let n = self.nodes.len();
        let ghost preds = self@.preds();
        let mut pending: Vec<usize> = Vec::new();
        let mut placed: Vec<bool> = Vec::new();
        let mut v: usize = 0;
        while v < n
            invariant
                v <= n,
                n == self.nodes.len(),
                pending.len() == v,
                placed.len() == v,
                forall|u: int|
                    0 <= u < v ==> #[trigger] pending[u] == self.nodes@[u].links().in_degrees,
                forall|u: int| 0 <= u < v ==> !#[trigger] placed[u],
            decreases n - v,
        {
            pending.push(self.nodes[v].get_in_degrees());
            placed.push(false);
            v += 1;
        }
        let mut order: Vec<usize> = Vec::new();
        let ghost mut rounds: nat = 0;
        proof {
            assert(as_ints(order@) =~= Seq::<int>::empty());
            assert forall|u: int| 0 <= u < n implies #[trigger] pending[u] == unplaced(
                preds[u],
                as_ints(order@),
            ) by {
                assert(self.nodes@[u].is_balanced());
                lemma_unplaced_empty(preds[u]);
            }
        }
        while order.len() < n
            invariant
                n == self.nodes.len(),
                preds == self@.preds(),
                linked(self.nodes@, self.edges@),
                as_ints(order@) == sweeps(preds, Seq::empty(), rounds),
                rounds <= order.len(),
                tallied(preds, as_ints(order@), pending@, placed@),
            decreases n - order.len(),
        {
            let before = order.len();
            let ghost start = as_ints(order@);
            let mut i: usize = 0;
            while i < n
                invariant
                    i <= n,
                    n == self.nodes.len(),
                    preds == self@.preds(),
                    linked(self.nodes@, self.edges@),
                    tallied(preds, as_ints(order@), pending@, placed@),
                    sweep(preds, start, 0) == sweep(preds, as_ints(order@), i as int),
                    before <= order.len(),
                    before == start.len(),
                    order.len() == before ==> as_ints(order@) == start && forall|u: int|
                        0 <= u < i ==> !ready(preds, start, u),
                decreases n - i,
            {
                let ghost prior = as_ints(order@);
                proof {
                    lemma_unplaced_zero(preds[i as int], prior);
                }
                if !placed[i] && pending[i] == 0 {
                    assert(ready(preds, prior, i as int));
                    order.push(i);
                    placed.set(i, true);
                    let ghost now = as_ints(order@);
                    let nexts = self.nodes[i].get_nexts();
                    let ghost succs = as_ints(nexts@);
                    proof {
                        assert(now =~= prior.push(i as int));
                        assert forall|u: int| 0 <= u < n implies #[trigger] placed[u]
                            == now.contains(u) by {
                            if prior.contains(u) {
                                let at = choose|at: int| 0 <= at < prior.len() && prior[at] == u;
                                assert(now[at] == u);
                            }
                            if now.contains(u) && u != i {
                                let at = choose|at: int| 0 <= at < now.len() && now[at] == u;
                                assert(prior[at] == u);
                            }
                            assert(now[prior.len() as int] == i);
                        }
                        assert(succs.take(0) =~= Seq::<int>::empty());
                    }
                    let mut j: usize = 0;
                    while j < nexts.len()
                        invariant
                            j <= nexts.len(),
                            i < n,
                            n == self.nodes.len(),
                            preds == self@.preds(),
                            linked(self.nodes@, self.edges@),
                            succs == as_ints(nexts@),
                            succs == self.nodes@[i as int].links().nexts,
                            !prior.contains(i as int),
                            pending.len() == n,
                            forall|u: int|
                                0 <= u < n ==> #[trigger] pending[u] + occurrences(
                                    succs.take(j as int),
                                    u,
                                ) == unplaced(preds[u], prior),
                        decreases nexts.len() - j,
                    {
                        let t = nexts[j];
                        proof {
                            assert(self.nodes@[i as int].is_balanced());
                            assert(out_link_ok(self.nodes@, self.edges@, i as int, j as int));
                            assert(succs[j as int] == t);
                            assert(occurrences(succs, t as int) == occurrences(
                                preds[t as int],
                                i as int,
                            ));
                            lemma_unplaced_push(preds[t as int], prior, i as int);
                            lemma_occurrences_prefix(succs, j as int, t as int);
                            assert forall|u: int| 0 <= u < n implies occurrences(
                                succs.take(j as int + 1),
                                u,
                            ) == occurrences(succs.take(j as int), u) + if u == t {
                                1nat
                            } else {
                                0nat
                            } by {
                                lemma_occurrences_prefix(succs, j as int, u);
                            }
                        }
                        pending.set(t, pending[t] - 1);
                        j += 1;
                    }
                    proof {
                        assert(succs.take(j as int) =~= succs);
                        assert forall|u: int| 0 <= u < n implies #[trigger] pending[u] == unplaced(
                            preds[u],
                            now,
                        ) by {
                            assert(occurrences(succs, u) == occurrences(preds[u], i as int));
                            lemma_unplaced_push(preds[u], prior, i as int);
                        }
                    }
                } else {
                    assert(!ready(preds, prior, i as int));
                }
                i += 1;
            }
            proof {
                lemma_sweeps_one_more(preds, Seq::empty(), rounds);
            }
            if order.len() == before {
                proof {
                    lemma_sweep_idle(preds, start, 0);
                    lemma_sweeps_respects(preds, Seq::empty(), rounds);
                    lemma_schedule_is_stable(preds, rounds);
                    lemma_schedule_complete(preds);
                    assert(preds_in_range(preds)) by {
                        assert forall|v: int, k: int|
                            0 <= v < preds.len() && 0 <= k < preds[v].len() implies 0
                            <= #[trigger] preds[v][k] < preds.len() by {
                            assert(self.nodes@[v].is_balanced());
                            assert(in_link_ok(self.nodes@, self.edges@, v, k));
                        }
                    }
                    let walk = lemma_no_order_means_cycle(preds);
                }
                return Err(ThrillerError::CycleDetected);
            }
            proof {
                rounds = rounds + 1;
                lemma_sweeps_respects(preds, Seq::empty(), rounds);
                lemma_distinct_nodes(preds.len(), as_ints(order@));
            }
        }
        proof {
            lemma_sweeps_respects(preds, Seq::empty(), rounds);
            lemma_distinct_nodes(preds.len(), as_ints(order@));
            lemma_full_order_is_idle(preds, as_ints(order@));
            lemma_schedule_is_stable(preds, rounds);
            lemma_schedule_respects(preds);
            assert(is_topological_order(preds, as_ints(order@)));
            if has_cycle(preds) {
                let walk = choose|walk: Seq<int>| is_cycle(preds, walk);
                lemma_cycle_rules_out_order(preds, walk);
            }
        }
        Ok(order)
    }

    /// Reduce the block outputs in the graph: the first node in schedule
    /// order that holds a block is asked for its outputs, and what it
    /// yields is copied and returned. Blocks that come later are not
    /// consulted.
    pub fn reduce_block_outputs(&self) -> (r: ThrillerResult<Option<Vec<AttachedEdge>>>)
        ensures
            reduced(r) == self@.reduction(),
    {
        let order = match self.topo_sort() {
            Ok(order) => order,
            Err(e) => {
                return Err(e);
            },
        };
        let ghost listed = as_ints(order@);
        assert(acyclic(self@.preds()));
        let mut i: usize = 0;
        while i < order.len()
            invariant
                i <= order.len(),
                listed == as_ints(order@),
                listed == schedule(self@.preds()),
                is_topological_order(self@.preds(), listed),
                acyclic(self@.preds()),
                first_block(self@.nodes, listed.take(i as int)).is_none(),
            decreases order.len() - i,
        {
            assert(listed[i as int] == order[i as int]);
            assert(listed.take(i + 1).drop_last() =~= listed.take(i as int));
            if let ThrillerNodeInner::Block(block) = self.nodes[order[i]].get_inner() {
                proof {
                    lemma_first_block_found(self@.nodes, listed, i + 1);
                }
                match block.reduce() {
                    Some(outputs) => {
                        let mut copied: Vec<AttachedEdge> = Vec::new();
                        let mut k: usize = 0;
                        while k < outputs.len()
                            invariant
                                k <= outputs.len(),
                                copied@ == outputs@.take(k as int),
                            decreases outputs.len() - k,
                        {
                            copied.push(outputs[k]);
                            assert(outputs@.take(k + 1) =~= outputs@.take(k as int).push(
                                outputs@[k as int],
                            ));
                            k += 1;
                        }
                        assert(outputs@.take(k as int) =~= outputs@);
                        return Ok(Some(copied));
                    },
                    None => {
                        return Ok(None);
                    },
                }
            }
            i += 1;
        }
        assert(listed.take(i as int) =~= listed);
        Ok(None)
    }

    pub fn get_id(&self) -> (r: usize)
        ensures
            r == self@.id,
    {
        self.id
    }

    pub fn get_mem_level(&self) -> (r: MemoryLevel)
        ensures
            r == self@.mem_level,
    {
        self.mem_level
    }

    /// The nodes, in the order in which they were added. What they hold of
    /// each other and of the edges is consistent.
    pub fn get_nodes(&self) -> (r: &Vec<ThrillerNode>)
        ensures
            r@ == self@.nodes,
            linked(self@.nodes, self@.edges),
    {
        proof {
            use_type_invariant(self);
        }
        &self.nodes
    }

    /// The edges, in the order in which they were added.
    pub fn get_edges(&self) -> (r: &Vec<ThrillerEdge>)
        ensures
            r@ == self@.edges,
    {
        &self.edges
    }
}

impl Task for ThrillerGraph {
    open spec fn emission(&self) -> Result<Seq<char>, ThrillerError> {
        self@.emission()
    }

    /// Emits the code of every node in schedule order and concatenates it.
    /// An operation and a block emit their own code; any other node adds
    /// nothing. The first failure ends the call and is returned as it
    /// came.
    fn emit(&self) -> (r: ThrillerResult<String>) {
        let order = match self.topo_sort() {
            Ok(order) => order,
            Err(e) => {
                return Err(e);
            },
        };
        let ghost listed = as_ints(order@);
        assert(acyclic(self@.preds()));
        let mut code = String::new();
        let mut i: usize = 0;
        while i < order.len()
            invariant
                i <= order.len(),
                listed == as_ints(order@),
                listed == schedule(self@.preds()),
                is_topological_order(self@.preds(), listed),
                acyclic(self@.preds()),
                emission_of(self@.nodes, listed.take(i as int)) == Ok::<Seq<char>, ThrillerError>(
                    code@,
                ),
            decreases order.len() - i,
        {
            assert(listed[i as int] == order[i as int]);
            assert(listed.take(i + 1).drop_last() =~= listed.take(i as int));
            let outcome = match self.nodes[order[i]].get_inner() {
                ThrillerNodeInner::Op(op) => op.emit(),
                ThrillerNodeInner::Block(block) => block.emit(),
                ThrillerNodeInner::Buffer(_) => Ok(String::new()),
            };
            match append_fragment(&mut code, outcome) {
                Ok(()) => {},
                Err(e) => {
                    proof {
                        lemma_emission_fails(self@.nodes, listed, i + 1);
                    }
                    return Err(e);
                },
            }
            i += 1;
        }
        assert(listed.take(i as int) =~= listed);
        Ok(code)
    }
}

} // verus!
