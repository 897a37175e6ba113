//! What holds of every graph: how degrees count edges, how the schedule
//! follows the edges, and what reducing yields when blocks are scarce.

use vstd::prelude::*;
use crate::dataflow::edge::{AttachedEdge, ThrillerEdge};
use crate::dataflow::graph::{connected_node, connects, dangling, first_block, GraphView};
use crate::dataflow::links::{with_edges, Links};
use crate::dataflow::node::ThrillerNode;
use crate::dataflow::schedule::{
    acyclic, is_topological_order, lemma_distinct_nodes, lemma_schedule_complete, schedule,
};
use crate::error::ThrillerError;

verus! {

/// The number of edges whose destination is `v`.
pub open spec fn count_into(edges: Seq<ThrillerEdge>, v: int) -> nat
    decreases edges.len(),
{
    if edges.len() == 0 {
        0
    } else {
        count_into(edges.drop_last(), v) + if edges.last().dst() == v {
            1nat
        } else {
            0nat
        }
    }
}

/// The number of edges whose source is `v`.
pub open spec fn count_from(edges: Seq<ThrillerEdge>, v: int) -> nat
    decreases edges.len(),
{
    if edges.len() == 0 {
        0
    } else {
        count_from(edges.drop_last(), v) + if edges.last().src() == v {
            1nat
        } else {
            0nat
        }
    }
}

/// `f(0) + f(1) + .. + f(n - 1)`.
pub open spec fn sum_to(f: spec_fn(int) -> nat, n: nat) -> nat
    decreases n,
{
    if n == 0 {
        0
    } else {
        sum_to(f, (n - 1) as nat) + f(n - 1)
    }
}

/// The in-degree counter of each node, by position.
pub open spec fn in_degree_at(nodes: Seq<ThrillerNode>) -> spec_fn(int) -> nat {
    |v: int| nodes[v].links().in_degrees
}

/// The number of out-edges of each node, by position.
pub open spec fn out_degree_at(nodes: Seq<ThrillerNode>) -> spec_fn(int) -> nat {
    |v: int| nodes[v].links().out_edges.len()
}

/// The sum of the in-degree counters of all nodes.
pub open spec fn total_in_degree(nodes: Seq<ThrillerNode>) -> nat {
    sum_to(in_degree_at(nodes), nodes.len())
}

/// The sum of the out-degrees of all nodes.
pub open spec fn total_out_degree(nodes: Seq<ThrillerNode>) -> nat {
    sum_to(out_degree_at(nodes), nodes.len())
}

/// The number of edges that enter each node, by position.
spec fn into_counts(edges: Seq<ThrillerEdge>) -> spec_fn(int) -> nat {
    |v: int| count_into(edges, v)
}

/// The number of edges that leave each node, by position.
spec fn from_counts(edges: Seq<ThrillerEdge>) -> spec_fn(int) -> nat {
    |v: int| count_from(edges, v)
}

/// A sum grows by one where one of its terms does.
proof fn lemma_sum_bump(f: spec_fn(int) -> nat, g: spec_fn(int) -> nat, n: nat, d: int)
    requires
        forall|v: int|
            0 <= v < n ==> #[trigger] g(v) == f(v) + if v == d {
                1nat
            } else {
                0nat
            },
    ensures
        sum_to(g, n) == sum_to(f, n) + if 0 <= d < n {
            1nat
        } else {
            0nat
        },
    decreases n,
{
    if n > 0 {
        lemma_sum_bump(f, g, (n - 1) as nat, d);
        assert(g(n - 1) == f(n - 1) + if n - 1 == d {
            1nat
        } else {
            0nat
        });
    }
}

/// Equal terms give equal sums.
proof fn lemma_sum_equal(f: spec_fn(int) -> nat, g: spec_fn(int) -> nat, n: nat)
    requires
        forall|v: int| 0 <= v < n ==> #[trigger] g(v) == f(v),
    ensures
        sum_to(g, n) == sum_to(f, n),
    decreases n,
{
    if n > 0 {
        lemma_sum_equal(f, g, (n - 1) as nat);
        assert(g(n - 1) == f(n - 1));
    }
}

/// Over all nodes, the edges that enter a node add up to all edges, and so
/// do the edges that leave a node, as long as no edge dangles.
proof fn lemma_counts_add_up(edges: Seq<ThrillerEdge>, n: nat)
    requires
        forall|i: int| 0 <= i < edges.len() ==> !dangling(edges, n, i),
    ensures
        sum_to(into_counts(edges), n) == edges.len(),
        sum_to(from_counts(edges), n) == edges.len(),
    decreases edges.len(),
{
    if edges.len() == 0 {
        lemma_sum_zero(into_counts(edges), n);
        lemma_sum_zero(from_counts(edges), n);
    } else {
        let front = edges.drop_last();
        assert forall|i: int| 0 <= i < front.len() implies !dangling(front, n, i) by {
            assert(!dangling(edges, n, i));
            assert(front[i] == edges[i]);
        }
        lemma_counts_add_up(front, n);
        assert(!dangling(edges, n, edges.len() - 1));
        lemma_sum_bump(into_counts(front), into_counts(edges), n, edges.last().dst());
        lemma_sum_bump(from_counts(front), from_counts(edges), n, edges.last().src());
    }
}

/// A sum of zeros is zero.
proof fn lemma_sum_zero(f: spec_fn(int) -> nat, n: nat)
    requires
        forall|v: int| 0 <= v < n ==> #[trigger] f(v) == 0,
    ensures
        sum_to(f, n) == 0,
    decreases n,
{
    if n > 0 {
        lemma_sum_zero(f, (n - 1) as nat);
        assert(f(n - 1) == 0);
    }
}

/// Connecting a list of edges adds to a node one in-edge, one predecessor
/// and one unit of in-degree for every edge that enters it, and one
/// out-edge and one successor for every edge that leaves it.
pub proof fn lemma_with_edges_counts(l: Links, v: int, edges: Seq<ThrillerEdge>)
    ensures
        with_edges(l, v, edges).in_degrees == l.in_degrees + count_into(edges, v),
        with_edges(l, v, edges).in_edges.len() == l.in_edges.len() + count_into(edges, v),
        with_edges(l, v, edges).prevs.len() == l.prevs.len() + count_into(edges, v),
        with_edges(l, v, edges).out_edges.len() == l.out_edges.len() + count_from(edges, v),
        with_edges(l, v, edges).nexts.len() == l.nexts.len() + count_from(edges, v),
    decreases edges.len(),
{
    if edges.len() > 0 {
        lemma_with_edges_counts(l, v, edges.drop_last());
    }
}

/// The source of an edge that enters `v` is among the predecessors of `v`
/// once the edge list has been connected.
proof fn lemma_edge_is_recorded(l: Links, v: int, edges: Seq<ThrillerEdge>, e: int)
    requires
        0 <= e < edges.len(),
        edges[e].dst() == v,
    ensures
        with_edges(l, v, edges).prevs.contains(edges[e].src()),
    decreases edges.len(),
{
    let front = edges.drop_last();
    let before = with_edges(l, v, front);
    let after = with_edges(l, v, edges);
    if e == edges.len() - 1 {
        assert(after.prevs[before.prevs.len() as int] == edges[e].src());
    } else {
        assert(front[e] == edges[e]);
        lemma_edge_is_recorded(l, v, front, e);
        let k = choose|k: int| 0 <= k < before.prevs.len() && before.prevs[k] == edges[e].src();
        assert(after.prevs[k] == edges[e].src());
    }
}

/// After `connect` on a graph whose nodes were connected to nothing, the
/// in-degrees of all nodes add up to the number of edges, so do the
/// out-degrees, and the in-degree of every node is the number of edges
/// whose destination it is.
pub proof fn lemma_connect_degrees(before: GraphView, after: GraphView)
    requires
        connects(before, after),
        forall|v: int| 0 <= v < before.nodes.len() ==> (#[trigger] before.nodes[v]).is_unlinked(),
    ensures
        total_in_degree(after.nodes) == before.edges.len(),
        total_out_degree(after.nodes) == before.edges.len(),
        forall|x: int|
            0 <= x < after.nodes.len() ==> (#[trigger] after.nodes[x]).links().in_degrees
                == count_into(before.edges, x),
{
    let n = before.nodes.len();
    let edges = before.edges;
    assert forall|x: int| 0 <= x < n implies {
        &&& (#[trigger] after.nodes[x]).links().in_degrees == count_into(edges, x)
        &&& after.nodes[x].links().out_edges.len() == count_from(edges, x)
    } by {
        assert(connected_node(before.nodes[x], after.nodes[x], x, edges));
        assert(before.nodes[x].is_unlinked());
        lemma_with_edges_counts(before.nodes[x].links(), x, edges);
    }
    lemma_counts_add_up(edges, n);
    assert forall|x: int| 0 <= x < n implies #[trigger] in_degree_at(after.nodes)(x) == into_counts(
        edges,
    )(x) by {
        assert(after.nodes[x].links().in_degrees == count_into(edges, x));
    }
    lemma_sum_equal(into_counts(edges), in_degree_at(after.nodes), n);
    assert forall|x: int| 0 <= x < n implies #[trigger] out_degree_at(after.nodes)(x)
        == from_counts(edges)(x) by {
        assert(after.nodes[x].links().out_edges.len() == count_from(edges, x));
    }
    lemma_sum_equal(from_counts(edges), out_degree_at(after.nodes), n);
}

/// In a topological order of a connected graph, the source of every edge
/// stands before its destination.
pub proof fn lemma_order_follows_edges(
    before: GraphView,
    after: GraphView,
    order: Seq<int>,
    e: int,
    i: int,
    j: int,
)
    requires
        connects(before, after),
        is_topological_order(after.preds(), order),
        0 <= e < before.edges.len(),
        0 <= i < order.len(),
        0 <= j < order.len(),
        order[i] == before.edges[e].src(),
        order[j] == before.edges[e].dst(),
    ensures
        i < j,
{
    let v = order[j];
    let preds = after.preds();
    assert(connected_node(before.nodes[v], after.nodes[v], v, before.edges));
    lemma_edge_is_recorded(before.nodes[v].links(), v, before.edges, e);
    let k = choose|k: int| 0 <= k < preds[v].len() && preds[v][k] == before.edges[e].src();
    assert(order.take(j).contains(preds[order[j]][k]));
    let at = choose|at: int| 0 <= at < order.take(j).len() && order.take(j)[at] == order[i];
    assert(order[at] == order[i]);
}

/// Where none of the listed nodes holds a block, there is no first block.
proof fn lemma_no_block(nodes: Seq<ThrillerNode>, order: Seq<int>)
    requires
        forall|i: int| 0 <= i < order.len() ==> !(nodes[#[trigger] order[i]].inner() is Block),
    ensures
        first_block(nodes, order).is_none(),
    decreases order.len(),
{
    if order.len() > 0 {
        let front = order.drop_last();
        assert forall|i: int| 0 <= i < front.len() implies !(nodes[#[trigger] front[i]].inner()
            is Block) by {
            assert(front[i] == order[i]);
        }
        lemma_no_block(nodes, front);
        assert(order.last() == order[order.len() - 1]);
    }
}

/// Where `v` is listed and is the only listed node that holds a block, it
/// is the first block.
proof fn lemma_only_block(nodes: Seq<ThrillerNode>, order: Seq<int>, v: int)
    requires
        order.contains(v),
        nodes[v].inner() is Block,
        forall|i: int|
            0 <= i < order.len() && #[trigger] order[i] != v ==> !(nodes[order[i]].inner()
                is Block),
    ensures
        first_block(nodes, order) == Some(v),
    decreases order.len(),
{
    let front = order.drop_last();
    assert forall|i: int| 0 <= i < front.len() && #[trigger] front[i] != v
        implies !(nodes[front[i]].inner() is Block) by {
        assert(front[i] == order[i]);
    }
    assert(order.last() == order[order.len() - 1]);
    if front.contains(v) {
        lemma_only_block(nodes, front, v);
    } else {
        assert forall|i: int| 0 <= i < front.len() implies !(nodes[#[trigger] front[i]].inner()
            is Block) by {
            assert(front.contains(front[i]));
        }
        lemma_no_block(nodes, front);
        let at = choose|at: int| 0 <= at < order.len() && order[at] == v;
        if at < front.len() {
            assert(front[at] == v);
        }
    }
}

/// Reducing the block outputs of a graph without a cycle and without a
/// block yields nothing.
pub proof fn lemma_reduction_without_block(g: GraphView)
    requires
        acyclic(g.preds()),
        forall|v: int| 0 <= v < g.nodes.len() ==> !((#[trigger] g.nodes[v]).inner() is Block),
    ensures
        g.reduction() == Ok::<Option<Seq<AttachedEdge>>, ThrillerError>(None),
{
    let order = schedule(g.preds());
    lemma_schedule_complete(g.preds());
    assert forall|i: int| 0 <= i < order.len()
        implies !(g.nodes[#[trigger] order[i]].inner() is Block) by {
        assert(0 <= order[i] < g.nodes.len());
    }
    lemma_no_block(g.nodes, order);
}

/// Reducing the block outputs of a graph without a cycle, in which exactly
/// one node holds a block, yields what that block reduces to.
pub proof fn lemma_reduction_of_only_block(g: GraphView, v: int)
    requires
        acyclic(g.preds()),
        0 <= v < g.nodes.len(),
        g.nodes[v].inner() is Block,
        forall|u: int|
            0 <= u < g.nodes.len() && u != v ==> !((#[trigger] g.nodes[u]).inner() is Block),
    ensures
        g.reduction() == Ok::<Option<Seq<AttachedEdge>>, ThrillerError>(
            g.nodes[v].inner()->Block_0.reduction(),
        ),
{
    let order = schedule(g.preds());
    lemma_schedule_complete(g.preds());
    lemma_distinct_nodes(g.preds().len(), order);
    assert forall|i: int| 0 <= i < order.len() && #[trigger] order[i] != v
        implies !(g.nodes[order[i]].inner() is Block) by {
        assert(0 <= order[i] < g.nodes.len());
    }
    lemma_only_block(g.nodes, order, v);
}

} // verus!
