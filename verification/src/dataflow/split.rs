//! Partitions of a graph: by loop groups that the caller supplies, and by
//! connected components.

use vstd::prelude::*;
use crate::dataflow::edge::ThrillerEdge;
use crate::dataflow::graph::{dangling, GraphView, ThrillerGraph};
use crate::dataflow::links::as_ints;
use crate::dataflow::loop_analysis::LoopGroup;

verus! {

/// An assignment of a graph's nodes to parts. A part is named by a number.
#[derive(Debug, PartialEq, Eq)]
pub struct Partition {
    /// The part of each node, by position.
    pub node_part: Vec<usize>,
    /// The edges that leave one part and enter another, by position,
    /// ascending. They are what the parts hand to each other; every other
    /// edge lies within the part of its two endpoints.
    pub boundary: Vec<usize>,
}

/// The node lists of the groups.
pub open spec fn group_lists(groups: Seq<LoopGroup>) -> Seq<Seq<int>> {
    Seq::new(groups.len(), |g: int| as_ints(groups[g].nodes@))
}

/// Entry `k` of list `g` exists.
pub open spec fn listed_at(lists: Seq<Seq<int>>, g: int, k: int) -> bool {
    0 <= g < lists.len() && 0 <= k < lists[g].len()
}

/// Some list holds node `v`.
pub open spec fn names(lists: Seq<Seq<int>>, v: int) -> bool {
    exists|g: int, k: int| listed_at(lists, g, k) && #[trigger] lists[g][k] == v
}

/// The lists hold each of the `n` nodes exactly once, and nothing else.
pub open spec fn groups_cover(lists: Seq<Seq<int>>, n: nat) -> bool {
    &&& forall|g: int, k: int| listed_at(lists, g, k) ==> 0 <= #[trigger] lists[g][k] < n
    &&& forall|v: int| 0 <= v < n ==> #[trigger] names(lists, v)
    &&& forall|g: int, k: int, h: int, l: int|
        listed_at(lists, g, k) && listed_at(lists, h, l) && #[trigger] lists[g][k]
            == #[trigger] lists[h][l] ==> g == h && k == l
}

/// The edge at position `e` leaves one part and enters another.
pub open spec fn crosses(edges: Seq<ThrillerEdge>, part: Seq<usize>, e: int) -> bool {
    part[edges[e].src()] != part[edges[e].dst()]
}

/// `boundary` lists the crossing edges, each once, in ascending order.
pub open spec fn is_boundary(
    edges: Seq<ThrillerEdge>,
    part: Seq<usize>,
    boundary: Seq<int>,
) -> bool {
    &&& forall|a: int, b: int|
        0 <= a < b < boundary.len() ==> #[trigger] boundary[a] < #[trigger] boundary[b]
    &&& forall|e: int|
        boundary.contains(e) <==> 0 <= e < edges.len() && #[trigger] crosses(edges, part, e)
}

/// The graph can be split along the lists: they hold every node exactly
/// once, and no edge dangles.
pub open spec fn splits_along(g: GraphView, lists: Seq<Seq<int>>) -> bool {
    &&& groups_cover(lists, g.nodes.len())
    &&& forall|e: int| 0 <= e < g.edges.len() ==> !dangling(g.edges, g.nodes.len(), e)
}

/// `p` is the split of the graph along the lists: every node is in the
/// part of the list that holds it, and the boundary is made of the edges
/// between different parts.
pub open spec fn is_split_along(g: GraphView, lists: Seq<Seq<int>>, p: Partition) -> bool {
    &&& p.node_part@.len() == g.nodes.len()
    &&& forall|v: int|
        0 <= v < g.nodes.len() ==> 0 <= #[trigger] p.node_part@[v] < lists.len()
            && lists[p.node_part@[v] as int].contains(v)
    &&& is_boundary(g.edges, p.node_part@, as_ints(p.boundary@))
}

/// The edge at position `e` has `u` and `v` as its two ends, whichever way
/// it points.
pub open spec fn joins(edges: Seq<ThrillerEdge>, e: int, u: int, v: int) -> bool {
    ||| edges[e].src() == u && edges[e].dst() == v
    ||| edges[e].src() == v && edges[e].dst() == u
}

/// An edge of the list leads from `u` to `v` or from `v` to `u`, two of the
/// `n` nodes.
pub open spec fn adjacent(edges: Seq<ThrillerEdge>, n: nat, u: int, v: int) -> bool {
    &&& 0 <= u < n
    &&& 0 <= v < n
    &&& exists|e: int| 0 <= e < edges.len() && #[trigger] joins(edges, e, u, v)
}

/// Entries `i` and `i + 1` of `path` are adjacent.
pub open spec fn step_ok(edges: Seq<ThrillerEdge>, n: nat, path: Seq<int>, i: int) -> bool {
    adjacent(edges, n, path[i], path[i + 1])
}

/// `path` walks along edges, in whatever direction, from its first node to
/// its last.
pub open spec fn is_path(edges: Seq<ThrillerEdge>, n: nat, path: Seq<int>) -> bool {
    &&& path.len() > 0
    &&& forall|i: int| 0 <= i < path.len() ==> 0 <= #[trigger] path[i] < n
    &&& forall|i: int| 0 <= i < path.len() - 1 ==> #[trigger] step_ok(edges, n, path, i)
}

/// `path` walks from `u` to `v`.
pub open spec fn leads(edges: Seq<ThrillerEdge>, n: nat, path: Seq<int>, u: int, v: int) -> bool {
    is_path(edges, n, path) && path[0] == u && path.last() == v
}

/// `u` and `v` are nodes of one connected component of the graph with `n`
/// nodes and these edges.
pub open spec fn joined(edges: Seq<ThrillerEdge>, n: nat, u: int, v: int) -> bool {
    exists|path: Seq<int>| leads(edges, n, path, u, v)
}

/// `p` is the split of the graph into its connected components: two nodes
/// are in one part exactly when they are joined, a part is named by the
/// first of its nodes, and no edge is left for the boundary.
pub open spec fn is_component_split(g: GraphView, p: Partition) -> bool {
    let n = g.nodes.len();
    &&& p.node_part@.len() == n
    &&& forall|v: int| 0 <= v < n ==> joined(g.edges, n, v, #[trigger] p.node_part@[v] as int)
    &&& forall|u: int, v: int|
        0 <= u < n && 0 <= v < n ==> (#[trigger] joined(g.edges, n, u, v) <==> p.node_part@[u]
            == p.node_part@[v])
    &&& forall|u: int, v: int| #[trigger] joined(g.edges, n, u, v) ==> p.node_part@[v] <= u
    &&& is_boundary(g.edges, p.node_part@, as_ints(p.boundary@))
    &&& p.boundary@.len() == 0
}

/// Every node is joined with itself.
pub proof fn lemma_joined_self(edges: Seq<ThrillerEdge>, n: nat, u: int)
    requires
        0 <= u < n,
    ensures
        joined(edges, n, u, u),
{
    let path = seq![u];
    assert(leads(edges, n, path, u, u));
}

/// Adjacent nodes are joined.
pub proof fn lemma_joined_edge(edges: Seq<ThrillerEdge>, n: nat, u: int, v: int)
    requires
        adjacent(edges, n, u, v),
    ensures
        joined(edges, n, u, v),
        joined(edges, n, v, u),
{
    let e = choose|e: int| 0 <= e < edges.len() && #[trigger] joins(edges, e, u, v);
    assert(joins(edges, e, v, u));
    let path = seq![u, v];
    assert(step_ok(edges, n, path, 0));
    assert(leads(edges, n, path, u, v));
    let back = seq![v, u];
    assert(step_ok(edges, n, back, 0));
    assert(leads(edges, n, back, v, u));
}

/// What is joined with a node is joined with everything that the node is
/// joined with.
pub proof fn lemma_joined_trans(edges: Seq<ThrillerEdge>, n: nat, u: int, v: int, w: int)
    requires
        joined(edges, n, u, v),
        joined(edges, n, v, w),
    ensures
        joined(edges, n, u, w),
{
    let p = choose|path: Seq<int>| leads(edges, n, path, u, v);
    let q = choose|path: Seq<int>| leads(edges, n, path, v, w);
    let r = p + q.subrange(1, q.len() as int);
    assert forall|i: int| 0 <= i < r.len() implies 0 <= #[trigger] r[i] < n by {
        if i < p.len() {
            assert(r[i] == p[i]);
        } else {
            assert(r[i] == q[i - p.len() + 1]);
        }
    }
    assert forall|i: int| 0 <= i < r.len() - 1 implies #[trigger] step_ok(edges, n, r, i) by {
        if i < p.len() - 1 {
            assert(step_ok(edges, n, p, i));
            assert(r[i] == p[i] && r[i + 1] == p[i + 1]);
        } else if i == p.len() - 1 {
            assert(step_ok(edges, n, q, 0));
            assert(r[i] == p[i] && r[i + 1] == q[1]);
        } else {
            assert(step_ok(edges, n, q, i - p.len() + 1));
            assert(r[i] == q[i - p.len() + 1] && r[i + 1] == q[i - p.len() + 2]);
        }
    }
    assert(r[0] == p[0]);
    if q.len() > 1 {
        assert(r.last() == q[q.len() - 1]);
    } else {
        assert(r.last() == p[p.len() - 1]);
    }
    assert(leads(edges, n, r, u, w));
}

/// In a split into connected components, every edge has both its ends in
/// one part.
pub proof fn lemma_component_edges_stay_inside(g: GraphView, p: Partition)
    requires
        is_component_split(g, p),
    ensures
        forall|e: int| 0 <= e < g.edges.len() ==> !#[trigger] crosses(g.edges, p.node_part@, e),
{
    let listed = as_ints(p.boundary@);
    assert forall|e: int| 0 <= e < g.edges.len() implies !#[trigger] crosses(
        g.edges,
        p.node_part@,
        e,
    ) by {
        if crosses(g.edges, p.node_part@, e) {
            assert(listed.contains(e));
        }
    }
}

/// The edge at position `e` has the same label at both ends.
spec fn level(edges: Seq<ThrillerEdge>, label: Seq<usize>, e: int) -> bool {
    label[edges[e].src()] == label[edges[e].dst()]
}

/// Every edge has the same label at both ends.
spec fn settled(edges: Seq<ThrillerEdge>, label: Seq<usize>) -> bool {
    forall|e: int| 0 <= e < edges.len() ==> #[trigger] level(edges, label, e)
}

/// Every label names a node that is joined with the labelled node and
/// does not come after it.
spec fn labelled(edges: Seq<ThrillerEdge>, n: nat, label: Seq<usize>) -> bool {
    &&& label.len() == n
    &&& forall|v: int|
        0 <= v < n ==> (#[trigger] label[v]) <= v && joined(edges, n, v, label[v] as int)
            && joined(edges, n, label[v] as int, v)
}

/// The labels, added up.
spec fn label_sum(label: Seq<usize>) -> nat
    decreases label.len(),
{
    if label.len() == 0 {
        0
    } else {
        label_sum(label.drop_last()) + label.last() as nat
    }
}

/// Lowering one label lowers the sum by as much.
proof fn lemma_label_lowered(label: Seq<usize>, i: int, x: usize)
    requires
        0 <= i < label.len(),
        x < label[i],
    ensures
        label_sum(label.update(i, x)) + (label[i] - x) == label_sum(label),
    decreases label.len(),
{
    let lower = label.update(i, x);
    if i == label.len() - 1 {
        assert(lower.drop_last() =~= label.drop_last());
    } else {
        assert(lower.drop_last() =~= label.drop_last().update(i, x));
        lemma_label_lowered(label.drop_last(), i, x);
    }
}

/// Where every edge has the same label at both ends, so has every path.
proof fn lemma_path_keeps_label(
    edges: Seq<ThrillerEdge>,
    n: nat,
    label: Seq<usize>,
    path: Seq<int>,
    i: int,
)
    requires
        label.len() == n,
        settled(edges, label),
        is_path(edges, n, path),
        0 <= i < path.len(),
    ensures
        label[path[i]] == label[path[0]],
    decreases i,
{
    if i > 0 {
        lemma_path_keeps_label(edges, n, label, path, i - 1);
        assert(step_ok(edges, n, path, i - 1));
        let a = path[i - 1];
        let b = path[i];
        let e = choose|e: int| 0 <= e < edges.len() && #[trigger] joins(edges, e, a, b);
        assert(level(edges, label, e));
    }
}

/// Where every edge has the same label at both ends, joined nodes have the
/// same label.
proof fn lemma_joined_keeps_label(
    edges: Seq<ThrillerEdge>,
    n: nat,
    label: Seq<usize>,
    u: int,
    v: int,
)
    requires
        label.len() == n,
        settled(edges, label),
        joined(edges, n, u, v),
    ensures
        label[u] == label[v],
{
    let path = choose|path: Seq<int>| leads(edges, n, path, u, v);
    lemma_path_keeps_label(edges, n, label, path, path.len() - 1);
}

/// Entry `(h, l)` comes before entry `(g, k)` when the lists are read one
/// after the other.
spec fn before(h: int, l: int, g: int, k: int) -> bool {
    h < g || (h == g && l < k)
}

/// The state of reading the lists, up to entry `(g, k)`: every entry read
/// is a node that nothing read earlier names, and `part` holds, for the
/// nodes read, the list that names them, and `free` for all others.
spec fn assigned(
    lists: Seq<Seq<int>>,
    n: nat,
    part: Seq<usize>,
    free: usize,
    g: int,
    k: int,
) -> bool {
    &&& part.len() == n
    &&& free == lists.len()
    &&& forall|v: int| 0 <= v < n ==> #[trigger] part[v] <= free
    &&& forall|h: int, l: int|
        listed_at(lists, h, l) && before(h, l, g, k) ==> 0 <= #[trigger] lists[h][l] < n
            && part[lists[h][l]] == h
    &&& forall|v: int|
        0 <= v < n && #[trigger] part[v] < free ==> exists|h: int, l: int|
            listed_at(lists, h, l) && before(h, l, g, k) && #[trigger] lists[h][l] == v
    &&& forall|h: int, l: int, i: int, j: int|
        listed_at(lists, h, l) && before(h, l, g, k) && listed_at(lists, i, j) && before(i, j, g, k)
            && #[trigger] lists[h][l] == #[trigger] lists[i][j] ==> h == i && l == j
}

impl ThrillerGraph {
    /// Try to split graph based on various loop nests: each group becomes
    /// a part, named by the group's position, and the edges between nodes
    /// of different groups become the boundary.
    ///
    /// A single group never produces a split. Nor is there a split where
    /// the groups do not hold every node of the graph exactly once, or
    /// where an edge has an endpoint that is not a node of the graph.
    pub fn try_split(&self, groups: &[LoopGroup]) -> (r: Option<Partition>)
        ensures
            groups@.len() == 1 ==> r.is_none(),
            r.is_some() <==> groups@.len() != 1 && splits_along(self@, group_lists(groups@)),
            r matches Some(p) ==> is_split_along(self@, group_lists(groups@), p),
    {
        let count = groups.len();
        if count == 1 {
            return None;
        }
        let nodes = self.get_nodes();
        let edges = self.get_edges();
        let n = nodes.len();
        let ghost lists = group_lists(groups@);
        let mut part: Vec<usize> = Vec::new();
        let mut v: usize = 0;
        while v < n
            invariant
                v <= n,
                part.len() == v,
                forall|u: int| 0 <= u < v ==> #[trigger] part[u] == count,
            decreases n - v,
        {
            part.push(count);
            v += 1;
        }
        let mut g: usize = 0;
        while g < count
            invariant
                g <= count,
                count == groups@.len(),
                lists == group_lists(groups@),
                n == self@.nodes.len(),
                assigned(lists, n as nat, part@, count, g as int, 0),
            decreases count - g,
        {
            let list = &groups[g].nodes;
            let mut k: usize = 0;
            while k < list.len()
                invariant
                    k <= list.len(),
                    g < count,
                    count == groups@.len(),
                    lists == group_lists(groups@),
                    as_ints(list@) == lists[g as int],
                    n == self@.nodes.len(),
                    assigned(lists, n as nat, part@, count, g as int, k as int),
                decreases list.len() - k,
            {
                let v = list[k];
                assert(lists[g as int][k as int] == v);
                assert(listed_at(lists, g as int, k as int));
                if v >= n {
                    return None;
                }
                if part[v] != count {
                    proof {
                        let (h, l) = choose|h: int, l: int|
                            listed_at(lists, h, l) && before(h, l, g as int, k as int)
                                && #[trigger] lists[h][l] == v;
                        assert(lists[h][l] == lists[g as int][k as int]);
                    }
                    return None;
                }
                let ghost was = part@;
                part.set(v, g);
                proof {
                    let gi = g as int;
                    let ki = k as int;
                    assert forall|h: int, l: int|
                        listed_at(lists, h, l) && before(h, l, gi, ki + 1) implies 0
                        <= #[trigger] lists[h][l] < n && part@[lists[h][l]] == h by {
                        if before(h, l, gi, ki) {
                            assert(was[lists[h][l]] == h);
                        }
                    }
                    assert forall|u: int| 0 <= u < n && #[trigger] part@[u] < count implies exists|
                        h: int,
                        l: int,
                    |
                        listed_at(lists, h, l) && before(h, l, gi, ki + 1) && #[trigger] lists[h][l]
                            == u by {
                        if u == v {
                            assert(listed_at(lists, gi, ki) && before(gi, ki, gi, ki + 1)
                                && lists[gi][ki] == u);
                        } else {
                            assert(was[u] < count);
                            let (h, l) = choose|h: int, l: int|
                                listed_at(lists, h, l) && before(h, l, gi, ki)
                                    && #[trigger] lists[h][l] == u;
                            assert(listed_at(lists, h, l) && before(h, l, gi, ki + 1)
                                && lists[h][l] == u);
                        }
                    }
                    assert forall|h: int, l: int, i: int, j: int|
                        listed_at(lists, h, l) && before(h, l, gi, ki + 1) && listed_at(lists, i, j)
                            && before(i, j, gi, ki + 1) && #[trigger] lists[h][l]
                            == #[trigger] lists[i][j] implies h == i && l == j by {
                        if before(h, l, gi, ki) {
                            assert(was[lists[h][l]] == h);
                        }
                        if before(i, j, gi, ki) {
                            assert(was[lists[i][j]] == i);
                        }
                    }
                }
                k += 1;
            }
            proof {
                let gi = g as int;
                assert forall|h: int, l: int|
                    listed_at(lists, h, l) && before(h, l, gi + 1, 0) implies before(
                    h,
                    l,
                    gi,
                    k as int,
                ) by {}
            }
            g += 1;
        }
        let mut v: usize = 0;
        while v < n
            invariant
                v <= n,
                count == groups@.len(),
                lists == group_lists(groups@),
                n == self@.nodes.len(),
                assigned(lists, n as nat, part@, count, count as int, 0),
                forall|u: int| 0 <= u < v ==> #[trigger] part[u] < count,
            decreases n - v,
        {
            if part[v] == count {
                proof {
                    if groups_cover(lists, n as nat) {
                        assert(names(lists, v as int));
                        let (h, l) = choose|h: int, l: int|
                            listed_at(lists, h, l) && #[trigger] lists[h][l] == v;
                        assert(before(h, l, count as int, 0));
                    }
                }
                return None;
            }
            v += 1;
        }
        proof {
            assert forall|h: int, l: int| listed_at(lists, h, l) implies before(
                h,
                l,
                count as int,
                0,
            ) by {}
            assert forall|u: int| 0 <= u < n implies #[trigger] names(lists, u) by {
                assert(part[u] < count);
                let (h, l) = choose|h: int, l: int|
                    listed_at(lists, h, l) && before(h, l, count as int, 0)
                        && #[trigger] lists[h][l] == u;
                assert(listed_at(lists, h, l) && lists[h][l] == u);
            }
            assert(groups_cover(lists, n as nat));
        }
        let m = edges.len();
        let mut boundary: Vec<usize> = Vec::new();
        let mut e: usize = 0;
        while e < m
            invariant
                e <= m,
                m == edges@.len(),
                edges@ == self@.edges,
                n == self@.nodes.len(),
                part.len() == n,
                forall|d: int| 0 <= d < e ==> !dangling(edges@, n as nat, d),
                forall|a: int, b: int|
                    0 <= a < b < boundary.len() ==> #[trigger] boundary[a] < #[trigger] boundary[b],
                forall|a: int| 0 <= a < boundary.len() ==> #[trigger] boundary[a] < e,
                forall|d: int|
                    as_ints(boundary@).contains(d) <==> 0 <= d < e && #[trigger] crosses(
                        edges@,
                        part@,
                        d,
                    ),
            decreases m - e,
        {
            let src = edges[e].get_src();
            let dst = edges[e].get_dst();
            if src >= n || dst >= n {
                assert(dangling(self@.edges, n as nat, e as int));
                return None;
            }
            if part[src] != part[dst] {
                let ghost was = as_ints(boundary@);
                boundary.push(e);
                proof {
                    let now = as_ints(boundary@);
                    assert(now =~= was.push(e as int));
                    assert forall|d: int| now.contains(d) <==> 0 <= d < e + 1 && #[trigger] crosses(
                        edges@,
                        part@,
                        d,
                    ) by {
                        if now.contains(d) {
                            let at = choose|at: int| 0 <= at < now.len() && now[at] == d;
                            if at < was.len() {
                                assert(was[at] == d);
                                assert(was.contains(d));
                            }
                        }
                        if 0 <= d < e && crosses(edges@, part@, d) {
                            assert(was.contains(d));
                            let at = choose|at: int| 0 <= at < was.len() && was[at] == d;
                            assert(now[at] == d);
                        }
                        if d == e {
                            assert(now[was.len() as int] == d);
                        }
                    }
                }
            } else {
                assert(!crosses(edges@, part@, e as int));
            }
            e += 1;
        }
        let p = Partition { node_part: part, boundary };
        proof {
            let listed = as_ints(p.boundary@);
            assert forall|a: int, b: int| 0 <= a < b < listed.len() implies #[trigger] listed[a]
                < #[trigger] listed[b] by {
                assert(p.boundary@[a] < p.boundary@[b]);
            }
            assert forall|u: int| 0 <= u < n implies 0 <= #[trigger] p.node_part@[u] < lists.len()
                && lists[p.node_part@[u] as int].contains(u) by {
                assert(part[u] < count);
                let (h, l) = choose|h: int, l: int|
                    listed_at(lists, h, l) && before(h, l, count as int, 0)
                        && #[trigger] lists[h][l] == u;
                assert(part@[lists[h][l]] == h);
            }
        }
        Some(p)
    }

    /// Try to find the disconnected subgraph in the graph: the graph is
    /// split into its connected components, going by the edge list and
    /// taking every edge in both directions. Every edge then lies within
    /// one part, so the boundary is empty.
    ///
    /// There is no split where all nodes are joined, nor for the empty
    /// graph, nor where an edge has an endpoint that is not a node of the
    /// graph.
    pub fn try_find_disconnected_subgraph(&self) -> (r: Option<Partition>)
        ensures
            r.is_some() <==> (forall|e: int|
                0 <= e < self@.edges.len() ==> !dangling(self@.edges, self@.nodes.len(), e))
                && exists|u: int, v: int|
                0 <= u < self@.nodes.len() && 0 <= v < self@.nodes.len() && !#[trigger] joined(
                    self@.edges,
                    self@.nodes.len(),
                    u,
                    v,
                ),
            r matches Some(p) ==> is_component_split(self@, p),
    {
        let edges = self.get_edges();
        let n = self.get_nodes().len();
        let m = edges.len();
        let ghost links = self@.edges;
        let ghost count = self@.nodes.len();
        let mut e: usize = 0;
        while e < m
            invariant
                e <= m,
                m == edges@.len(),
                edges@ == links,
                links == self@.edges,
                n == count,
                count == self@.nodes.len(),
                forall|d: int| 0 <= d < e ==> !dangling(links, count, d),
            decreases m - e,
        {
            if edges[e].get_src() >= n || edges[e].get_dst() >= n {
                assert(dangling(self@.edges, self@.nodes.len(), e as int));
                return None;
            }
            e += 1;
        }
        let mut label: Vec<usize> = Vec::new();
        let mut v: usize = 0;
        while v < n
            invariant
                v <= n,
                label.len() == v,
                forall|u: int| 0 <= u < v ==> #[trigger] label[u] == u,
            decreases n - v,
        {
            label.push(v);
            v += 1;
        }
        proof {
            assert forall|u: int| 0 <= u < n implies (#[trigger] label[u]) <= u && joined(
                links,
                count,
                u,
                label[u] as int,
            ) && joined(links, count, label[u] as int, u) by {
                lemma_joined_self(links, count, u);
            }
        }
        let mut changed = true;
        while changed
            invariant
                m == edges@.len(),
                edges@ == links,
                n == count,
                forall|d: int| 0 <= d < m ==> !dangling(links, count, d),
                labelled(links, count, label@),
                !changed ==> settled(links, label@),
            decreases
                    label_sum(label@),
                    if changed {
                        1int
                    } else {
                        0int
                    },
        {
            let ghost at_start = label@;
            changed = false;
            let mut e: usize = 0;
            while e < m
                invariant
                    e <= m,
                    m == edges@.len(),
                    edges@ == links,
                    n == count,
                    forall|d: int| 0 <= d < m ==> !dangling(links, count, d),
                    labelled(links, count, label@),
                    label_sum(label@) <= label_sum(at_start),
                    changed ==> label_sum(label@) < label_sum(at_start),
                    !changed ==> forall|d: int| 0 <= d < e ==> #[trigger] level(links, label@, d),
                decreases m - e,
            {
                let u = edges[e].get_src();
                let v = edges[e].get_dst();
                proof {
                    assert(!dangling(links, count, e as int));
                    assert(joins(links, e as int, u as int, v as int));
                    assert(adjacent(links, count, u as int, v as int));
                    lemma_joined_edge(links, count, u as int, v as int);
                }
                let a = label[u];
                let b = label[v];
                if a < b {
                    proof {
                        lemma_label_lowered(label@, v as int, a);
                        lemma_joined_trans(links, count, v as int, u as int, a as int);
                        lemma_joined_trans(links, count, a as int, u as int, v as int);
                    }
                    label.set(v, a);
                    changed = true;
                } else if b < a {
                    proof {
                        lemma_label_lowered(label@, u as int, b);
                        lemma_joined_trans(links, count, u as int, v as int, b as int);
                        lemma_joined_trans(links, count, b as int, v as int, u as int);
                    }
                    label.set(u, b);
                    changed = true;
                } else {
                    assert(level(links, label@, e as int));
                }
                e += 1;
            }
        }
        let mut v: usize = 0;
        let mut apart = false;
        let ghost mut odd: int = 0;
        while v < n
            invariant
                v <= n,
                n == label.len(),
                apart ==> 0 <= odd < n && label[odd] != 0,
                !apart ==> forall|u: int| 0 <= u < v ==> #[trigger] label[u] == 0,
            decreases n - v,
        {
            if label[v] != 0 {
                apart = true;
                proof {
                    odd = v as int;
                }
            }
            v += 1;
        }
        if !apart {
            proof {
                assert forall|u: int, w: int| 0 <= u < n && 0 <= w < n implies #[trigger] joined(
                    links,
                    count,
                    u,
                    w,
                ) by {
                    assert(label[u] == 0 && label[w] == 0);
                    lemma_joined_trans(links, count, u, 0, w);
                }
            }
            return None;
        }
        let p = Partition { node_part: label, boundary: Vec::new() };
        proof {
            let part = p.node_part@;
            assert(part[0] <= 0);
            if joined(links, count, odd, 0) {
                lemma_joined_keeps_label(links, count, part, odd, 0);
            }
            assert(!joined(links, count, odd, 0));
            assert forall|u: int, w: int| 0 <= u < n && 0 <= w < n implies (#[trigger] joined(
                links,
                count,
                u,
                w,
            ) <==> part[u] == part[w]) by {
                if joined(links, count, u, w) {
                    lemma_joined_keeps_label(links, count, part, u, w);
                }
                if part[u] == part[w] {
                    lemma_joined_trans(links, count, u, part[u] as int, w);
                }
            }
            assert forall|u: int, w: int| #[trigger] joined(links, count, u, w) implies part[w]
                <= u by {
                let path = choose|path: Seq<int>| leads(links, count, path, u, w);
                assert(0 <= path[0] < n);
                assert(0 <= path[path.len() - 1] < n);
                lemma_joined_keeps_label(links, count, part, u, w);
            }
            let listed = as_ints(p.boundary@);
            assert forall|d: int|
                listed.contains(d) <==> 0 <= d < links.len() && #[trigger] crosses(
                    links,
                    part,
                    d,
                ) by {
                if 0 <= d < links.len() {
                    assert(level(links, part, d));
                }
            }
        }
        Some(p)
    }
}

} // verus!
