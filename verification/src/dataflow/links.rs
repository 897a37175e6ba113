//! Adjacency as mathematics: what a node's lists hold, how one edge and a
//! whole edge list change them, and the counts that scheduling works with.

use vstd::prelude::*;
use crate::dataflow::edge::ThrillerEdge;

verus! {

/// `s` with each position widened to a mathematical integer.
pub open spec fn as_ints(s: Seq<usize>) -> Seq<int> {
    s.map_values(|x: usize| x as int)
}

/// A node's adjacency. Edges are named by their position in the graph's
/// edge list, nodes by their position in its node list.
pub struct Links {
    /// The edges that leave the node, in the order in which they were
    /// connected.
    pub out_edges: Seq<int>,
    /// The edges that enter the node.
    pub in_edges: Seq<int>,
    /// The destination of each out-edge: `nexts[k]` belongs to
    /// `out_edges[k]`. A node occurs once for every edge that leads to it.
    pub nexts: Seq<int>,
    /// The source of each in-edge: `prevs[k]` belongs to `in_edges[k]`.
    pub prevs: Seq<int>,
    /// The in-degree counter.
    pub in_degrees: nat,
}

/// The adjacency of node `v` once the edge at position `e`, from `src` to
/// `dst`, has been connected: the source gains an out-edge and a successor,
/// the destination an in-edge, a predecessor and one unit of in-degree.
pub open spec fn with_edge(l: Links, v: int, e: int, src: int, dst: int) -> Links {
    let out = if src == v {
        Links { out_edges: l.out_edges.push(e), nexts: l.nexts.push(dst), ..l }
    } else {
        l
    };
    if dst == v {
        Links {
            in_edges: out.in_edges.push(e),
            prevs: out.prevs.push(src),
            in_degrees: out.in_degrees + 1,
            ..out
        }
    } else {
        out
    }
}

/// The adjacency of node `v` once every edge of `edges` has been connected,
/// in the order of the list.
pub open spec fn with_edges(l: Links, v: int, edges: Seq<ThrillerEdge>) -> Links
    decreases edges.len(),
{
    if edges.len() == 0 {
        l
    } else {
        with_edge(
            with_edges(l, v, edges.drop_last()),
            v,
            edges.len() - 1,
            edges.last().src(),
            edges.last().dst(),
        )
    }
}

/// How often `x` occurs in `s`.
pub open spec fn occurrences(s: Seq<int>, x: int) -> nat
    decreases s.len(),
{
    if s.len() == 0 {
        0
    } else {
        occurrences(s.drop_last(), x) + if s.last() == x {
            1nat
        } else {
            0nat
        }
    }
}

/// How many entries of `ps` the list `order` does not hold.
pub open spec fn unplaced(ps: Seq<int>, order: Seq<int>) -> nat
    decreases ps.len(),
{
    if ps.len() == 0 {
        0
    } else {
        unplaced(ps.drop_last(), order) + if order.contains(ps.last()) {
            0nat
        } else {
            1nat
        }
    }
}

/// Appending `y` adds one occurrence of `y` and none of anything else.
pub(crate) proof fn lemma_occurrences_push(s: Seq<int>, y: int, x: int)
    ensures
        occurrences(s.push(y), x) == occurrences(s, x) + if y == x {
            1nat
        } else {
            0nat
        },
{
    assert(s.push(y).drop_last() =~= s);
}

/// What a list does not hold occurs in it no times.
pub(crate) proof fn lemma_occurrences_absent(s: Seq<int>, x: int)
    requires
        !s.contains(x),
    ensures
        occurrences(s, x) == 0,
    decreases s.len(),
{
    if s.len() > 0 {
        assert(s[s.len() - 1] == s.last());
        assert forall|i: int| 0 <= i < s.drop_last().len() implies s.drop_last()[i] != x by {
            assert(s[i] == s.drop_last()[i]);
        }
        lemma_occurrences_absent(s.drop_last(), x);
    }
}

/// A prefix holds `x` no more often than the whole list, and one time less
/// than the prefix that also takes in a following `x`.
pub(crate) proof fn lemma_occurrences_prefix(s: Seq<int>, j: int, x: int)
    requires
        0 <= j < s.len(),
    ensures
        occurrences(s.take(j + 1), x) == occurrences(s.take(j), x) + if s[j] == x {
            1nat
        } else {
            0nat
        },
        occurrences(s.take(j + 1), x) <= occurrences(s, x),
    decreases s.len() - j,
{
    assert(s.take(j + 1).drop_last() =~= s.take(j));
    if j + 1 < s.len() {
        lemma_occurrences_prefix(s, j + 1, x);
    } else {
        assert(s.take(j + 1) =~= s);
    }
}

/// While nothing is placed, every entry is unplaced.
pub(crate) proof fn lemma_unplaced_empty(ps: Seq<int>)
    ensures
        unplaced(ps, Seq::empty()) == ps.len(),
    decreases ps.len(),
{
    if ps.len() > 0 {
        lemma_unplaced_empty(ps.drop_last());
    }
}

/// No entry is unplaced exactly when `order` holds them all.
pub(crate) proof fn lemma_unplaced_zero(ps: Seq<int>, order: Seq<int>)
    ensures
        unplaced(ps, order) == 0 <==> forall|k: int|
            0 <= k < ps.len() ==> order.contains(#[trigger] ps[k]),
    decreases ps.len(),
{
    if ps.len() > 0 {
        let front = ps.drop_last();
        lemma_unplaced_zero(front, order);
        if unplaced(ps, order) == 0 {
            assert forall|k: int| 0 <= k < ps.len() implies order.contains(#[trigger] ps[k]) by {
                if k < front.len() {
                    assert(front[k] == ps[k]);
                }
            }
        }
        if forall|k: int| 0 <= k < ps.len() ==> order.contains(#[trigger] ps[k]) {
            assert(order.contains(ps[ps.len() - 1]));
            assert forall|k: int| 0 <= k < front.len() implies order.contains(
                #[trigger] front[k],
            ) by {
                assert(front[k] == ps[k]);
            }
        }
    }
}

/// Placing a node that was not placed takes each of its occurrences out of
/// the unplaced entries.
pub(crate) proof fn lemma_unplaced_push(ps: Seq<int>, order: Seq<int>, v: int)
    requires
        !order.contains(v),
    ensures
        unplaced(ps, order.push(v)) + occurrences(ps, v) == unplaced(ps, order),
    decreases ps.len(),
{
    if ps.len() > 0 {
        lemma_unplaced_push(ps.drop_last(), order, v);
        let p = ps.last();
        let next = order.push(v);
        if p == v {
            assert(next[order.len() as int] == v);
        } else {
            if order.contains(p) {
                let i = choose|i: int| 0 <= i < order.len() && order[i] == p;
                assert(next[i] == p);
            }
            if next.contains(p) {
                let i = choose|i: int| 0 <= i < next.len() && next[i] == p;
                assert(order[i] == p);
            }
        }
    }
}

} // verus!
