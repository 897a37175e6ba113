//! The schedule of a graph, as mathematics.
//!
//! A graph is seen here as its predecessor lists: `preds[v]` lists, for
//! node `v`, the source of every edge that enters `v` (a source occurs once
//! per edge). The schedule is built by full sweeps over the nodes in
//! ascending order. A sweep places every node that is not yet placed and
//! whose predecessors all are; a node placed early in a sweep can make a
//! later node of the same sweep ready, but never an earlier one.

use vstd::prelude::*;
use vstd::seq_lib::seq_to_set_is_finite;
use vstd::set_lib::{lemma_int_range, lemma_len_subset, lemma_subset_equality, set_int_range};

verus! {

/// `v` is a node that `order` does not hold yet, while it holds every
/// predecessor of `v`.
pub open spec fn ready(preds: Seq<Seq<int>>, order: Seq<int>, v: int) -> bool {
    &&& 0 <= v < preds.len()
    &&& !order.contains(v)
    &&& forall|k: int| 0 <= k < preds[v].len() ==> order.contains(#[trigger] preds[v][k])
}

/// One sweep over the nodes `from`, `from + 1`, ..: each node that is ready
/// when the sweep reaches it is appended to `order`.
pub open spec fn sweep(preds: Seq<Seq<int>>, order: Seq<int>, from: int) -> Seq<int>
    decreases preds.len() - from,
{
    if from < 0 || from >= preds.len() {
        order
    } else if ready(preds, order, from) {
        sweep(preds, order.push(from), from + 1)
    } else {
        sweep(preds, order, from + 1)
    }
}

/// `rounds` full sweeps, one after the other.
pub open spec fn sweeps(preds: Seq<Seq<int>>, order: Seq<int>, rounds: nat) -> Seq<int>
    decreases rounds,
{
    if rounds == 0 {
        order
    } else {
        sweeps(preds, sweep(preds, order, 0), (rounds - 1) as nat)
    }
}

/// The schedule: what as many sweeps as there are nodes place, starting
/// from nothing. More sweeps would add nothing (see
/// `lemma_schedule_is_stable`).
pub open spec fn schedule(preds: Seq<Seq<int>>) -> Seq<int> {
    sweeps(preds, Seq::empty(), preds.len())
}

/// `order` lists nodes, none of them twice, and every predecessor of a
/// listed node is listed before it.
pub open spec fn respects(preds: Seq<Seq<int>>, order: Seq<int>) -> bool {
    &&& forall|i: int| 0 <= i < order.len() ==> 0 <= #[trigger] order[i] < preds.len()
    &&& order.no_duplicates()
    &&& forall|j: int, k: int|
        0 <= j < order.len() && 0 <= k < preds[order[j]].len() ==> order.take(j).contains(
            #[trigger] preds[order[j]][k],
        )
}

/// `order` is a permutation of all nodes in which every edge points
/// forward.
pub open spec fn is_topological_order(preds: Seq<Seq<int>>, order: Seq<int>) -> bool {
    &&& order.len() == preds.len()
    &&& respects(preds, order)
}

/// Some topological order exists.
pub open spec fn acyclic(preds: Seq<Seq<int>>) -> bool {
    exists|order: Seq<int>| is_topological_order(preds, order)
}

/// `longer` starts with `shorter`.
pub open spec fn extends(longer: Seq<int>, shorter: Seq<int>) -> bool {
    &&& shorter.len() <= longer.len()
    &&& forall|i: int| 0 <= i < shorter.len() ==> longer[i] == shorter[i]
}

/// A sweep only appends.
proof fn lemma_sweep_extends(preds: Seq<Seq<int>>, order: Seq<int>, from: int)
    ensures
        extends(sweep(preds, order, from), order),
    decreases preds.len() - from,
{
    if from < 0 || from >= preds.len() {
    } else if ready(preds, order, from) {
        let next = order.push(from);
        lemma_sweep_extends(preds, next, from + 1);
        let res = sweep(preds, next, from + 1);
        assert forall|i: int| 0 <= i < order.len() implies res[i] == order[i] by {
            assert(next[i] == order[i]);
        }
    } else {
        lemma_sweep_extends(preds, order, from + 1);
    }
}

/// Appending a ready node keeps an order valid.
proof fn lemma_push_ready(preds: Seq<Seq<int>>, order: Seq<int>, v: int)
    requires
        respects(preds, order),
        ready(preds, order, v),
    ensures
        respects(preds, order.push(v)),
{
    let next = order.push(v);
    assert forall|i: int| 0 <= i < next.len() implies 0 <= #[trigger] next[i] < preds.len() by {
        if i < order.len() {
            assert(next[i] == order[i]);
        }
    }
    assert forall|i: int, j: int| 0 <= i < next.len() && 0 <= j < next.len() && i != j
        implies next[i] != next[j] by {
        if i < order.len() && j < order.len() {
            assert(next[i] == order[i] && next[j] == order[j]);
        } else if i < order.len() {
            assert(order.contains(order[i]));
        } else {
            assert(order.contains(order[j]));
        }
    }
    assert forall|j: int, k: int| 0 <= j < next.len() && 0 <= k < preds[next[j]].len()
        implies next.take(j).contains(#[trigger] preds[next[j]][k]) by {
        if j < order.len() {
            assert(next[j] == order[j]);
            assert(next.take(j) =~= order.take(j));
        } else {
            assert(next.take(j) =~= order);
        }
    }
}

/// A sweep keeps an order valid.
proof fn lemma_sweep_respects(preds: Seq<Seq<int>>, order: Seq<int>, from: int)
    requires
        respects(preds, order),
    ensures
        respects(preds, sweep(preds, order, from)),
    decreases preds.len() - from,
{
    if from < 0 || from >= preds.len() {
    } else if ready(preds, order, from) {
        lemma_push_ready(preds, order, from);
        lemma_sweep_respects(preds, order.push(from), from + 1);
    } else {
        lemma_sweep_respects(preds, order, from + 1);
    }
}

/// Any number of sweeps keeps an order valid and only appends to it.
pub(crate) proof fn lemma_sweeps_respects(preds: Seq<Seq<int>>, order: Seq<int>, rounds: nat)
    requires
        respects(preds, order),
    ensures
        respects(preds, sweeps(preds, order, rounds)),
        extends(sweeps(preds, order, rounds), order),
    decreases rounds,
{
    if rounds > 0 {
        let next = sweep(preds, order, 0);
        lemma_sweep_respects(preds, order, 0);
        lemma_sweep_extends(preds, order, 0);
        lemma_sweeps_respects(preds, next, (rounds - 1) as nat);
        let res = sweeps(preds, next, (rounds - 1) as nat);
        assert forall|i: int| 0 <= i < order.len() implies res[i] == order[i] by {
            assert(next[i] == order[i]);
        }
    }
}

/// A list of distinct nodes is no longer than the number of nodes, and one
/// of that length holds every node.
pub(crate) proof fn lemma_distinct_nodes(n: nat, order: Seq<int>)
    requires
        order.no_duplicates(),
        forall|i: int| 0 <= i < order.len() ==> 0 <= #[trigger] order[i] < n,
    ensures
        order.len() <= n,
        order.len() == n ==> forall|v: int| 0 <= v < n ==> order.contains(v),
{
    let listed = order.to_set();
    let all = set_int_range(0, n as int);
    lemma_int_range(0, n as int);
    order.unique_seq_to_set();
    seq_to_set_is_finite(order);
    assert(listed.subset_of(all)) by {
        assert forall|x: int| listed.contains(x) implies all.contains(x) by {
            let i = choose|i: int| 0 <= i < order.len() && order[i] == x;
            assert(0 <= order[i] < n);
        }
    }
    lemma_len_subset(listed, all);
    if order.len() == n {
        lemma_subset_equality(listed, all);
        assert forall|v: int| 0 <= v < n implies order.contains(v) by {
            assert(all.contains(v));
            assert(listed.contains(v));
        }
    }
}

/// A list shorter than the number of nodes misses a node.
proof fn lemma_missing_node(n: nat, order: Seq<int>) -> (v: int)
    requires
        order.len() < n,
    ensures
        0 <= v < n,
        !order.contains(v),
{
    let listed = order.to_set();
    let all = set_int_range(0, n as int);
    if forall|x: int| 0 <= x < n ==> order.contains(x) {
        lemma_int_range(0, n as int);
        seq_to_set_is_finite(order);
        assert(all.subset_of(listed)) by {
            assert forall|x: int| all.contains(x) implies listed.contains(x) by {
                assert(order.contains(x));
            }
        }
        lemma_len_subset(all, listed);
        order.lemma_cardinality_of_set();
        assert(false);
    }
    choose|x: int| 0 <= x < n && !order.contains(x)
}

/// A node that is ready when a sweep starts at or before it is placed by
/// that sweep.
proof fn lemma_sweep_places_ready(preds: Seq<Seq<int>>, order: Seq<int>, from: int, v: int)
    requires
        0 <= from <= v,
        ready(preds, order, v),
    ensures
        sweep(preds, order, from).contains(v),
    decreases preds.len() - from,
{
    if from == v {
        let next = order.push(v);
        lemma_sweep_extends(preds, next, from + 1);
        let res = sweep(preds, next, from + 1);
        assert(res[order.len() as int] == next[order.len() as int]);
    } else if ready(preds, order, from) {
        let next = order.push(from);
        assert forall|k: int| 0 <= k < preds[v].len() implies next.contains(
            #[trigger] preds[v][k],
        ) by {
            let i = choose|i: int| 0 <= i < order.len() && order[i] == preds[v][k];
            assert(next[i] == preds[v][k]);
        }
        assert(!next.contains(v)) by {
            if next.contains(v) {
                let i = choose|i: int| 0 <= i < next.len() && next[i] == v;
                if i < order.len() {
                    assert(order[i] == v);
                }
            }
        }
        lemma_sweep_places_ready(preds, next, from + 1, v);
    } else {
        lemma_sweep_places_ready(preds, order, from + 1, v);
    }
}

/// A sweep that meets no ready node changes nothing.
pub(crate) proof fn lemma_sweep_idle(preds: Seq<Seq<int>>, order: Seq<int>, from: int)
    requires
        forall|v: int| from <= v < preds.len() ==> !ready(preds, order, v),
    ensures
        sweep(preds, order, from) == order,
    decreases preds.len() - from,
{
    if 0 <= from < preds.len() {
        lemma_sweep_idle(preds, order, from + 1);
    }
}

/// Once a sweep changes nothing, no number of sweeps does.
proof fn lemma_sweeps_idle(preds: Seq<Seq<int>>, order: Seq<int>, rounds: nat)
    requires
        sweep(preds, order, 0) == order,
    ensures
        sweeps(preds, order, rounds) == order,
    decreases rounds,
{
    if rounds > 0 {
        lemma_sweeps_idle(preds, order, (rounds - 1) as nat);
    }
}

/// Sweeping `a + b` times is sweeping `a` times and then `b` times.
proof fn lemma_sweeps_split(preds: Seq<Seq<int>>, order: Seq<int>, a: nat, b: nat)
    ensures
        sweeps(preds, order, a + b) == sweeps(preds, sweeps(preds, order, a), b),
    decreases a,
{
    if a > 0 {
        lemma_sweeps_split(preds, sweep(preds, order, 0), (a - 1) as nat, b);
        assert(sweeps(preds, order, a + b) == sweeps(
            preds,
            sweep(preds, order, 0),
            (a + b - 1) as nat,
        ));
    }
}

/// One more sweep after `rounds` sweeps is `rounds + 1` sweeps.
pub(crate) proof fn lemma_sweeps_one_more(preds: Seq<Seq<int>>, order: Seq<int>, rounds: nat)
    ensures
        sweeps(preds, order, rounds + 1) == sweep(preds, sweeps(preds, order, rounds), 0),
{
    lemma_sweeps_split(preds, order, rounds, 1);
    let reached = sweeps(preds, order, rounds);
    assert(sweeps(preds, reached, 1) == sweeps(preds, sweep(preds, reached, 0), 0));
}

/// The first position of `target`, at or before `j`, whose node `order`
/// lacks.
proof fn first_unplaced(target: Seq<int>, order: Seq<int>, j: int) -> (m: int)
    requires
        0 <= j < target.len(),
        !order.contains(target[j]),
    ensures
        0 <= m <= j,
        !order.contains(target[m]),
        forall|i: int| 0 <= i < m ==> order.contains(#[trigger] target[i]),
    decreases j,
{
    if exists|i: int| 0 <= i < j && !order.contains(target[i]) {
        let i = choose|i: int| 0 <= i < j && !order.contains(target[i]);
        first_unplaced(target, order, i)
    } else {
        j
    }
}

/// In a graph without a cycle, a valid order that lacks a node leaves some
/// node ready.
proof fn lemma_some_node_ready(preds: Seq<Seq<int>>, order: Seq<int>) -> (v: int)
    requires
        acyclic(preds),
        order.len() < preds.len(),
    ensures
        ready(preds, order, v),
{
    let target = choose|t: Seq<int>| is_topological_order(preds, t);
    let missing = lemma_missing_node(preds.len(), order);
    lemma_distinct_nodes(preds.len(), target);
    assert(target.contains(missing));
    let j = choose|j: int| 0 <= j < target.len() && target[j] == missing;
    let m = first_unplaced(target, order, j);
    let v = target[m];
    assert forall|k: int| 0 <= k < preds[v].len()
        implies order.contains(#[trigger] preds[v][k]) by {
        assert(target.take(m).contains(preds[target[m]][k]));
        let i = choose|i: int| 0 <= i < target.take(m).len() && target.take(m)[i] == preds[v][k];
        assert(target[i] == preds[v][k]);
    }
    v
}

/// In a graph without a cycle, a sweep over a valid order that lacks a node
/// places at least one more.
proof fn lemma_sweep_progress(preds: Seq<Seq<int>>, order: Seq<int>)
    requires
        acyclic(preds),
        order.len() < preds.len(),
    ensures
        sweep(preds, order, 0).len() > order.len(),
{
    let v = lemma_some_node_ready(preds, order);
    lemma_sweep_places_ready(preds, order, 0, v);
    lemma_sweep_extends(preds, order, 0);
    let res = sweep(preds, order, 0);
    if res.len() == order.len() {
        let i = choose|i: int| 0 <= i < res.len() && res[i] == v;
        assert(order[i] == v);
        assert(false);
    }
}

/// In a graph without a cycle, `rounds` sweeps place at least `rounds` more
/// nodes, unless they place all.
proof fn lemma_sweeps_progress(preds: Seq<Seq<int>>, order: Seq<int>, rounds: nat)
    requires
        acyclic(preds),
        respects(preds, order),
    ensures
        sweeps(preds, order, rounds).len() >= preds.len() || sweeps(preds, order, rounds).len()
            >= order.len() + rounds,
    decreases rounds,
{
    if rounds > 0 {
        let next = sweep(preds, order, 0);
        lemma_sweep_respects(preds, order, 0);
        lemma_sweep_extends(preds, order, 0);
        if order.len() < preds.len() {
            lemma_sweep_progress(preds, order);
        }
        lemma_sweeps_progress(preds, next, (rounds - 1) as nat);
    }
}

/// The schedule lists nodes, none of them twice, each after all its
/// predecessors.
pub proof fn lemma_schedule_respects(preds: Seq<Seq<int>>)
    ensures
        respects(preds, schedule(preds)),
        schedule(preds).len() <= preds.len(),
{
    let start = Seq::<int>::empty();
    assert(respects(preds, start));
    lemma_sweeps_respects(preds, start, preds.len());
    lemma_distinct_nodes(preds.len(), schedule(preds));
}

/// The schedule holds every node exactly when the graph has no cycle, and
/// is then a topological order.
pub proof fn lemma_schedule_complete(preds: Seq<Seq<int>>)
    ensures
        acyclic(preds) <==> schedule(preds).len() == preds.len(),
        acyclic(preds) ==> is_topological_order(preds, schedule(preds)),
{
    lemma_schedule_respects(preds);
    if acyclic(preds) {
        let start = Seq::<int>::empty();
        assert(respects(preds, start));
        lemma_sweeps_progress(preds, start, preds.len());
    }
    if schedule(preds).len() == preds.len() {
        assert(is_topological_order(preds, schedule(preds)));
    }
}

/// A valid order that holds every node leaves no node ready.
pub(crate) proof fn lemma_full_order_is_idle(preds: Seq<Seq<int>>, order: Seq<int>)
    requires
        respects(preds, order),
        order.len() == preds.len(),
    ensures
        sweep(preds, order, 0) == order,
{
    lemma_distinct_nodes(preds.len(), order);
    lemma_sweep_idle(preds, order, 0);
}

/// Every entry of every predecessor list names a node.
pub open spec fn preds_in_range(preds: Seq<Seq<int>>) -> bool {
    forall|v: int, k: int|
        0 <= v < preds.len() && 0 <= k < preds[v].len()
            ==> 0 <= #[trigger] preds[v][k] < preds.len()
}

/// Entry `i + 1` of `walk` is a predecessor of entry `i`.
pub open spec fn back_step(preds: Seq<Seq<int>>, walk: Seq<int>, i: int) -> bool {
    preds[walk[i]].contains(walk[i + 1])
}

/// `walk` follows edges backwards, from a node to one of its predecessors
/// and on.
pub open spec fn is_back_walk(preds: Seq<Seq<int>>, walk: Seq<int>) -> bool {
    &&& walk.len() > 0
    &&& forall|i: int| 0 <= i < walk.len() ==> 0 <= #[trigger] walk[i] < preds.len()
    &&& forall|i: int| 0 <= i < walk.len() - 1 ==> #[trigger] back_step(preds, walk, i)
}

/// `walk` goes round a cycle: it takes at least one edge and ends where it
/// starts.
pub open spec fn is_cycle(preds: Seq<Seq<int>>, walk: Seq<int>) -> bool {
    &&& is_back_walk(preds, walk)
    &&& walk.len() >= 2
    &&& walk.last() == walk[0]
}

/// The graph has a cycle.
pub open spec fn has_cycle(preds: Seq<Seq<int>>) -> bool {
    exists|walk: Seq<int>| is_cycle(preds, walk)
}

/// In a valid order, a walk that follows edges backwards moves towards the
/// front: entry `i` of the walk stands at least `i` places before entry 0.
proof fn lemma_walk_moves_forward(
    preds: Seq<Seq<int>>,
    order: Seq<int>,
    walk: Seq<int>,
    i: int,
)
    requires
        is_topological_order(preds, order),
        is_back_walk(preds, walk),
        0 <= i < walk.len(),
    ensures
        order.contains(walk[i]),
        order.index_of(walk[i]) + i <= order.index_of(walk[0]),
    decreases i,
{
    lemma_distinct_nodes(preds.len(), order);
    assert(order.contains(walk[i]));
    if i > 0 {
        lemma_walk_moves_forward(preds, order, walk, i - 1);
        let node = walk[i - 1];
        let at = order.index_of(node);
        assert(back_step(preds, walk, i - 1));
        let ps = preds[node];
        let k = choose|k: int| 0 <= k < ps.len() && ps[k] == walk[i];
        assert(order.take(at).contains(preds[order[at]][k]));
        let before = choose|b: int| 0 <= b < order.take(at).len() && order.take(at)[b] == walk[i];
        assert(order[before] == walk[i]);
        assert(order[order.index_of(walk[i])] == walk[i]);
    }
}

/// A graph with a cycle has no topological order.
pub proof fn lemma_cycle_rules_out_order(preds: Seq<Seq<int>>, walk: Seq<int>)
    requires
        is_cycle(preds, walk),
    ensures
        !acyclic(preds),
{
    if acyclic(preds) {
        let order = choose|order: Seq<int>| is_topological_order(preds, order);
        lemma_walk_moves_forward(preds, order, walk, walk.len() - 1);
    }
}

/// No node is ready where a sweep changes nothing.
proof fn lemma_idle_sweep_finds_none_ready(preds: Seq<Seq<int>>, order: Seq<int>, v: int)
    requires
        sweep(preds, order, 0) == order,
    ensures
        !ready(preds, order, v),
{
    if ready(preds, order, v) {
        lemma_sweep_places_ready(preds, order, 0, v);
    }
}

/// In a graph without a topological order, sweeping on from a valid order
/// comes to a valid order that lacks a node and leaves no node ready.
proof fn lemma_sweeps_get_stuck(preds: Seq<Seq<int>>, order: Seq<int>) -> (stuck: Seq<int>)
    requires
        !acyclic(preds),
        respects(preds, order),
    ensures
        respects(preds, stuck),
        stuck.len() < preds.len(),
        forall|v: int| !ready(preds, stuck, v),
    decreases preds.len() - order.len(),
{
    lemma_distinct_nodes(preds.len(), order);
    let next = sweep(preds, order, 0);
    if next == order {
        assert(order.len() < preds.len()) by {
            if order.len() == preds.len() {
                assert(is_topological_order(preds, order));
            }
        }
        assert forall|v: int| !ready(preds, order, v) by {
            lemma_idle_sweep_finds_none_ready(preds, order, v);
        }
        order
    } else {
        lemma_sweep_extends(preds, order, 0);
        lemma_sweep_respects(preds, order, 0);
        lemma_distinct_nodes(preds.len(), next);
        assert(next.len() > order.len()) by {
            if next.len() == order.len() {
                assert(next =~= order);
            }
        }
        lemma_sweeps_get_stuck(preds, next)
    }
}

/// From an order that lacks a node and leaves no node ready, a walk of any
/// length leads backwards through nodes that the order lacks.
proof fn lemma_walk_through_unplaced(
    preds: Seq<Seq<int>>,
    order: Seq<int>,
    steps: nat,
) -> (walk: Seq<int>)
    requires
        preds_in_range(preds),
        order.len() < preds.len(),
        forall|v: int| !ready(preds, order, v),
    ensures
        walk.len() == steps + 1,
        is_back_walk(preds, walk),
        forall|i: int| 0 <= i < walk.len() ==> !order.contains(#[trigger] walk[i]),
    decreases steps,
{
    if steps == 0 {
        let start = lemma_missing_node(preds.len(), order);
        seq![start]
    } else {
        let front = lemma_walk_through_unplaced(preds, order, (steps - 1) as nat);
        let last = front[front.len() - 1];
        assert(!ready(preds, order, last));
        let k = choose|k: int| 0 <= k < preds[last].len() && !order.contains(preds[last][k]);
        let walk = front.push(preds[last][k]);
        assert forall|i: int| 0 <= i < walk.len() - 1
            implies #[trigger] back_step(preds, walk, i) by {
            if i < front.len() - 1 {
                assert(back_step(preds, front, i));
            }
            assert(walk[i] == front[i]);
        }
        walk
    }
}

/// A graph whose predecessor lists name nodes only, and which has no
/// topological order, has a cycle.
pub proof fn lemma_no_order_means_cycle(preds: Seq<Seq<int>>) -> (walk: Seq<int>)
    requires
        preds_in_range(preds),
        !acyclic(preds),
    ensures
        is_cycle(preds, walk),
{
    let nothing = Seq::<int>::empty();
    assert(respects(preds, nothing));
    let stuck = lemma_sweeps_get_stuck(preds, nothing);
    let long = lemma_walk_through_unplaced(preds, stuck, preds.len());
    if long.no_duplicates() {
        lemma_distinct_nodes(preds.len(), long);
    }
    let (i, j) = choose|i: int, j: int|
        0 <= i < long.len() && 0 <= j < long.len() && i != j && long[i] == long[j];
    let (a, b) = if i < j {
        (i, j)
    } else {
        (j, i)
    };
    let walk = long.subrange(a, b + 1);
    assert forall|x: int| 0 <= x < walk.len() - 1
        implies #[trigger] back_step(preds, walk, x) by {
        assert(back_step(preds, long, a + x));
    }
    assert forall|x: int| 0 <= x < walk.len()
        implies 0 <= #[trigger] walk[x] < preds.len() by {
        assert(walk[x] == long[a + x]);
    }
    walk
}

/// A graph whose predecessor lists name nodes only has a topological order
/// exactly when it has no cycle.
pub proof fn lemma_acyclic_means_no_cycle(preds: Seq<Seq<int>>)
    requires
        preds_in_range(preds),
    ensures
        acyclic(preds) <==> !has_cycle(preds),
{
    if has_cycle(preds) {
        let walk = choose|walk: Seq<int>| is_cycle(preds, walk);
        lemma_cycle_rules_out_order(preds, walk);
    }
    if !acyclic(preds) {
        let walk = lemma_no_order_means_cycle(preds);
    }
}

/// What `rounds` sweeps from nothing have placed is the schedule, as soon
/// as one more sweep would add nothing.
pub proof fn lemma_schedule_is_stable(preds: Seq<Seq<int>>, rounds: nat)
    requires
        rounds <= preds.len(),
        sweep(preds, sweeps(preds, Seq::empty(), rounds), 0) == sweeps(
            preds,
            Seq::empty(),
            rounds,
        ),
    ensures
        schedule(preds) == sweeps(preds, Seq::empty(), rounds),
{
    let start = Seq::<int>::empty();
    let rest = (preds.len() - rounds) as nat;
    lemma_sweeps_split(preds, start, rounds, rest);
    lemma_sweeps_idle(preds, sweeps(preds, start, rounds), rest);
}

} // verus!
