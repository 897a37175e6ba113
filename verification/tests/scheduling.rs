use thriller_core::{
    MemoryLevel, Task, ThrillerEdge, ThrillerError, ThrillerGraph, ThrillerNode,
    ThrillerNodeInner, ThrillerResult,
};

struct NamedOp {
    name: String,
}

impl Task for NamedOp {
    fn emit(&self) -> ThrillerResult<String> {
        Ok(self.name.clone())
    }
}

fn op(id: usize, name: &str) -> ThrillerNode {
    ThrillerNode::new(id, ThrillerNodeInner::Op(Box::new(NamedOp { name: name.to_string() })))
}

fn named_graph(names: &[&str], edges: &[(usize, usize)]) -> ThrillerGraph {
    let mut graph = ThrillerGraph::new(0, MemoryLevel::Register);
    let mut nodes = Vec::new();
    for (i, name) in names.iter().enumerate() {
        nodes.push(op(i + 1, name));
    }
    graph.add_nodes(nodes);
    let mut list = Vec::new();
    for (i, (src, dst)) in edges.iter().enumerate() {
        list.push(ThrillerEdge::new(100 + i, *src, *dst));
    }
    graph.add_edges(list);
    graph
}

fn connected(count: usize, edges: &[(usize, usize)]) -> ThrillerGraph {
    let names: Vec<String> = (0..count).map(|i| format!("n{}", i)).collect();
    let refs: Vec<&str> = names.iter().map(|s| s.as_str()).collect();
    let mut graph = named_graph(&refs, edges);
    assert_eq!(graph.connect(), Ok(()));
    graph
}

fn assert_topological(count: usize, edges: &[(usize, usize)], order: &[usize]) {
    assert_eq!(order.len(), count);
    let mut position = vec![usize::MAX; count];
    for (at, node) in order.iter().enumerate() {
        assert!(*node < count);
        assert_eq!(position[*node], usize::MAX);
        position[*node] = at;
    }
    for (src, dst) in edges {
        assert!(position[*src] < position[*dst]);
    }
}

#[test]
fn diamond_in_degrees() {
    let mut graph = named_graph(&["A", "B", "C"], &[(0, 1), (0, 2), (1, 2)]);
    assert_eq!(graph.connect(), Ok(()));
    let nodes = graph.get_nodes();
    assert_eq!(nodes[0].get_in_degrees(), 0);
    assert_eq!(nodes[1].get_in_degrees(), 1);
    assert_eq!(nodes[2].get_in_degrees(), 2);
}

#[test]
fn diamond_topo_sort() {
    let mut graph = named_graph(&["A", "B", "C"], &[(0, 1), (0, 2), (1, 2)]);
    assert_eq!(graph.connect(), Ok(()));
    assert_eq!(graph.topo_sort(), Ok(vec![0, 1, 2]));
}

#[test]
fn diamond_emit() {
    let mut graph = named_graph(&["A", "B", "C"], &[(0, 1), (0, 2), (1, 2)]);
    assert_eq!(graph.connect(), Ok(()));
    assert_eq!(graph.emit(), Ok("ABC".to_string()));
}

#[test]
fn diamond_added_in_reverse() {
    let mut graph = named_graph(&["C", "B", "A"], &[(2, 1), (2, 0), (1, 0)]);
    assert_eq!(graph.connect(), Ok(()));
    assert_eq!(graph.topo_sort(), Ok(vec![2, 1, 0]));
    assert_eq!(graph.emit(), Ok("ABC".to_string()));
}

#[test]
fn cycle_is_reported() {
    let mut graph = named_graph(&["A", "B"], &[(0, 1), (1, 0)]);
    assert_eq!(graph.connect(), Ok(()));
    assert_eq!(graph.topo_sort(), Err(ThrillerError::CycleDetected));
    assert_eq!(graph.emit(), Err(ThrillerError::CycleDetected));
    assert_eq!(graph.reduce_block_outputs(), Err(ThrillerError::CycleDetected));
}

#[test]
fn cycle_behind_a_valid_prefix_is_reported() {
    let graph = connected(4, &[(0, 1), (1, 2), (2, 3), (3, 1)]);
    assert_eq!(graph.topo_sort(), Err(ThrillerError::CycleDetected));
}

#[test]
fn multi_edge_counts_twice() {
    let mut graph = named_graph(&["A", "B"], &[(0, 1), (0, 1)]);
    assert_eq!(graph.connect(), Ok(()));
    let nodes = graph.get_nodes();
    assert_eq!(nodes[1].get_in_degrees(), 2);
    assert_eq!(nodes[1].get_prevs(), &vec![0, 0]);
    assert_eq!(nodes[0].get_nexts(), &vec![1, 1]);
    assert_eq!(graph.topo_sort(), Ok(vec![0, 1]));
    assert_eq!(graph.emit(), Ok("AB".to_string()));
}

#[test]
fn empty_graph_has_empty_order() {
    let mut graph = ThrillerGraph::new(0, MemoryLevel::Register);
    assert_eq!(graph.connect(), Ok(()));
    assert_eq!(graph.topo_sort(), Ok(vec![]));
    assert_eq!(graph.emit(), Ok(String::new()));
    assert_eq!(graph.reduce_block_outputs(), Ok(None));
}

#[test]
fn unconnected_nodes_come_in_ascending_position() {
    let graph = connected(4, &[]);
    assert_eq!(graph.topo_sort(), Ok(vec![0, 1, 2, 3]));
}

#[test]
fn edges_that_were_not_connected_do_not_count() {
    let graph = named_graph(&["A", "B"], &[(1, 0)]);
    assert_eq!(graph.topo_sort(), Ok(vec![0, 1]));
}

#[test]
fn node_made_ready_within_a_sweep_is_placed_in_it() {
    let graph = connected(3, &[(0, 2), (1, 2)]);
    assert_eq!(graph.topo_sort(), Ok(vec![0, 1, 2]));
}

#[test]
fn node_made_ready_behind_the_sweep_waits_for_the_next() {
    let graph = connected(3, &[(2, 0)]);
    assert_eq!(graph.topo_sort(), Ok(vec![1, 2, 0]));
}

#[test]
fn backward_chain_takes_one_sweep_per_node() {
    let graph = connected(4, &[(3, 2), (2, 1), (1, 0)]);
    assert_eq!(graph.topo_sort(), Ok(vec![3, 2, 1, 0]));
}

#[test]
fn mixed_graph_follows_the_sweeps() {
    let edges = [(4, 0), (0, 3), (1, 3), (3, 2), (5, 1)];
    let graph = connected(6, &edges);
    let order = graph.topo_sort().unwrap();
    assert_eq!(order, vec![4, 5, 0, 1, 3, 2]);
    assert_topological(6, &edges, &order);
}

#[test]
fn every_edge_points_forward() {
    let edges = [(5, 2), (5, 0), (4, 0), (4, 1), (2, 3), (3, 1), (5, 2)];
    let graph = connected(6, &edges);
    let order = graph.topo_sort().unwrap();
    assert_topological(6, &edges, &order);
}

#[test]
fn topo_sort_is_repeatable_and_leaves_in_degrees() {
    let graph = connected(3, &[(2, 1), (1, 0)]);
    let first = graph.topo_sort();
    let second = graph.topo_sort();
    assert_eq!(first, Ok(vec![2, 1, 0]));
    assert_eq!(first, second);
    let degrees: Vec<usize> = graph.get_nodes().iter().map(|n| n.get_in_degrees()).collect();
    assert_eq!(degrees, vec![1, 1, 0]);
}
