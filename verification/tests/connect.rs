use thriller_core::{
    MemoryLevel, ThrillerEdge, ThrillerError, ThrillerGraph, ThrillerNode, ThrillerNodeInner,
};

fn buffers(count: usize) -> Vec<ThrillerNode> {
    let mut nodes = Vec::new();
    for i in 0..count {
        nodes.push(ThrillerNode::new(10 + i, ThrillerNodeInner::Buffer(i)));
    }
    nodes
}

fn graph_of(count: usize, edges: &[(usize, usize)]) -> ThrillerGraph {
    let mut graph = ThrillerGraph::new(7, MemoryLevel::Shared);
    graph.add_nodes(buffers(count));
    let mut list = Vec::new();
    for (i, (src, dst)) in edges.iter().enumerate() {
        list.push(ThrillerEdge::new(100 + i, *src, *dst));
    }
    graph.add_edges(list);
    graph
}

#[test]
fn new_graph_is_empty() {
    let graph = ThrillerGraph::new(3, MemoryLevel::Global);
    assert_eq!(graph.get_id(), 3);
    assert_eq!(graph.get_mem_level(), MemoryLevel::Global);
    assert!(graph.get_nodes().is_empty());
    assert!(graph.get_edges().is_empty());
}

#[test]
fn nodes_and_edges_are_appended_in_order() {
    let mut graph = graph_of(2, &[(0, 1)]);
    graph.add_nodes(buffers(1));
    graph.add_edges(vec![ThrillerEdge::new(200, 1, 2)]);
    let ids: Vec<usize> = graph.get_nodes().iter().map(|n| n.get_id()).collect();
    assert_eq!(ids, vec![10, 11, 10]);
    let edges: Vec<(usize, usize, usize)> =
        graph.get_edges().iter().map(|e| (e.get_id(), e.get_src(), e.get_dst())).collect();
    assert_eq!(edges, vec![(100, 0, 1), (200, 1, 2)]);
    for node in graph.get_nodes() {
        assert_eq!(node.get_in_degrees(), 0);
        assert!(node.get_nexts().is_empty());
        assert!(node.get_prevs().is_empty());
        assert!(node.get_in_edges().is_empty());
        assert!(node.get_out_edges().is_empty());
    }
}

#[test]
fn connect_records_adjacency_in_edge_order() {
    let mut graph = graph_of(3, &[(0, 1), (0, 2), (1, 2)]);
    assert_eq!(graph.connect(), Ok(()));
    let nodes = graph.get_nodes();
    assert_eq!(nodes[0].get_out_edges(), &vec![0, 1]);
    assert_eq!(nodes[0].get_nexts(), &vec![1, 2]);
    assert!(nodes[0].get_in_edges().is_empty());
    assert!(nodes[0].get_prevs().is_empty());
    assert_eq!(nodes[1].get_out_edges(), &vec![2]);
    assert_eq!(nodes[1].get_nexts(), &vec![2]);
    assert_eq!(nodes[1].get_in_edges(), &vec![0]);
    assert_eq!(nodes[1].get_prevs(), &vec![0]);
    assert!(nodes[2].get_out_edges().is_empty());
    assert_eq!(nodes[2].get_in_edges(), &vec![1, 2]);
    assert_eq!(nodes[2].get_prevs(), &vec![0, 1]);
}

#[test]
fn degrees_add_up_to_the_number_of_edges() {
    let edges = [(0, 1), (0, 2), (1, 2), (3, 2), (0, 1), (4, 4)];
    let mut graph = graph_of(5, &edges);
    assert_eq!(graph.connect(), Ok(()));
    let nodes = graph.get_nodes();
    let in_sum: usize = nodes.iter().map(|n| n.get_in_degrees()).sum();
    let out_sum: usize = nodes.iter().map(|n| n.get_out_edges().len()).sum();
    assert_eq!(in_sum, edges.len());
    assert_eq!(out_sum, edges.len());
    for (x, node) in nodes.iter().enumerate() {
        let into = edges.iter().filter(|(_, dst)| *dst == x).count();
        assert_eq!(node.get_in_degrees(), into);
        assert_eq!(node.get_in_edges().len(), into);
    }
    let per_node: Vec<usize> = nodes.iter().map(|n| n.get_in_degrees()).collect();
    assert_eq!(per_node, vec![0, 2, 3, 0, 1]);
}

#[test]
fn self_loop_is_both_in_and_out() {
    let mut graph = graph_of(1, &[(0, 0)]);
    assert_eq!(graph.connect(), Ok(()));
    let node = &graph.get_nodes()[0];
    assert_eq!(node.get_in_degrees(), 1);
    assert_eq!(node.get_nexts(), &vec![0]);
    assert_eq!(node.get_prevs(), &vec![0]);
    assert_eq!(graph.topo_sort(), Err(ThrillerError::CycleDetected));
}

#[test]
fn dangling_edge_is_rejected_and_nothing_changes() {
    let mut graph = graph_of(2, &[(0, 1), (1, 2), (5, 0)]);
    assert_eq!(graph.connect(), Err(ThrillerError::DanglingEdge(1)));
    for node in graph.get_nodes() {
        assert_eq!(node.get_in_degrees(), 0);
        assert!(node.get_nexts().is_empty());
        assert!(node.get_prevs().is_empty());
    }
    assert_eq!(graph.get_edges().len(), 3);
    assert_eq!(graph.topo_sort(), Ok(vec![0, 1]));
}

#[test]
fn dangling_source_is_rejected() {
    let mut graph = graph_of(2, &[(2, 1)]);
    assert_eq!(graph.connect(), Err(ThrillerError::DanglingEdge(0)));
}

#[test]
fn edge_becomes_valid_once_its_node_is_added() {
    let mut graph = graph_of(2, &[(0, 2)]);
    assert_eq!(graph.connect(), Err(ThrillerError::DanglingEdge(0)));
    graph.add_nodes(buffers(1));
    assert_eq!(graph.connect(), Ok(()));
    assert_eq!(graph.get_nodes()[2].get_in_degrees(), 1);
}

#[test]
fn second_connect_counts_every_edge_again() {
    let mut graph = graph_of(2, &[(0, 1)]);
    assert_eq!(graph.connect(), Ok(()));
    assert_eq!(graph.connect(), Ok(()));
    let nodes = graph.get_nodes();
    assert_eq!(nodes[1].get_in_degrees(), 2);
    assert_eq!(nodes[1].get_in_edges(), &vec![0, 0]);
    assert_eq!(nodes[0].get_nexts(), &vec![1, 1]);
    assert_eq!(graph.topo_sort(), Ok(vec![0, 1]));
}

#[test]
fn edge_getters_return_what_was_given() {
    let plain = ThrillerEdge::new(4, 1, 2);
    assert_eq!(plain.get_id(), 4);
    assert_eq!(plain.get_src(), 1);
    assert_eq!(plain.get_dst(), 2);
    assert_eq!(plain.get_attached(), None);
    let hand_off = thriller_core::AttachedEdge { src: 8, dst: 9 };
    let carrying = ThrillerEdge::with_attached(5, 2, 1, hand_off);
    assert_eq!(carrying.get_id(), 5);
    assert_eq!(carrying.get_src(), 2);
    assert_eq!(carrying.get_dst(), 1);
    assert_eq!(carrying.get_attached(), Some(hand_off));
}

#[test]
fn default_graph_is_empty_with_default_placement() {
    let graph = ThrillerGraph::default();
    assert_eq!(graph.get_id(), 0);
    assert_eq!(graph.get_mem_level(), MemoryLevel::Register);
    assert!(graph.get_nodes().is_empty());
    assert!(graph.get_edges().is_empty());
    assert_eq!(graph.topo_sort(), Ok(vec![]));
}

#[test]
fn default_placement_is_register() {
    assert_eq!(MemoryLevel::default(), MemoryLevel::Register);
}
