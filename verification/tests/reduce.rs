use thriller_core::{
    AttachedEdge, MemoryLevel, Task, ThrillerBlock, ThrillerEdge, ThrillerError, ThrillerGraph,
    ThrillerNode, ThrillerNodeInner, ThrillerResult,
};

struct Quiet;

impl Task for Quiet {
    fn emit(&self) -> ThrillerResult<String> {
        Err(ThrillerError::CodeGen("reducing must not emit".to_string()))
    }
}

fn op(id: usize) -> ThrillerNode {
    ThrillerNode::new(id, ThrillerNodeInner::Op(Box::new(Quiet)))
}

fn block(id: usize, outputs: Option<Vec<AttachedEdge>>) -> ThrillerNode {
    let block = ThrillerBlock { body: Box::new(Quiet), outputs };
    ThrillerNode::new(id, ThrillerNodeInner::Block(block))
}

fn hand_off(src: usize, dst: usize) -> AttachedEdge {
    AttachedEdge { src, dst }
}

fn graph_of(nodes: Vec<ThrillerNode>, edges: &[(usize, usize)]) -> ThrillerGraph {
    let mut graph = ThrillerGraph::new(1, MemoryLevel::Register);
    graph.add_nodes(nodes);
    let mut list = Vec::new();
    for (i, (src, dst)) in edges.iter().enumerate() {
        list.push(ThrillerEdge::new(i, *src, *dst));
    }
    graph.add_edges(list);
    assert_eq!(graph.connect(), Ok(()));
    graph
}

#[test]
fn no_block_reduces_to_nothing() {
    let graph = graph_of(
        vec![op(1), ThrillerNode::new(2, ThrillerNodeInner::Buffer(0)), op(3)],
        &[(0, 1), (1, 2)],
    );
    assert_eq!(graph.reduce_block_outputs(), Ok(None));
}

#[test]
fn only_block_gives_its_list_in_its_own_order() {
    let outputs = vec![hand_off(3, 1), hand_off(1, 2), hand_off(2, 2)];
    let graph = graph_of(vec![op(1), block(2, Some(outputs.clone())), op(3)], &[(0, 1), (1, 2)]);
    assert_eq!(graph.reduce_block_outputs(), Ok(Some(outputs)));
}

#[test]
fn only_block_is_found_wherever_it_stands() {
    let outputs = vec![hand_off(7, 8)];
    let graph = graph_of(vec![op(1), op(2), block(3, Some(outputs.clone()))], &[(2, 0)]);
    assert_eq!(graph.topo_sort(), Ok(vec![1, 2, 0]));
    assert_eq!(graph.reduce_block_outputs(), Ok(Some(outputs)));
}

#[test]
fn block_with_empty_list_gives_empty_list() {
    let graph = graph_of(vec![block(1, Some(vec![]))], &[]);
    assert_eq!(graph.reduce_block_outputs(), Ok(Some(vec![])));
}

#[test]
fn block_that_reduces_to_nothing_gives_nothing() {
    let graph = graph_of(vec![block(1, None)], &[]);
    assert_eq!(graph.reduce_block_outputs(), Ok(None));
}

#[test]
fn first_block_in_schedule_order_decides() {
    let early = vec![hand_off(1, 1)];
    let late = vec![hand_off(2, 2)];
    let graph = graph_of(
        vec![block(1, Some(late.clone())), block(2, Some(early.clone()))],
        &[(1, 0)],
    );
    assert_eq!(graph.topo_sort(), Ok(vec![1, 0]));
    assert_eq!(graph.reduce_block_outputs(), Ok(Some(early)));
}

#[test]
fn later_blocks_are_not_consulted_after_a_first_that_yields_nothing() {
    let graph = graph_of(vec![block(1, None), block(2, Some(vec![hand_off(2, 2)]))], &[(0, 1)]);
    assert_eq!(graph.reduce_block_outputs(), Ok(None));
}

#[test]
fn block_reduce_hands_out_its_outputs() {
    let outputs = vec![hand_off(4, 5)];
    let with = ThrillerBlock { body: Box::new(Quiet), outputs: Some(outputs.clone()) };
    assert_eq!(with.reduce(), Some(&outputs));
    let without = ThrillerBlock { body: Box::new(Quiet), outputs: None };
    assert_eq!(without.reduce(), None);
}

#[test]
fn reduce_on_a_cycle_is_an_error() {
    let mut graph = ThrillerGraph::new(1, MemoryLevel::Register);
    graph.add_nodes(vec![block(1, Some(vec![hand_off(1, 1)])), op(2)]);
    graph.add_edges(vec![ThrillerEdge::new(1, 0, 1), ThrillerEdge::new(2, 1, 0)]);
    assert_eq!(graph.connect(), Ok(()));
    assert_eq!(graph.reduce_block_outputs(), Err(ThrillerError::CycleDetected));
}
