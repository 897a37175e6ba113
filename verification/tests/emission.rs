use std::cell::Cell;
use std::rc::Rc;
use thriller_core::task::append_fragment;
use thriller_core::{
    AttachedEdge, MemoryLevel, Task, ThrillerBlock, ThrillerEdge, ThrillerError, ThrillerGraph,
    ThrillerNode, ThrillerNodeInner, ThrillerResult,
};

struct Counted {
    text: String,
    fails: bool,
    calls: Rc<Cell<usize>>,
}

impl Task for Counted {
    fn emit(&self) -> ThrillerResult<String> {
        self.calls.set(self.calls.get() + 1);
        if self.fails {
            Err(ThrillerError::CodeGen(self.text.clone()))
        } else {
            Ok(self.text.clone())
        }
    }
}

fn task(text: &str, fails: bool, calls: &Rc<Cell<usize>>) -> Box<dyn Task> {
    Box::new(Counted { text: text.to_string(), fails, calls: calls.clone() })
}

fn chain(nodes: Vec<ThrillerNode>) -> ThrillerGraph {
    let count = nodes.len();
    let mut graph = ThrillerGraph::new(1, MemoryLevel::Register);
    graph.add_nodes(nodes);
    let mut edges = Vec::new();
    for i in 1..count {
        edges.push(ThrillerEdge::new(i, i - 1, i));
    }
    graph.add_edges(edges);
    assert_eq!(graph.connect(), Ok(()));
    graph
}

#[test]
fn fragments_are_joined_in_schedule_order() {
    let calls = Rc::new(Cell::new(0));
    let mut graph = ThrillerGraph::new(1, MemoryLevel::Register);
    graph.add_nodes(vec![
        ThrillerNode::new(1, ThrillerNodeInner::Op(task("last;", false, &calls))),
        ThrillerNode::new(2, ThrillerNodeInner::Op(task("first;", false, &calls))),
        ThrillerNode::new(3, ThrillerNodeInner::Op(task("middle;", false, &calls))),
    ]);
    graph.add_edges(vec![ThrillerEdge::new(1, 1, 2), ThrillerEdge::new(2, 2, 0)]);
    assert_eq!(graph.connect(), Ok(()));
    assert_eq!(graph.emit(), Ok("first;middle;last;".to_string()));
    assert_eq!(calls.get(), 3);
}

#[test]
fn buffer_adds_nothing() {
    let calls = Rc::new(Cell::new(0));
    let graph = chain(vec![
        ThrillerNode::new(1, ThrillerNodeInner::Op(task("a", false, &calls))),
        ThrillerNode::new(2, ThrillerNodeInner::Buffer(40)),
        ThrillerNode::new(3, ThrillerNodeInner::Op(task("b", false, &calls))),
    ]);
    assert_eq!(graph.emit(), Ok("ab".to_string()));
}

#[test]
fn block_emits_its_body() {
    let calls = Rc::new(Cell::new(0));
    let block = ThrillerBlock { body: task("{body}", false, &calls), outputs: None };
    let graph = chain(vec![
        ThrillerNode::new(1, ThrillerNodeInner::Op(task("pre", false, &calls))),
        ThrillerNode::new(2, ThrillerNodeInner::Block(block)),
        ThrillerNode::new(3, ThrillerNodeInner::Op(task("post", false, &calls))),
    ]);
    assert_eq!(graph.emit(), Ok("pre{body}post".to_string()));
}

#[test]
fn first_failure_ends_the_call_and_comes_back_unchanged() {
    let calls = Rc::new(Cell::new(0));
    let graph = chain(vec![
        ThrillerNode::new(1, ThrillerNodeInner::Op(task("a", false, &calls))),
        ThrillerNode::new(2, ThrillerNodeInner::Op(task("no kernel for b", true, &calls))),
        ThrillerNode::new(3, ThrillerNodeInner::Op(task("c", false, &calls))),
        ThrillerNode::new(4, ThrillerNodeInner::Op(task("no kernel for d", true, &calls))),
    ]);
    assert_eq!(graph.emit(), Err(ThrillerError::CodeGen("no kernel for b".to_string())));
    assert_eq!(calls.get(), 2);
}

#[test]
fn failing_block_fails_the_graph() {
    let calls = Rc::new(Cell::new(0));
    let block = ThrillerBlock { body: task("broken block", true, &calls), outputs: None };
    let graph = chain(vec![
        ThrillerNode::new(1, ThrillerNodeInner::Block(block)),
        ThrillerNode::new(2, ThrillerNodeInner::Op(task("never", false, &calls))),
    ]);
    assert_eq!(graph.emit(), Err(ThrillerError::CodeGen("broken block".to_string())));
    assert_eq!(calls.get(), 1);
}

#[test]
fn graph_is_a_task_that_a_block_can_hold() {
    let calls = Rc::new(Cell::new(0));
    let inner = chain(vec![
        ThrillerNode::new(1, ThrillerNodeInner::Op(task("x", false, &calls))),
        ThrillerNode::new(2, ThrillerNodeInner::Op(task("y", false, &calls))),
    ]);
    let block = ThrillerBlock {
        body: Box::new(inner),
        outputs: Some(vec![AttachedEdge { src: 1, dst: 2 }]),
    };
    let outer = chain(vec![
        ThrillerNode::new(3, ThrillerNodeInner::Op(task("<", false, &calls))),
        ThrillerNode::new(4, ThrillerNodeInner::Block(block)),
        ThrillerNode::new(5, ThrillerNodeInner::Op(task(">", false, &calls))),
    ]);
    assert_eq!(outer.emit(), Ok("<xy>".to_string()));
}

#[test]
fn cycle_inside_a_block_comes_back_unchanged() {
    let calls = Rc::new(Cell::new(0));
    let mut inner = ThrillerGraph::new(9, MemoryLevel::Register);
    inner.add_nodes(vec![
        ThrillerNode::new(1, ThrillerNodeInner::Op(task("x", false, &calls))),
        ThrillerNode::new(2, ThrillerNodeInner::Op(task("y", false, &calls))),
    ]);
    inner.add_edges(vec![ThrillerEdge::new(1, 0, 1), ThrillerEdge::new(2, 1, 0)]);
    assert_eq!(inner.connect(), Ok(()));
    let block = ThrillerBlock { body: Box::new(inner), outputs: None };
    let outer = chain(vec![ThrillerNode::new(3, ThrillerNodeInner::Block(block))]);
    assert_eq!(outer.emit(), Err(ThrillerError::CycleDetected));
    assert_eq!(calls.get(), 0);
}

#[test]
fn emit_can_be_repeated() {
    let calls = Rc::new(Cell::new(0));
    let graph = chain(vec![
        ThrillerNode::new(1, ThrillerNodeInner::Op(task("a", false, &calls))),
        ThrillerNode::new(2, ThrillerNodeInner::Op(task("b", false, &calls))),
    ]);
    assert_eq!(graph.emit(), Ok("ab".to_string()));
    assert_eq!(graph.emit(), Ok("ab".to_string()));
}

#[test]
fn append_fragment_appends() {
    let mut code = String::from("ab");
    assert_eq!(append_fragment(&mut code, Ok("cd".to_string())), Ok(()));
    assert_eq!(code, "abcd");
    assert_eq!(append_fragment(&mut code, Ok(String::new())), Ok(()));
    assert_eq!(code, "abcd");
}

#[test]
fn append_fragment_hands_a_failure_back() {
    let mut code = String::from("ab");
    let failure = ThrillerError::CodeGen("bad".to_string());
    assert_eq!(
        append_fragment(&mut code, Err(ThrillerError::CodeGen("bad".to_string()))),
        Err(failure)
    );
    assert_eq!(code, "ab");
    assert_eq!(
        append_fragment(&mut code, Err(ThrillerError::CycleDetected)),
        Err(ThrillerError::CycleDetected)
    );
}

#[test]
fn node_keeps_its_id_and_payload() {
    let node = ThrillerNode::new(12, ThrillerNodeInner::Buffer(5));
    assert_eq!(node.get_id(), 12);
    assert!(matches!(node.get_inner(), ThrillerNodeInner::Buffer(5)));
}
