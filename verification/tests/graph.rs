use tensor_rewrite::edge::Side;
use tensor_rewrite::fault::Fault;
use tensor_rewrite::graph::Graph;
use tensor_rewrite::node::{Op, OpKind};
use tensor_rewrite::view::ShapeView;

fn plain(sizes: &[usize]) -> ShapeView {
    ShapeView::contiguous(&sizes.to_vec()).unwrap()
}

fn sorted(mut v: Vec<u32>) -> Vec<u32> {
    v.sort();
    v
}

/// a and b feed add; add feeds out.
fn small() -> (Graph, u32, u32, u32, u32) {
    let mut g = Graph::new();
    let a = g.add_node(Op::Input);
    let b = g.add_node(Op::Input);
    let add = g.add_node(Op::Add);
    let out = g.add_node(Op::SumReduce(0));
    g.wire(a, 0, add, 0, plain(&[3])).unwrap();
    g.wire(b, 0, add, 1, plain(&[3])).unwrap();
    g.wire(add, 0, out, 0, plain(&[3])).unwrap();
    (g, a, b, add, out)
}

#[test]
fn new_graph_is_empty() {
    let g = Graph::new();
    assert_eq!(g.node_count(), 0);
    assert_eq!(g.edge_count(), 0);
    assert_eq!(g.node_ids(), Vec::<u32>::new());
    assert!(!g.contains(0));
    assert_eq!(g.op_of(0), None);
    assert!(g.is_fully_wired());
}

#[test]
fn nodes_keep_their_operators() {
    let mut g = Graph::new();
    let a = g.add_node(Op::Constant(7));
    let b = g.add_node(Op::Gather(3));
    assert!(a != b);
    assert_eq!(g.op_of(a), Some(Op::Constant(7)));
    assert_eq!(g.op_of(b), Some(Op::Gather(3)));
    assert_eq!(g.op_of(b).unwrap().kind(), OpKind::Gather);
    assert_eq!(g.node_count(), 2);
    assert_eq!(sorted(g.node_ids()), sorted(vec![a, b]));
    assert!(g.contains(a));
}

#[test]
fn wire_records_slots_and_view() {
    let (g, a, b, add, out) = small();
    assert_eq!(g.edge_count(), 3);
    let ins = g.edges_of(add, Side::Incoming);
    assert_eq!(ins.len(), 2);
    let first = g.input_at(add, 0).unwrap();
    assert_eq!((first.source, first.target), (a, add));
    assert_eq!(first.link.output_slot, 0);
    assert_eq!(first.link.input_slot, 0);
    assert_eq!(first.link.view, plain(&[3]));
    let second = g.input_at(add, 1).unwrap();
    assert_eq!(second.source, b);
    assert_eq!(g.input_at(add, 2), Err(Fault::StructuralMismatch));
    assert_eq!(g.consumer_count(add), 1);
    assert_eq!(g.consumer_count(out), 0);
    let outs = g.edges_of(add, Side::Outgoing);
    assert_eq!(outs.len(), 1);
    assert_eq!(outs[0].target, out);
    assert_eq!(g.find_feed(a, add, 0).unwrap().id, first.id);
    assert_eq!(g.find_feed(a, add, 1), Err(Fault::StructuralMismatch));
    assert_eq!(g.find_feed(b, add, 0), Err(Fault::StructuralMismatch));
    assert_eq!(g.edges_between(a, add).len(), 1);
    assert_eq!(g.edges_between(a, add)[0].id, first.id);
    assert_eq!(g.edges_between(add, a).len(), 0);
    assert_eq!(g.edges_between(a, out).len(), 0);
}

#[test]
fn wire_to_a_missing_node_is_a_structural_mismatch() {
    let mut g = Graph::new();
    let a = g.add_node(Op::Input);
    assert_eq!(g.wire(a, 0, a + 1, 0, plain(&[1])), Err(Fault::StructuralMismatch));
    assert_eq!(g.wire(a + 1, 0, a, 0, plain(&[1])), Err(Fault::StructuralMismatch));
    assert_eq!(g.edge_count(), 0);
}

#[test]
fn wiring_is_checked_per_node() {
    let (mut g, a, _b, add, out) = small();
    assert!(g.is_fully_wired());
    assert!(g.node_is_wired(add));
    // a second edge into slot 0
    g.wire(a, 0, out, 0, plain(&[3])).unwrap();
    assert!(!g.node_is_wired(out));
    assert!(!g.is_fully_wired());
}

#[test]
fn gap_in_the_slots_is_not_wired() {
    let mut g = Graph::new();
    let a = g.add_node(Op::Input);
    let add = g.add_node(Op::Add);
    g.wire(a, 0, add, 1, plain(&[3])).unwrap();
    assert!(!g.node_is_wired(add));
    g.wire(a, 0, add, 0, plain(&[3])).unwrap();
    assert!(g.node_is_wired(add));
}

#[test]
fn remove_node_takes_its_edges_along() {
    let (mut g, a, b, add, out) = small();
    assert_eq!(g.remove_node(add), Some(Op::Add));
    assert!(!g.contains(add));
    assert_eq!(g.edge_count(), 0);
    assert_eq!(g.remove_node(add), None);
    assert_eq!(sorted(g.node_ids()), sorted(vec![a, b, out]));
    assert_eq!(g.consumer_count(a), 0);
}

#[test]
fn safe_remove_node_spares_what_is_consumed() {
    let (mut g, a, _b, add, out) = small();
    assert!(!g.safe_remove_node(add, 0));
    assert!(g.contains(add));
    assert_eq!(g.edge_count(), 3);
    assert!(g.safe_remove_node(add, 1));
    assert!(!g.contains(add));
    assert_eq!(g.edge_count(), 0);
    assert!(g.safe_remove_node(out, 0));
    assert!(!g.safe_remove_node(out, 0));
    assert!(g.safe_remove_node(a, 5));
}

#[test]
fn move_outgoing_edges_hands_the_consumers_over() {
    let (mut g, _a, _b, add, out) = small();
    let other = g.add_node(Op::Sub);
    let moves = g.move_outgoing_edges(add, other).unwrap();
    assert_eq!(moves.len(), 1);
    assert_eq!(g.consumer_count(add), 0);
    assert_eq!(g.consumer_count(other), 1);
    let e = g.input_at(out, 0).unwrap();
    assert_eq!(e.source, other);
    assert_eq!(e.id, moves[0].1);
    assert_eq!(e.link.view, plain(&[3]));
    assert_eq!(g.edge_count(), 3);
    assert!(g.is_fully_wired());
}

#[test]
fn move_incoming_edges_hands_the_inputs_over() {
    let (mut g, a, b, add, _out) = small();
    let other = g.add_node(Op::Sub);
    let moves = g.move_incoming_edges(add, other).unwrap();
    assert_eq!(moves.len(), 2);
    assert_eq!(g.edges_of(add, Side::Incoming).len(), 0);
    assert_eq!(g.input_at(other, 0).unwrap().source, a);
    assert_eq!(g.input_at(other, 1).unwrap().source, b);
    assert_eq!(g.edge_count(), 3);
}

#[test]
fn move_to_a_missing_node_is_a_structural_mismatch() {
    let (mut g, _a, _b, add, _out) = small();
    assert_eq!(g.move_outgoing_edges(add, 99), Err(Fault::StructuralMismatch));
    assert_eq!(g.move_incoming_edges(add, 99), Err(Fault::StructuralMismatch));
    assert_eq!(g.edge_count(), 3);
    assert_eq!(g.consumer_count(add), 1);
}

#[test]
fn move_onto_the_same_node_changes_nothing() {
    let (mut g, _a, _b, add, _out) = small();
    assert_eq!(g.move_outgoing_edges(add, add), Ok(vec![]));
    assert_eq!(g.move_incoming_edges(add, add), Ok(vec![]));
    assert_eq!(g.consumer_count(add), 1);
    assert_eq!(g.edges_of(add, Side::Incoming).len(), 2);
}

#[test]
fn node_numbers_stay_when_another_node_goes() {
    let (mut g, a, b, add, out) = small();
    g.remove_node(a);
    assert_eq!(g.op_of(b), Some(Op::Input));
    assert_eq!(g.op_of(add), Some(Op::Add));
    assert_eq!(g.op_of(out), Some(Op::SumReduce(0)));
    let fresh = g.add_node(Op::Mul);
    assert!(fresh != b && fresh != add && fresh != out);
    assert_eq!(g.op_of(fresh), Some(Op::Mul));
    assert_eq!(g.node_count(), 4);
    let ids = g.node_ids();
    assert!(ids.windows(2).all(|w| w[0] < w[1]));
}
