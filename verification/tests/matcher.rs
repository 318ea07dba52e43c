use tensor_rewrite::graph::Graph;
use tensor_rewrite::matcher::{listed, Matcher, MatcherState};
use tensor_rewrite::node::{Op, OpKind};
use tensor_rewrite::passes::{Fusion, NEGATIVE_ONE};
use tensor_rewrite::pattern::{Pattern, PatternNode};
use tensor_rewrite::view::ShapeView;

fn plain(sizes: &[usize]) -> ShapeView {
    ShapeView::contiguous(&sizes.to_vec()).unwrap()
}

/// y = a + (b * -1): returns the graph and the nodes a, b, -1, mul, add.
fn subtraction() -> (Graph, [u32; 5]) {
    let mut g = Graph::new();
    let a = g.add_node(Op::Input);
    let b = g.add_node(Op::Input);
    let c = g.add_node(Op::Constant(NEGATIVE_ONE));
    let mul = g.add_node(Op::Mul);
    let add = g.add_node(Op::Add);
    g.wire(b, 0, mul, 0, plain(&[3])).unwrap();
    g.wire(c, 0, mul, 1, plain(&[1]).broadcast(0, 3).unwrap().slice(&vec![(0, 3), (0, 1)]).unwrap())
        .unwrap();
    g.wire(a, 0, add, 0, plain(&[3])).unwrap();
    g.wire(mul, 0, add, 1, plain(&[3])).unwrap();
    (g, [a, b, c, mul, add])
}

#[test]
fn pattern_is_built_node_by_node() {
    let mut p = Pattern::new();
    assert_eq!(p.len(), 0);
    let lhs = p.any();
    let rhs = p.any();
    let c = p.constant(NEGATIVE_ONE);
    let mul = p.binary(OpKind::Mul, rhs, c).unwrap();
    let add = p.binary(OpKind::Add, lhs, mul).unwrap();
    assert_eq!((lhs, rhs, c, mul, add), (0, 1, 2, 3, 4));
    assert_eq!(p.node(3), Some(PatternNode::Binary(OpKind::Mul, 1, 2)));
    assert_eq!(p.node(5), None);
    assert_eq!(p, Fusion::Subtraction.pattern());
    assert_eq!(p.dup(), p);
    assert_eq!(p.unary(OpKind::SumReduce, 9), None);
    assert_eq!(p.binary(OpKind::Add, 0, 9), None);
    assert_eq!(p.len(), 5);
    assert_eq!(p.op(OpKind::ARange), 5);
    assert_eq!(p.unary(OpKind::SumReduce, 5), Some(6));
}

#[test]
fn match_at_binds_every_pattern_node() {
    let (g, [a, b, c, mul, add]) = subtraction();
    let p = Fusion::Subtraction.pattern();
    assert_eq!(
        p.match_at(&g, add),
        Some(vec![Some(a), Some(b), Some(c), Some(mul), Some(add)])
    );
    assert_eq!(p.match_at(&g, mul), None);
    assert_eq!(p.match_at(&g, a), None);
    assert_eq!(p.match_at(&g, 77), None);
    assert_eq!(Pattern::new().match_at(&g, add), None);
}

#[test]
fn match_needs_the_literal_and_the_slots() {
    let mut g = Graph::new();
    let a = g.add_node(Op::Input);
    let b = g.add_node(Op::Input);
    let c = g.add_node(Op::Constant(NEGATIVE_ONE));
    let mul = g.add_node(Op::Mul);
    let add = g.add_node(Op::Add);
    // the constant is the first input of the product, not the second
    g.wire(c, 0, mul, 0, plain(&[3])).unwrap();
    g.wire(b, 0, mul, 1, plain(&[3])).unwrap();
    g.wire(a, 0, add, 0, plain(&[3])).unwrap();
    g.wire(mul, 0, add, 1, plain(&[3])).unwrap();
    assert_eq!(Fusion::Subtraction.pattern().match_at(&g, add), None);

    let mut h = Graph::new();
    let a = h.add_node(Op::Input);
    let b = h.add_node(Op::Input);
    let two = h.add_node(Op::Constant(0x4000_0000));
    let mul = h.add_node(Op::Mul);
    let add = h.add_node(Op::Add);
    h.wire(b, 0, mul, 0, plain(&[3])).unwrap();
    h.wire(two, 0, mul, 1, plain(&[3])).unwrap();
    h.wire(a, 0, add, 0, plain(&[3])).unwrap();
    h.wire(mul, 0, add, 1, plain(&[3])).unwrap();
    assert_eq!(Fusion::Subtraction.pattern().match_at(&h, add), None);
}

#[test]
fn shared_pattern_node_stands_for_one_graph_node() {
    // x < y and y < x on the same x and y
    let mut p = Pattern::new();
    let x = p.any();
    let y = p.any();
    let lt1 = p.binary(OpKind::LessThan, x, y).unwrap();
    let lt2 = p.binary(OpKind::LessThan, y, x).unwrap();
    p.binary(OpKind::Add, lt1, lt2).unwrap();

    let mut g = Graph::new();
    let a = g.add_node(Op::Input);
    let b = g.add_node(Op::Input);
    let c = g.add_node(Op::Input);
    let l1 = g.add_node(Op::LessThan);
    let l2 = g.add_node(Op::LessThan);
    let l3 = g.add_node(Op::LessThan);
    let good = g.add_node(Op::Add);
    let bad = g.add_node(Op::Add);
    g.wire(a, 0, l1, 0, plain(&[2])).unwrap();
    g.wire(b, 0, l1, 1, plain(&[2])).unwrap();
    g.wire(b, 0, l2, 0, plain(&[2])).unwrap();
    g.wire(a, 0, l2, 1, plain(&[2])).unwrap();
    g.wire(c, 0, l3, 0, plain(&[2])).unwrap();
    g.wire(a, 0, l3, 1, plain(&[2])).unwrap();
    g.wire(l1, 0, good, 0, plain(&[2])).unwrap();
    g.wire(l2, 0, good, 1, plain(&[2])).unwrap();
    g.wire(l1, 0, bad, 0, plain(&[2])).unwrap();
    g.wire(l3, 0, bad, 1, plain(&[2])).unwrap();
    assert_eq!(
        p.match_at(&g, good),
        Some(vec![Some(a), Some(b), Some(l1), Some(l2), Some(good)])
    );
    assert_eq!(p.match_at(&g, bad), None);
}

#[test]
fn pattern_node_out_of_reach_stays_unbound() {
    let mut p = Pattern::new();
    p.any();
    let leaf = p.op(OpKind::Input);
    p.unary(OpKind::SumReduce, leaf).unwrap();
    let mut g = Graph::new();
    let a = g.add_node(Op::Input);
    let s = g.add_node(Op::SumReduce(0));
    g.wire(a, 0, s, 0, plain(&[2])).unwrap();
    assert_eq!(p.match_at(&g, s), Some(vec![None, Some(a), Some(s)]));
}

#[test]
fn search_goes_through_all_occurrences() {
    let mut g = Graph::new();
    let a = g.add_node(Op::Input);
    let s1 = g.add_node(Op::SumReduce(0));
    let s2 = g.add_node(Op::SumReduce(0));
    let m1 = g.add_node(Op::Mul);
    g.wire(a, 0, s1, 0, plain(&[2])).unwrap();
    g.wire(a, 0, s2, 0, plain(&[2])).unwrap();
    g.wire(a, 0, m1, 0, plain(&[2])).unwrap();
    let mut p = Pattern::new();
    let x = p.any();
    let root = p.unary(OpKind::SumReduce, x).unwrap();
    let mut m = Matcher::new(p);
    assert_eq!(m.status(), MatcherState::Invalidated);
    assert_eq!(m.resolve(root), None);
    let mut roots = Vec::new();
    while m.next_match(&g) {
        assert_eq!(m.status(), MatcherState::ProducedMatch);
        assert_eq!(m.resolve(x), Some(a));
        roots.push(m.resolve(root).unwrap());
    }
    assert_eq!(m.status(), MatcherState::Searching);
    assert_eq!(roots, vec![s1, s2]);
    assert!(!m.next_match(&g));
    m.invalidate();
    assert_eq!(m.status(), MatcherState::Invalidated);
    assert!(m.next_match(&g));
    assert_eq!(m.resolve(root), Some(s1));
    assert_eq!(m.resolve(9), None);
}

#[test]
fn search_in_an_empty_graph_finds_nothing() {
    let g = Graph::new();
    let mut m = Matcher::new(Fusion::Subtraction.pattern());
    assert!(!m.next_match(&g));
    assert_eq!(m.status(), MatcherState::Searching);
}

#[test]
fn can_delete_is_true_for_a_closed_occurrence() {
    let (g, _) = subtraction();
    let mut m = Matcher::new(Fusion::Subtraction.pattern());
    assert!(m.next_match(&g));
    assert!(m.can_delete(&g, &vec![], &vec![3]));
    assert!(m.can_delete(&g, &vec![], &vec![2, 3]));
    assert!(m.can_delete(&g, &vec![], &vec![]));
    // the root has no consumer at all
    assert!(m.can_delete(&g, &vec![], &vec![4]));
    // a pattern node that does not exist cannot go
    assert!(!m.can_delete(&g, &vec![], &vec![9]));
}

#[test]
fn can_delete_is_false_when_an_interior_node_feeds_outside() {
    let (mut g, [_a, _b, _c, mul, _add]) = subtraction();
    let outside = g.add_node(Op::SumReduce(0));
    g.wire(mul, 0, outside, 0, plain(&[3])).unwrap();
    let mut m = Matcher::new(Fusion::Subtraction.pattern());
    assert!(m.next_match(&g));
    assert!(!m.can_delete(&g, &vec![], &vec![3]));
    assert!(m.can_delete(&g, &vec![], &vec![2]));
}

#[test]
fn can_delete_is_false_for_a_pinned_node() {
    let (g, [_a, _b, _c, mul, _add]) = subtraction();
    let mut m = Matcher::new(Fusion::Subtraction.pattern());
    assert!(m.next_match(&g));
    assert!(!m.can_delete(&g, &vec![mul], &vec![3]));
    assert!(m.can_delete(&g, &vec![mul], &vec![2]));
}

#[test]
fn can_delete_without_an_occurrence_is_false() {
    let (g, _) = subtraction();
    let m = Matcher::new(Fusion::Subtraction.pattern());
    assert!(!m.can_delete(&g, &vec![], &vec![3]));
    assert!(m.can_delete(&g, &vec![], &vec![]));
}

#[test]
fn delete_matched_takes_what_has_no_consumer() {
    let (mut g, [a, b, c, mul, add]) = subtraction();
    let keep = g.add_node(Op::SumReduce(0));
    g.wire(b, 0, keep, 0, plain(&[3])).unwrap();
    let mut m = Matcher::new(Fusion::Subtraction.pattern());
    assert!(m.next_match(&g));
    m.delete_matched(&mut g, &vec![]);
    assert_eq!(m.status(), MatcherState::Invalidated);
    // from the root down everything without a consumer goes; b feeds `keep`
    assert!(!g.contains(add));
    assert!(!g.contains(mul));
    assert!(!g.contains(c));
    assert!(!g.contains(a));
    assert!(g.contains(b));
    assert!(g.contains(keep));
}

#[test]
fn delete_matched_spares_pinned_nodes() {
    let (mut g, [a, b, c, mul, add]) = subtraction();
    let mut m = Matcher::new(Fusion::Subtraction.pattern());
    assert!(m.next_match(&g));
    m.delete_matched(&mut g, &vec![mul, a]);
    assert!(!g.contains(add));
    assert!(g.contains(mul));
    assert!(g.contains(c));
    assert!(g.contains(b));
    assert!(g.contains(a));
}

#[test]
fn listed_looks_an_id_up() {
    assert!(listed(&vec![3, 5], 5));
    assert!(!listed(&vec![3, 5], 4));
    assert!(!listed(&vec![], 0));
}
