use std::collections::HashMap;
use tensor_rewrite::axis::Axis;
use tensor_rewrite::edge::Side;
use tensor_rewrite::graph::Graph;
use tensor_rewrite::node::{Op, OpKind};
use tensor_rewrite::ops::{Buffer, Equal, Gather, Sub};
use tensor_rewrite::passes::{
    EqualCompiler, Fusion, GatherCompiler, SubtractionCompiler, NEGATIVE_ONE, ONE,
};
use tensor_rewrite::view::ShapeView;

fn plain(sizes: &[usize]) -> ShapeView {
    ShapeView::contiguous(&sizes.to_vec()).unwrap()
}

fn strided(axes: &[(usize, usize)]) -> ShapeView {
    ShapeView::from_axes(axes.iter().map(|(n, s)| Axis::plain(*n, *s)).collect()).unwrap()
}

fn host(out: Vec<Buffer<f32>>) -> Vec<f32> {
    match out.into_iter().next().unwrap() {
        Buffer::Host(v) => v,
        _ => panic!("not in host memory"),
    }
}

/// What the view shows of the data, padding as zero.
fn seen(data: &[f32], view: &ShapeView) -> Vec<f32> {
    let n = view.element_count().to_usize().unwrap();
    let valid = view.valid_expression();
    let index = view.index_expression();
    (0..n)
        .map(|i| {
            if valid.exec_single_var(i).unwrap() != 0 {
                data[index.exec_single_var(i).unwrap()]
            } else {
                0.0
            }
        })
        .collect()
}

/// Runs the graph up to node `id` on the given inputs.
fn eval(g: &Graph, id: u32, feeds: &HashMap<u32, Vec<f32>>) -> Vec<f32> {
    let op = g.op_of(id).unwrap();
    let mut ins = g.edges_of(id, Side::Incoming);
    ins.sort_by_key(|e| e.link.input_slot);
    let data: Vec<Vec<f32>> = ins.iter().map(|e| eval(g, e.source, feeds)).collect();
    let pair = |data: &Vec<Vec<f32>>| {
        vec![
            (Buffer::Host(data[0].clone()), ins[0].link.view.dup()),
            (Buffer::Host(data[1].clone()), ins[1].link.view.dup()),
        ]
    };
    match op {
        Op::Input | Op::ARange => feeds[&id].clone(),
        Op::Constant(bits) => vec![f32::from_bits(bits)],
        Op::Add => host(Sub.process(&pair(&data), 0.0, |x: f32, y: f32| x + y).unwrap()),
        Op::Mul => host(Sub.process(&pair(&data), 0.0, |x: f32, y: f32| x * y).unwrap()),
        Op::LessThan => host(
            Sub.process(&pair(&data), 0.0, |x: f32, y: f32| if x < y { 1.0 } else { 0.0 })
                .unwrap(),
        ),
        Op::Sub => host(Sub.process(&pair(&data), 0.0, |x: f32, y: f32| x - y).unwrap()),
        Op::Equal => host(
            Equal
                .process(&pair(&data), 0.0, 1.0, |x: f32, y: f32| x == y)
                .unwrap(),
        ),
        Op::SumReduce(axis) => {
            let view = &ins[0].link.view;
            let sizes: Vec<usize> = view.shape().iter().map(|e| e.to_usize().unwrap()).collect();
            let all = seen(&data[0], view);
            let inner: usize = sizes[axis + 1..].iter().product();
            let outer: usize = sizes[..axis].iter().product();
            let mut out = vec![0.0; outer * inner];
            for o in 0..outer {
                for k in 0..sizes[axis] {
                    for i in 0..inner {
                        out[o * inner + i] += all[(o * sizes[axis] + k) * inner + i];
                    }
                }
            }
            out
        }
        Op::Gather(width) => {
            let tokens: Vec<usize> = data[0].iter().map(|x| *x as usize).collect();
            let tensors = vec![
                (Buffer::Indices(tokens), ins[0].link.view.dup()),
                (Buffer::Host(data[1].clone()), ins[1].link.view.dup()),
            ];
            host(Gather { embed_dim: width }.process(&tensors).unwrap())
        }
    }
}

fn kinds(g: &Graph) -> Vec<OpKind> {
    g.node_ids().iter().map(|id| g.op_of(*id).unwrap().kind()).collect()
}

fn only(g: &Graph, kind: OpKind) -> u32 {
    let found: Vec<u32> = g
        .node_ids()
        .into_iter()
        .filter(|id| g.op_of(*id).unwrap().kind() == kind)
        .collect();
    assert_eq!(found.len(), 1);
    found[0]
}

/// The nodes with their operators, and the edges by their ends and what
/// they carry.
fn picture(g: &Graph) -> (Vec<(u32, Op)>, Vec<(u32, u32, u8, u8, ShapeView)>) {
    let nodes: Vec<(u32, Op)> = g.node_ids().iter().map(|id| (*id, g.op_of(*id).unwrap())).collect();
    let mut edges = Vec::new();
    for (id, _) in &nodes {
        let mut ins = g.edges_of(*id, Side::Incoming);
        ins.sort_by_key(|e| (e.link.input_slot, e.source));
        for e in ins {
            edges.push((e.source, e.target, e.link.output_slot, e.link.input_slot, e.link.view));
        }
    }
    (nodes, edges)
}

/// y = a + (b * -1); returns a, b, -1, mul, add.
fn subtraction(final_view: ShapeView) -> (Graph, [u32; 5]) {
    let mut g = Graph::new();
    let a = g.add_node(Op::Input);
    let b = g.add_node(Op::Input);
    let c = g.add_node(Op::Constant(NEGATIVE_ONE));
    let mul = g.add_node(Op::Mul);
    let add = g.add_node(Op::Add);
    g.wire(b, 0, mul, 0, plain(&[3])).unwrap();
    g.wire(c, 0, mul, 1, strided(&[(3, 0)])).unwrap();
    g.wire(a, 0, add, 0, plain(&[3])).unwrap();
    g.wire(mul, 0, add, 1, final_view).unwrap();
    (g, [a, b, c, mul, add])
}

/// 1 - ((a < b) + (b < a)); returns a, b and the root.
fn equality() -> (Graph, [u32; 3]) {
    let mut g = Graph::new();
    let a = g.add_node(Op::Input);
    let b = g.add_node(Op::Input);
    let one = g.add_node(Op::Constant(ONE));
    let lt1 = g.add_node(Op::LessThan);
    let lt2 = g.add_node(Op::LessThan);
    let ne = g.add_node(Op::Add);
    let eq = g.add_node(Op::Sub);
    g.wire(a, 0, lt1, 0, plain(&[2])).unwrap();
    g.wire(b, 0, lt1, 1, plain(&[2])).unwrap();
    g.wire(b, 0, lt2, 0, plain(&[2])).unwrap();
    g.wire(a, 0, lt2, 1, plain(&[2])).unwrap();
    g.wire(lt1, 0, ne, 0, plain(&[2])).unwrap();
    g.wire(lt2, 0, ne, 1, plain(&[2])).unwrap();
    g.wire(one, 0, eq, 0, strided(&[(2, 0)])).unwrap();
    g.wire(ne, 0, eq, 1, plain(&[2])).unwrap();
    (g, [a, b, eq])
}

/// The sum over the vocabulary of (arange == index) * table, for two
/// tokens, a vocabulary of two and rows of three; returns index, arange,
/// table and the root.
fn lookup(table_view: ShapeView) -> (Graph, [u32; 4]) {
    let mut g = Graph::new();
    let index = g.add_node(Op::Input);
    let arange = g.add_node(Op::ARange);
    let table = g.add_node(Op::Input);
    let eq = g.add_node(Op::Equal);
    let mul = g.add_node(Op::Mul);
    let sum = g.add_node(Op::SumReduce(1));
    // token x vocabulary
    g.wire(arange, 0, eq, 0, strided(&[(2, 0), (2, 1)])).unwrap();
    g.wire(index, 0, eq, 1, strided(&[(2, 1), (2, 0)])).unwrap();
    // token x vocabulary x width
    g.wire(eq, 0, mul, 0, strided(&[(2, 2), (2, 1), (3, 0)])).unwrap();
    g.wire(table, 0, mul, 1, table_view).unwrap();
    g.wire(mul, 0, sum, 0, plain(&[2, 2, 3])).unwrap();
    (g, [index, arange, table, sum])
}

#[test]
fn subtraction_folding_keeps_the_result() {
    let (mut g, [a, b, _c, _mul, add]) = subtraction(plain(&[3]));
    let feeds = HashMap::from([(a, vec![1.0, 2.0, 3.0]), (b, vec![1.0, 1.0, 1.0])]);
    assert_eq!(eval(&g, add, &feeds), vec![0.0, 1.0, 2.0]);

    SubtractionCompiler.compile(&mut g, &vec![]);

    assert_eq!(g.node_count(), 3);
    assert!(!kinds(&g).contains(&OpKind::Add));
    assert!(!kinds(&g).contains(&OpKind::Mul));
    assert!(!kinds(&g).contains(&OpKind::Constant));
    let sub = only(&g, OpKind::Sub);
    assert_eq!(g.op_of(sub), Some(Op::Sub));
    assert_eq!(g.input_at(sub, 0).unwrap().source, a);
    assert_eq!(g.input_at(sub, 1).unwrap().source, b);
    assert_eq!(g.edge_count(), 2);
    assert!(g.is_fully_wired());
    assert_eq!(eval(&g, sub, &feeds), vec![0.0, 1.0, 2.0]);
}

#[test]
fn subtraction_folding_hands_the_consumers_over() {
    let (mut g, [a, b, _c, _mul, add]) = subtraction(plain(&[3]));
    let out = g.add_node(Op::SumReduce(0));
    g.wire(add, 0, out, 0, plain(&[3])).unwrap();
    let feeds = HashMap::from([(a, vec![4.0, 5.0, 6.0]), (b, vec![1.0, 2.0, 3.0])]);
    assert_eq!(eval(&g, out, &feeds), vec![9.0]);
    SubtractionCompiler.compile(&mut g, &vec![out]);
    let sub = only(&g, OpKind::Sub);
    assert_eq!(g.input_at(out, 0).unwrap().source, sub);
    assert_eq!(eval(&g, out, &feeds), vec![9.0]);
    assert!(g.is_fully_wired());
}

#[test]
fn subtraction_folding_needs_a_contiguous_view() {
    // the sum sees the product reversed in stride: not contiguous
    let (mut g, _) = subtraction(strided(&[(3, 0)]));
    let before = picture(&g);
    SubtractionCompiler.compile(&mut g, &vec![]);
    assert_eq!(picture(&g), before);

    let (mut g, _) = subtraction(plain(&[3]).slice(&vec![(0, 2)]).unwrap());
    let before = picture(&g);
    SubtractionCompiler.compile(&mut g, &vec![]);
    assert_eq!(picture(&g), before);

    let (mut g, _) = subtraction(plain(&[3]).pad(&vec![(0, 1)]).unwrap());
    let before = picture(&g);
    SubtractionCompiler.compile(&mut g, &vec![]);
    assert_eq!(picture(&g), before);
}

#[test]
fn shared_product_is_not_rewritten() {
    let (mut g, [_a, _b, _c, mul, _add]) = subtraction(plain(&[3]));
    let outside = g.add_node(Op::SumReduce(0));
    g.wire(mul, 0, outside, 0, plain(&[3])).unwrap();
    let before = picture(&g);
    SubtractionCompiler.compile(&mut g, &vec![]);
    assert_eq!(picture(&g), before);
}

#[test]
fn shared_constant_stays_when_the_product_goes() {
    let (mut g, [_a, _b, c, _mul, _add]) = subtraction(plain(&[3]));
    let outside = g.add_node(Op::SumReduce(0));
    g.wire(c, 0, outside, 0, plain(&[1])).unwrap();
    SubtractionCompiler.compile(&mut g, &vec![]);
    assert!(g.contains(c));
    assert!(!kinds(&g).contains(&OpKind::Add));
    assert!(!kinds(&g).contains(&OpKind::Mul));
    assert_eq!(g.input_at(outside, 0).unwrap().source, c);
}

#[test]
fn pinned_nodes_are_never_taken_away() {
    let (mut g, [_a, _b, _c, _mul, add]) = subtraction(plain(&[3]));
    let before = picture(&g);
    SubtractionCompiler.compile(&mut g, &vec![add]);
    assert_eq!(picture(&g), before);

    let (mut g, [_a, _b, _c, mul, _add]) = subtraction(plain(&[3]));
    let before = picture(&g);
    SubtractionCompiler.compile(&mut g, &vec![mul]);
    assert_eq!(picture(&g), before);

    let (mut g, [_a, _b, c, _mul, _add]) = subtraction(plain(&[3]));
    SubtractionCompiler.compile(&mut g, &vec![c]);
    assert!(g.contains(c));
    assert_eq!(g.op_of(c), Some(Op::Constant(NEGATIVE_ONE)));
    assert!(!kinds(&g).contains(&OpKind::Add));
}

#[test]
fn second_run_of_a_pass_changes_nothing() {
    let (mut g, _) = subtraction(plain(&[3]));
    SubtractionCompiler.compile(&mut g, &vec![]);
    let once = picture(&g);
    SubtractionCompiler.compile(&mut g, &vec![]);
    assert_eq!(picture(&g), once);

    let (mut g, _) = equality();
    EqualCompiler.compile(&mut g, &vec![]);
    let once = picture(&g);
    EqualCompiler.compile(&mut g, &vec![]);
    assert_eq!(picture(&g), once);

    let (mut g, _) = lookup(strided(&[(2, 0), (2, 3), (3, 1)]));
    GatherCompiler.compile(&mut g, &vec![]);
    let once = picture(&g);
    GatherCompiler.compile(&mut g, &vec![]);
    assert_eq!(picture(&g), once);
}

#[test]
fn every_occurrence_is_rewritten() {
    // (a + (b * -1)) + (b * -1): two occurrences, one inside the other
    let mut g = Graph::new();
    let a = g.add_node(Op::Input);
    let b = g.add_node(Op::Input);
    let c = g.add_node(Op::Constant(NEGATIVE_ONE));
    let m1 = g.add_node(Op::Mul);
    let s1 = g.add_node(Op::Add);
    let m2 = g.add_node(Op::Mul);
    let s2 = g.add_node(Op::Add);
    for (m, s, lhs) in [(m1, s1, a), (m2, s2, s1)] {
        g.wire(b, 0, m, 0, plain(&[2])).unwrap();
        g.wire(c, 0, m, 1, strided(&[(2, 0)])).unwrap();
        g.wire(lhs, 0, s, 0, plain(&[2])).unwrap();
        g.wire(m, 0, s, 1, plain(&[2])).unwrap();
    }
    let feeds = HashMap::from([(a, vec![10.0, 20.0]), (b, vec![1.0, 2.0])]);
    assert_eq!(eval(&g, s2, &feeds), vec![8.0, 16.0]);
    SubtractionCompiler.compile(&mut g, &vec![]);
    let left: Vec<OpKind> = kinds(&g);
    assert_eq!(left.iter().filter(|k| **k == OpKind::Sub).count(), 2);
    assert!(!left.contains(&OpKind::Add));
    assert!(!left.contains(&OpKind::Mul));
    assert!(!left.contains(&OpKind::Constant));
    assert_eq!(g.node_count(), 4);
    let top = g
        .node_ids()
        .into_iter()
        .find(|id| g.op_of(*id) == Some(Op::Sub) && g.consumer_count(*id) == 0)
        .unwrap();
    assert_eq!(eval(&g, top, &feeds), vec![8.0, 16.0]);
    assert!(g.is_fully_wired());
}

#[test]
fn pass_on_a_graph_without_the_idiom_changes_nothing() {
    let (mut g, _) = equality();
    let before = picture(&g);
    SubtractionCompiler.compile(&mut g, &vec![]);
    GatherCompiler.compile(&mut g, &vec![]);
    assert_eq!(picture(&g), before);
    let mut empty = Graph::new();
    EqualCompiler.compile(&mut empty, &vec![]);
    assert_eq!(empty.node_count(), 0);
}

#[test]
fn equality_folding_keeps_the_result() {
    let (mut g, [a, b, eq]) = equality();
    let feeds = HashMap::from([(a, vec![0.0, 2.0]), (b, vec![1.0, 2.0])]);
    assert_eq!(eval(&g, eq, &feeds), vec![0.0, 1.0]);

    EqualCompiler.compile(&mut g, &vec![]);

    assert_eq!(g.node_count(), 3);
    let equal = only(&g, OpKind::Equal);
    assert_eq!(g.input_at(equal, 0).unwrap().source, a);
    assert_eq!(g.input_at(equal, 1).unwrap().source, b);
    assert!(!kinds(&g).contains(&OpKind::LessThan));
    assert!(!kinds(&g).contains(&OpKind::Sub));
    assert!(g.is_fully_wired());
    assert_eq!(eval(&g, equal, &feeds), vec![0.0, 1.0]);
}

#[test]
fn equality_folding_spares_a_shared_comparison() {
    let (mut g, _) = equality();
    let lt1 = g
        .node_ids()
        .into_iter()
        .find(|id| g.op_of(*id) == Some(Op::LessThan))
        .unwrap();
    let outside = g.add_node(Op::SumReduce(0));
    g.wire(lt1, 0, outside, 0, plain(&[2])).unwrap();
    let before = picture(&g);
    EqualCompiler.compile(&mut g, &vec![]);
    assert_eq!(picture(&g), before);
}

#[test]
fn gather_folding_keeps_the_result() {
    let (mut g, [index, arange, table, sum]) = lookup(strided(&[(2, 0), (2, 3), (3, 1)]));
    let feeds = HashMap::from([
        (index, vec![1.0, 0.0]),
        (arange, vec![0.0, 1.0]),
        (table, vec![10.0, 11.0, 12.0, 20.0, 21.0, 22.0]),
    ]);
    let rows = vec![20.0, 21.0, 22.0, 10.0, 11.0, 12.0];
    assert_eq!(eval(&g, sum, &feeds), rows);

    GatherCompiler.compile(&mut g, &vec![]);

    let gather = only(&g, OpKind::Gather);
    assert_eq!(g.op_of(gather), Some(Op::Gather(3)));
    assert_eq!(g.input_at(gather, 0).unwrap().source, index);
    assert_eq!(g.input_at(gather, 1).unwrap().source, table);
    assert_eq!(g.node_count(), 3);
    assert!(!g.contains(arange));
    assert!(!kinds(&g).contains(&OpKind::SumReduce));
    assert!(!kinds(&g).contains(&OpKind::Mul));
    assert!(!kinds(&g).contains(&OpKind::Equal));
    assert!(g.is_fully_wired());
    assert_eq!(eval(&g, gather, &feeds), rows);
}

#[test]
fn gather_folding_needs_a_fixed_row_width() {
    let view = ShapeView::from_axes(vec![
        Axis::plain(2, 0),
        Axis::plain(2, 3),
        Axis::plain(3, 1),
    ])
    .unwrap()
    .permute(&vec![2, 0, 1])
    .unwrap();
    // trailing axis fixed: rewritten, with the width of that axis
    let (mut g, _) = lookup(view);
    GatherCompiler.compile(&mut g, &vec![]);
    assert_eq!(g.op_of(only(&g, OpKind::Gather)), Some(Op::Gather(2)));

    let symbolic =
        ShapeView::from_axes(vec![Axis::plain(2, 0), Axis::plain(2, 3), Axis::plain(3, 1)])
            .unwrap();
    let symbolic = ShapeView::from_axes(vec![
        symbolic.axis(0).unwrap(),
        symbolic.axis(1).unwrap(),
        Axis::symbolic('w', 1),
    ])
    .unwrap();
    let (mut g, _) = lookup(symbolic);
    let before = picture(&g);
    GatherCompiler.compile(&mut g, &vec![]);
    assert_eq!(picture(&g), before);
}

#[test]
fn shared_range_stays_when_the_lookup_is_folded() {
    let (mut g, [_index, arange, _table, _sum]) = lookup(strided(&[(2, 0), (2, 3), (3, 1)]));
    let outside = g.add_node(Op::SumReduce(0));
    g.wire(arange, 0, outside, 0, plain(&[2])).unwrap();
    GatherCompiler.compile(&mut g, &vec![]);
    assert!(g.contains(arange));
    assert_eq!(g.op_of(only(&g, OpKind::Gather)), Some(Op::Gather(3)));
}

#[test]
fn fusion_patterns_end_in_their_root() {
    assert_eq!(Fusion::Subtraction.pattern().len(), 5);
    assert_eq!(Fusion::Equality.pattern().len(), 7);
    assert_eq!(Fusion::Gather.pattern().len(), 6);
    assert_eq!(f32::from_bits(ONE), 1.0);
    assert_eq!(f32::from_bits(NEGATIVE_ONE), -1.0);
}

/// A small generator of repeatable pseudo-random numbers.
fn next(state: &mut u64) -> u64 {
    *state = state.wrapping_mul(6364136223846793005).wrapping_add(1442695040888963407);
    *state >> 33
}

fn scalars(state: &mut u64, n: usize) -> Vec<f32> {
    (0..n).map(|_| (next(state) % 17) as f32 * 0.5 - 4.0).collect()
}

fn close(a: &[f32], b: &[f32]) -> bool {
    a.len() == b.len() && a.iter().zip(b).all(|(x, y)| (x - y).abs() <= 1e-5)
}

#[test]
fn subtraction_folding_keeps_the_result_on_many_tensors() {
    let mut state = 7;
    for n in 1..9 {
        let mut g = Graph::new();
        let a = g.add_node(Op::Input);
        let b = g.add_node(Op::Input);
        let c = g.add_node(Op::Constant(NEGATIVE_ONE));
        let mul = g.add_node(Op::Mul);
        let add = g.add_node(Op::Add);
        // b is seen with one position of padding in front of all but its last element
        let b_view = plain(&[n]).slice(&vec![(0, n - 1)]).unwrap().pad(&vec![(1, 0)]).unwrap();
        g.wire(b, 0, mul, 0, b_view).unwrap();
        g.wire(c, 0, mul, 1, strided(&[(n, 0)])).unwrap();
        g.wire(a, 0, add, 0, plain(&[n])).unwrap();
        g.wire(mul, 0, add, 1, plain(&[n])).unwrap();
        let feeds = HashMap::from([(a, scalars(&mut state, n)), (b, scalars(&mut state, n))]);
        let before = eval(&g, add, &feeds);
        SubtractionCompiler.compile(&mut g, &vec![]);
        let sub = only(&g, OpKind::Sub);
        assert!(close(&eval(&g, sub, &feeds), &before));
        assert_eq!(before[0], feeds[&a][0]);
    }
}

#[test]
fn equality_folding_keeps_the_result_on_many_tensors() {
    let mut state = 11;
    for n in 1..9 {
        let mut g = Graph::new();
        let a = g.add_node(Op::Input);
        let b = g.add_node(Op::Input);
        let one = g.add_node(Op::Constant(ONE));
        let lt1 = g.add_node(Op::LessThan);
        let lt2 = g.add_node(Op::LessThan);
        let ne = g.add_node(Op::Add);
        let eq = g.add_node(Op::Sub);
        g.wire(a, 0, lt1, 0, plain(&[n])).unwrap();
        g.wire(b, 0, lt1, 1, plain(&[n])).unwrap();
        g.wire(b, 0, lt2, 0, plain(&[n])).unwrap();
        g.wire(a, 0, lt2, 1, plain(&[n])).unwrap();
        g.wire(lt1, 0, ne, 0, plain(&[n])).unwrap();
        g.wire(lt2, 0, ne, 1, plain(&[n])).unwrap();
        g.wire(one, 0, eq, 0, strided(&[(n, 0)])).unwrap();
        g.wire(ne, 0, eq, 1, plain(&[n])).unwrap();
        let feeds = HashMap::from([
            (a, (0..n).map(|_| (next(&mut state) % 3) as f32).collect::<Vec<f32>>()),
            (b, (0..n).map(|_| (next(&mut state) % 3) as f32).collect::<Vec<f32>>()),
        ]);
        let before = eval(&g, eq, &feeds);
        EqualCompiler.compile(&mut g, &vec![]);
        let equal = only(&g, OpKind::Equal);
        assert!(close(&eval(&g, equal, &feeds), &before));
    }
}

#[test]
fn gather_folding_keeps_the_result_on_many_tensors() {
    let mut state = 13;
    for (tokens, vocabulary, width) in [(1, 1, 1), (3, 2, 4), (4, 5, 2), (2, 7, 3)] {
        let mut g = Graph::new();
        let index = g.add_node(Op::Input);
        let arange = g.add_node(Op::ARange);
        let table = g.add_node(Op::Input);
        let eq = g.add_node(Op::Equal);
        let mul = g.add_node(Op::Mul);
        let sum = g.add_node(Op::SumReduce(1));
        g.wire(arange, 0, eq, 0, strided(&[(tokens, 0), (vocabulary, 1)])).unwrap();
        g.wire(index, 0, eq, 1, strided(&[(tokens, 1), (vocabulary, 0)])).unwrap();
        g.wire(eq, 0, mul, 0, strided(&[(tokens, vocabulary), (vocabulary, 1), (width, 0)]))
            .unwrap();
        g.wire(table, 0, mul, 1, strided(&[(tokens, 0), (vocabulary, width), (width, 1)]))
            .unwrap();
        g.wire(mul, 0, sum, 0, plain(&[tokens, vocabulary, width])).unwrap();
        let feeds = HashMap::from([
            (
                index,
                (0..tokens)
                    .map(|_| (next(&mut state) % vocabulary as u64) as f32)
                    .collect::<Vec<f32>>(),
            ),
            (arange, (0..vocabulary).map(|v| v as f32).collect::<Vec<f32>>()),
            (table, scalars(&mut state, vocabulary * width)),
        ]);
        let before = eval(&g, sum, &feeds);
        assert_eq!(before.len(), tokens * width);
        GatherCompiler.compile(&mut g, &vec![]);
        let gather = only(&g, OpKind::Gather);
        assert_eq!(g.op_of(gather), Some(Op::Gather(width)));
        assert!(close(&eval(&g, gather, &feeds), &before));
    }
}
