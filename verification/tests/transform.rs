use tensor_rewrite::axis::{Axis, Extent};
use tensor_rewrite::expr::Expr;
use tensor_rewrite::view::ShapeView;

fn plain(sizes: &[usize]) -> ShapeView {
    ShapeView::contiguous(&sizes.to_vec()).unwrap()
}

fn reads(v: &ShapeView) -> Vec<Option<usize>> {
    let n = v.element_count().to_usize().unwrap();
    let valid = v.valid_expression();
    let index = v.index_expression();
    (0..n)
        .map(|i| {
            if valid.exec_single_var(i).unwrap() != 0 {
                Some(index.exec_single_var(i).unwrap())
            } else {
                None
            }
        })
        .collect()
}

#[test]
fn pad_adds_invalid_positions() {
    let v = plain(&[3]).pad(&vec![(1, 2)]).unwrap();
    assert!(v.is_padded());
    assert_eq!(reads(&v), vec![None, Some(0), Some(1), Some(2), None, None]);
}

#[test]
fn slice_of_a_padded_view_keeps_part_of_the_padding() {
    let v = plain(&[3]).pad(&vec![(1, 2)]).unwrap();
    let w = v.slice(&vec![(1, 5)]).unwrap();
    assert_eq!(reads(&w), vec![Some(0), Some(1), Some(2), None]);
    let x = w.slice(&vec![(2, 9)]).unwrap();
    assert_eq!(reads(&x), vec![Some(2), None]);
}

#[test]
fn slice_is_cut_to_the_axis() {
    let v = plain(&[5]);
    assert_eq!(reads(&v.slice(&vec![(1, 4)]).unwrap()), vec![Some(1), Some(2), Some(3)]);
    assert_eq!(reads(&v.slice(&vec![(3, 100)]).unwrap()), vec![Some(3), Some(4)]);
    assert_eq!(reads(&v.slice(&vec![(7, 9)]).unwrap()), Vec::<Option<usize>>::new());
    assert_eq!(reads(&v.slice(&vec![(3, 1)]).unwrap()), Vec::<Option<usize>>::new());
    assert!(v.slice(&vec![(0, usize::MAX)]).unwrap().axis(0).unwrap().length() == 5);
}

#[test]
fn slice_of_a_slice_adds_the_starts() {
    let v = plain(&[10]).slice(&vec![(2, 8)]).unwrap().slice(&vec![(1, 3)]).unwrap();
    assert_eq!(reads(&v), vec![Some(3), Some(4)]);
    assert_eq!(
        v.axis(0),
        Some(Axis {
            size: Extent::Fixed(10),
            stride: 1,
            pad_before: 0,
            pad_after: 0,
            slice_start: 3,
            slice_end: 5,
        })
    );
}

#[test]
fn pad_of_a_slice_that_cut_only_padding() {
    let v = plain(&[2]).pad(&vec![(2, 2)]).unwrap().slice(&vec![(1, 5)]).unwrap();
    assert_eq!(reads(&v), vec![None, Some(0), Some(1), None]);
    let w = v.pad(&vec![(1, 1)]).unwrap();
    assert_eq!(reads(&w), vec![None, None, Some(0), Some(1), None, None]);
}

#[test]
fn pad_in_front_of_a_slice_that_cut_data_is_refused() {
    let v = plain(&[5]).slice(&vec![(1, 4)]).unwrap();
    assert!(v.pad(&vec![(1, 0)]).is_none());
    assert!(v.pad(&vec![(0, 1)]).is_none());
    assert!(v.pad(&vec![(0, 0)]).is_some());
    let w = plain(&[5]).slice(&vec![(0, 4)]).unwrap();
    assert_eq!(
        reads(&w.pad(&vec![(2, 0)]).unwrap()),
        vec![None, None, Some(0), Some(1), Some(2), Some(3)]
    );
}

#[test]
fn pad_and_slice_need_one_entry_for_each_axis() {
    let v = plain(&[2, 3]);
    assert!(v.pad(&vec![(1, 1)]).is_none());
    assert!(v.slice(&vec![(0, 1)]).is_none());
    assert!(v.pad(&vec![(usize::MAX, 0), (0, 0)]).is_none());
}

#[test]
fn pad_on_one_axis_of_two() {
    let v = plain(&[2, 2]).pad(&vec![(0, 0), (1, 0)]).unwrap();
    assert_eq!(
        reads(&v),
        vec![None, Some(0), Some(1), None, Some(2), Some(3)]
    );
}

#[test]
fn permute_reorders_the_axes() {
    let v = plain(&[2, 3]).permute(&vec![1, 0]).unwrap();
    assert_eq!(v.axis(0), Some(Axis::plain(3, 1)));
    assert_eq!(v.axis(1), Some(Axis::plain(2, 3)));
    assert_eq!(
        reads(&v),
        vec![Some(0), Some(3), Some(1), Some(4), Some(2), Some(5)]
    );
    assert!(!v.is_contiguous());
    assert_eq!(v.permute(&vec![1, 0]).unwrap(), plain(&[2, 3]));
}

#[test]
fn permute_refuses_what_is_no_permutation() {
    let v = plain(&[2, 3]);
    assert!(v.permute(&vec![0, 0]).is_none());
    assert!(v.permute(&vec![0]).is_none());
    assert!(v.permute(&vec![0, 2]).is_none());
    assert!(v.permute(&vec![0, 1, 1]).is_none());
}

#[test]
fn broadcast_repeats_along_the_new_axis() {
    let v = plain(&[3]);
    assert_eq!(
        reads(&v.broadcast(0, 2).unwrap()),
        vec![Some(0), Some(1), Some(2), Some(0), Some(1), Some(2)]
    );
    assert_eq!(
        reads(&v.broadcast(1, 2).unwrap()),
        vec![Some(0), Some(0), Some(1), Some(1), Some(2), Some(2)]
    );
    assert!(v.broadcast(2, 2).is_none());
    assert!(v.broadcast(0, usize::MAX).is_none());
    assert_eq!(v.broadcast(1, 4).unwrap().axis(1), Some(Axis::plain(4, 0)));
}

#[test]
fn reshape_keeps_the_positions() {
    let v = plain(&[2, 3]);
    let w = v.reshape(&vec![3, 2]).unwrap();
    assert_eq!(w, plain(&[3, 2]));
    assert_eq!(reads(&w), reads(&v));
    assert_eq!(v.reshape(&vec![6]).unwrap(), plain(&[6]));
    assert!(v.reshape(&vec![4]).is_none());
    assert!(v.permute(&vec![1, 0]).unwrap().reshape(&vec![6]).is_none());
    assert!(v.pad(&vec![(0, 0), (1, 0)]).unwrap().reshape(&vec![8]).is_none());
}

#[test]
fn resolve_gives_a_run_time_size_its_number() {
    let v = ShapeView::from_axes(vec![Axis::symbolic('b', 3), Axis::plain(3, 1)]).unwrap();
    assert!(!v.is_concrete());
    let same = v.resolve('x', 2).unwrap();
    assert_eq!(same, v);
    let w = v.resolve('b', 2).unwrap();
    assert!(w.is_concrete());
    assert_eq!(w, plain(&[2, 3]));
    assert_eq!(w.element_count(), Expr::Num(6));
    assert!(v.resolve('b', usize::MAX).is_none());
}

#[test]
fn run_time_axis_can_be_neither_padded_nor_sliced() {
    let v = ShapeView::from_axes(vec![Axis::symbolic('b', 1)]).unwrap();
    assert!(v.pad(&vec![(1, 0)]).is_none());
    assert!(v.slice(&vec![(0, 1)]).is_none());
    assert_eq!(v.pad(&vec![(0, 0)]).unwrap(), v);
    assert_eq!(v.slice(&vec![(0, usize::MAX)]).unwrap(), v);
}
