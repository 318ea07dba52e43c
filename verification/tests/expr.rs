use tensor_rewrite::expr::{BinOp, Expr};
use tensor_rewrite::fault::Fault;

fn bin(op: BinOp, a: Expr, b: Expr) -> Expr {
    Expr::Bin(op, Box::new(a), Box::new(b))
}

#[test]
fn binary_operations_give_exact_values() {
    assert_eq!(BinOp::Add.compute(3, 4), Some(7));
    assert_eq!(BinOp::Sub.compute(3, 4), Some(0));
    assert_eq!(BinOp::Sub.compute(9, 4), Some(5));
    assert_eq!(BinOp::Mul.compute(6, 7), Some(42));
    assert_eq!(BinOp::Div.compute(17, 5), Some(3));
    assert_eq!(BinOp::Div.compute(17, 0), Some(0));
    assert_eq!(BinOp::Mod.compute(17, 5), Some(2));
    assert_eq!(BinOp::Mod.compute(17, 0), Some(0));
    assert_eq!(BinOp::Min.compute(2, 9), Some(2));
    assert_eq!(BinOp::Max.compute(2, 9), Some(9));
    assert_eq!(BinOp::Lt.compute(2, 9), Some(1));
    assert_eq!(BinOp::Lt.compute(9, 9), Some(0));
    assert_eq!(BinOp::Ge.compute(9, 9), Some(1));
    assert_eq!(BinOp::Ge.compute(2, 9), Some(0));
    assert_eq!(BinOp::And.compute(1, 5), Some(1));
    assert_eq!(BinOp::And.compute(1, 0), Some(0));
}

#[test]
fn binary_operations_report_overflow() {
    assert_eq!(BinOp::Add.compute(usize::MAX, 1), None);
    assert_eq!(BinOp::Mul.compute(usize::MAX, 2), None);
    assert_eq!(BinOp::Add.compute(usize::MAX, 0), Some(usize::MAX));
}

#[test]
fn expression_is_evaluated_at_a_position() {
    // (pos / 3) % 2 * 10 + pos % 3
    let e = bin(
        BinOp::Add,
        bin(
            BinOp::Mul,
            bin(BinOp::Mod, bin(BinOp::Div, Expr::Pos, Expr::Num(3)), Expr::Num(2)),
            Expr::Num(10),
        ),
        bin(BinOp::Mod, Expr::Pos, Expr::Num(3)),
    );
    assert_eq!(e.exec_single_var(0), Ok(0));
    assert_eq!(e.exec_single_var(2), Ok(2));
    assert_eq!(e.exec_single_var(3), Ok(10));
    assert_eq!(e.exec_single_var(5), Ok(12));
    assert_eq!(e.exec_single_var(6), Ok(0));
}

#[test]
fn expression_with_a_symbol_is_unresolved() {
    let e = bin(BinOp::Mul, Expr::Pos, Expr::Sym('b'));
    assert_eq!(e.exec_single_var(4), Err(Fault::UnresolvedSymbolicDimension));
    assert!(e.mentions_symbol());
    assert_eq!(e.to_usize(), None);
}

#[test]
fn expression_that_overflows_says_so() {
    let e = bin(BinOp::Mul, Expr::Pos, Expr::Num(usize::MAX));
    assert_eq!(e.exec_single_var(0), Ok(0));
    assert_eq!(e.exec_single_var(1), Ok(usize::MAX));
    assert_eq!(e.exec_single_var(2), Err(Fault::ArithmeticOverflow));
}

#[test]
fn constants_have_a_number() {
    let e = bin(BinOp::Mul, Expr::Num(6), Expr::Num(7));
    assert_eq!(e.to_usize(), Some(42));
    assert!(!e.mentions_pos());
    assert_eq!(Expr::Pos.to_usize(), None);
    assert!(Expr::Pos.mentions_pos());
}

#[test]
fn copy_of_an_expression_is_equal() {
    let e = bin(BinOp::Min, Expr::Sym('n'), bin(BinOp::Add, Expr::Pos, Expr::Num(1)));
    assert_eq!(e.dup(), e);
}
