use vstd::prelude::*;
use crate::fault::Fault;

verus! {

/// The binary operations of the expression language. All of them work on
/// natural numbers and are total.
#[derive(Clone, Copy, Debug, PartialEq, Eq, Hash, Structural)]
pub enum BinOp {
    Add,
    /// Subtraction that stops at zero.
    Sub,
    Mul,
    /// Quotient; zero when the divisor is zero.
    Div,
    /// Remainder; zero when the divisor is zero.
    Mod,
    Min,
    Max,
    /// One when the left operand is smaller, zero otherwise.
    Lt,
    /// One when the left operand is at least the right one, zero otherwise.
    Ge,
    /// One when both operands are non-zero, zero otherwise.
    And,
}

impl BinOp {
    /// The mathematical result of the operation on two natural numbers.
    pub open spec fn apply(self, a: int, b: int) -> int {
        match self {
            BinOp::Add => a + b,
            BinOp::Sub => if a >= b { a - b } else { 0 },
            BinOp::Mul => a * b,
            BinOp::Div => if b == 0 { 0 } else { a / b },
            BinOp::Mod => if b == 0 { 0 } else { a % b },
            BinOp::Min => if a <= b { a } else { b },
            BinOp::Max => if a >= b { a } else { b },
            BinOp::Lt => if a < b { 1 } else { 0 },
            BinOp::Ge => if a >= b { 1 } else { 0 },
            BinOp::And => if a != 0 && b != 0 { 1 } else { 0 },
        }
    }

    /// The result on machine words, or `None` when it does not fit one.
    pub fn compute(self, a: usize, b: usize) -> (r: Option<usize>)
        ensures
            r == (if self.apply(a as int, b as int) <= usize::MAX {
                Some(self.apply(a as int, b as int) as usize)
            } else {
                None
            }),
    {
        match self {
            BinOp::Add => a.checked_add(b),
            BinOp::Sub => if a >= b { Some(a - b) } else { Some(0) },
            BinOp::Mul => a.checked_mul(b),
            BinOp::Div => {
                if b == 0 {
                    Some(0)
                } else {
                    proof {
                        vstd::arithmetic::div_mod::lemma_div_is_ordered_by_denominator(
                            a as int, 1, b as int);
                        vstd::arithmetic::div_mod::lemma_div_pos_is_pos(a as int, b as int);
                    }
                    Some(a / b)
                }
            },
            BinOp::Mod => {
                if b == 0 {
                    Some(0)
                } else {
                    proof {
                        vstd::arithmetic::div_mod::lemma_mod_bound(a as int, b as int);
                    }
                    Some(a % b)
                }
            },
            BinOp::Min => if a <= b { Some(a) } else { Some(b) },
            BinOp::Max => if a >= b { Some(a) } else { Some(b) },
            BinOp::Lt => if a < b { Some(1) } else { Some(0) },
            BinOp::Ge => if a >= b { Some(1) } else { Some(0) },
            BinOp::And => if a != 0 && b != 0 { Some(1) } else { Some(0) },
        }
    }
}

/// A symbolic function of one flat position. Besides the position it may
/// mention dimensions that are only known at run time.
#[derive(Debug, PartialEq, Eq, Hash)]
pub enum Expr {
    /// A constant.
    Num(usize),
    /// The flat position the expression is a function of.
    Pos,
    /// A dimension known only at run time.
    Sym(char),
    /// A binary operation on two sub-expressions.
    Bin(BinOp, Box<Expr>, Box<Expr>),
}

impl Expr {
    /// Whether a run-time dimension occurs in the expression.
    pub open spec fn has_symbol(self) -> bool
        decreases self,
    {
        match self {
            Expr::Num(_) => false,
            Expr::Pos => false,
            Expr::Sym(_) => true,
            Expr::Bin(_, a, b) => a.has_symbol() || b.has_symbol(),
        }
    }

    /// Whether the position occurs in the expression.
    pub open spec fn has_pos(self) -> bool
        decreases self,
    {
        match self {
            Expr::Num(_) => false,
            Expr::Pos => true,
            Expr::Sym(_) => false,
            Expr::Bin(_, a, b) => a.has_pos() || b.has_pos(),
        }
    }

    /// The value at `pos` over the unbounded integers. A run-time dimension
    /// counts as zero here; `outcome` never reports a value for an expression
    /// that has one.
    pub open spec fn value(self, pos: int) -> int
        decreases self,
    {
        match self {
            Expr::Num(n) => n as int,
            Expr::Pos => pos,
            Expr::Sym(_) => 0,
            Expr::Bin(op, a, b) => op.apply(a.value(pos), b.value(pos)),
        }
    }

    /// Whether every intermediate result of the evaluation at `pos` fits a
    /// machine word.
    pub open spec fn fits(self, pos: int) -> bool
        decreases self,
    {
        match self {
            Expr::Num(_) => true,
            Expr::Pos => true,
            Expr::Sym(_) => true,
            Expr::Bin(op, a, b) => a.fits(pos) && b.fits(pos) && op.apply(
                a.value(pos),
                b.value(pos),
            ) <= usize::MAX,
        }
    }

    /// What evaluating the expression at `pos` yields.
    pub open spec fn outcome(self, pos: int) -> Result<usize, Fault> {
        if self.has_symbol() {
            Err(Fault::UnresolvedSymbolicDimension)
        } else if !self.fits(pos) {
            Err(Fault::ArithmeticOverflow)
        } else {
            Ok(self.value(pos) as usize)
        }
    }

    /// The value of an expression that mentions neither the position nor a
    /// run-time dimension, where it fits a machine word.
    pub open spec fn constant(self) -> Option<usize> {
        if !self.has_symbol() && !self.has_pos() && self.fits(0) {
            Some(self.value(0) as usize)
        } else {
            None
        }
    }

    /// Values are natural numbers.
    pub proof fn lemma_value_nonnegative(self, pos: int)
        requires
            0 <= pos,
        ensures
            0 <= self.value(pos),
        decreases self,
    {
        match self {
            Expr::Bin(op, a, b) => {
                a.lemma_value_nonnegative(pos);
                b.lemma_value_nonnegative(pos);
                let x = a.value(pos);
                let y = b.value(pos);
                match op {
                    BinOp::Mul => {
                        vstd::arithmetic::mul::lemma_mul_nonnegative(x, y);
                    },
                    BinOp::Div => {
                        if y != 0 {
                            vstd::arithmetic::div_mod::lemma_div_pos_is_pos(x, y);
                        }
                    },
                    BinOp::Mod => {
                        if y != 0 {
                            vstd::arithmetic::div_mod::lemma_mod_bound(x, y);
                        }
                    },
                    _ => {},
                }
            },
            _ => {},
        }
    }

    /// A deep copy.
    pub fn dup(&self) -> (r: Expr)
        ensures
            r == *self,
        decreases *self,
    {
        match self {
            Expr::Num(n) => Expr::Num(*n),
            Expr::Pos => Expr::Pos,
            Expr::Sym(c) => Expr::Sym(*c),
            Expr::Bin(op, a, b) => Expr::Bin(*op, Box::new(a.dup()), Box::new(b.dup())),
        }
    }

    /// Whether a run-time dimension occurs in the expression.
    pub fn mentions_symbol(&self) -> (r: bool)
        ensures
            r == self.has_symbol(),
        decreases *self,
    {
        match self {
            Expr::Num(_) => false,
            Expr::Pos => false,
            Expr::Sym(_) => true,
            Expr::Bin(_, a, b) => a.mentions_symbol() || b.mentions_symbol(),
        }
    }

    /// Whether the position occurs in the expression.
    pub fn mentions_pos(&self) -> (r: bool)
        ensures
            r == self.has_pos(),
        decreases *self,
    {
        match self {
            Expr::Num(_) => false,
            Expr::Pos => true,
            Expr::Sym(_) => false,
            Expr::Bin(_, a, b) => a.mentions_pos() || b.mentions_pos(),
        }
    }

    fn compute(&self, pos: usize) -> (r: Option<usize>)
        requires
            !self.has_symbol(),
        ensures
            r == (if self.fits(pos as int) {
                Some(self.value(pos as int) as usize)
            } else {
                None::<usize>
            }),
            self.fits(pos as int) ==> 0 <= self.value(pos as int) <= usize::MAX,
        decreases *self,
    {
        proof {
            self.lemma_value_nonnegative(pos as int);
        }
        match self {
            Expr::Num(n) => Some(*n),
            Expr::Pos => Some(pos),
            Expr::Sym(_) => Some(0),
            Expr::Bin(op, a, b) => {
                match a.compute(pos) {
                    None => None,
                    Some(x) => match b.compute(pos) {
                        None => None,
                        Some(y) => op.compute(x, y),
                    },
                }
            },
        }
    }

    /// Evaluates the expression at one flat position.
    pub fn exec_single_var(&self, pos: usize) -> (r: Result<usize, Fault>)
        ensures
            r == self.outcome(pos as int),
    {
        if self.mentions_symbol() {
            return Err(Fault::UnresolvedSymbolicDimension);
        }
        match self.compute(pos) {
            Some(v) => Ok(v),
            None => Err(Fault::ArithmeticOverflow),
        }
    }

    /// The number the expression stands for, where it is a constant that
    /// fits a machine word.
    pub fn to_usize(&self) -> (r: Option<usize>)
        ensures
            r == self.constant(),
    {
        if self.mentions_symbol() || self.mentions_pos() {
            return None;
        }
        self.compute(0)
    }
}

} // verus!
