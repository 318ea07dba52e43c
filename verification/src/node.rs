use vstd::prelude::*;

verus! {

/// The type of an operator, without its parameters.
#[derive(Clone, Copy, Debug, PartialEq, Eq, Hash, Structural)]
pub enum OpKind {
    Input,
    Constant,
    Add,
    Mul,
    LessThan,
    SumReduce,
    ARange,
    Sub,
    Equal,
    Gather,
}

/// What a node of the graph computes: the operator's type and the
/// parameters it was made with.
#[derive(Clone, Copy, Debug, PartialEq, Eq, Hash, Structural)]
pub enum Op {
    /// A tensor handed in from outside the graph.
    Input,
    /// A literal scalar, kept as the bit pattern of its IEEE 754 binary32
    /// form.
    Constant(u32),
    Add,
    Mul,
    /// One where the first input is smaller than the second, zero otherwise.
    LessThan,
    /// The sum along the axis of the given number.
    SumReduce(usize),
    /// The numbers zero, one, two and so on.
    ARange,
    Sub,
    Equal,
    /// The lookup of rows of the given width.
    Gather(usize),
}

/// The type of an operator.
pub open spec fn kind_of(op: Op) -> OpKind {
    match op {
        Op::Input => OpKind::Input,
        Op::Constant(_) => OpKind::Constant,
        Op::Add => OpKind::Add,
        Op::Mul => OpKind::Mul,
        Op::LessThan => OpKind::LessThan,
        Op::SumReduce(_) => OpKind::SumReduce,
        Op::ARange => OpKind::ARange,
        Op::Sub => OpKind::Sub,
        Op::Equal => OpKind::Equal,
        Op::Gather(_) => OpKind::Gather,
    }
}

impl Op {
    /// The type of the operator.
    pub fn kind(&self) -> (r: OpKind)
        ensures
            r == kind_of(*self),
    {
        match self {
            Op::Input => OpKind::Input,
            Op::Constant(_) => OpKind::Constant,
            Op::Add => OpKind::Add,
            Op::Mul => OpKind::Mul,
            Op::LessThan => OpKind::LessThan,
            Op::SumReduce(_) => OpKind::SumReduce,
            Op::ARange => OpKind::ARange,
            Op::Sub => OpKind::Sub,
            Op::Equal => OpKind::Equal,
            Op::Gather(_) => OpKind::Gather,
        }
    }
}

} // verus!
