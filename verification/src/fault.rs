use vstd::prelude::*;

verus! {

/// Why an operation of the engine was not carried out.
#[derive(Clone, Copy, Debug, PartialEq, Eq, Hash, Structural)]
pub enum Fault {
    /// An edge that was expected at a producer or consumer slot is absent.
    StructuralMismatch,
    /// A dimension that is only known at run time was needed for a number.
    UnresolvedSymbolicDimension,
    /// An operator was handed storage of a kind it cannot read.
    BufferKindMismatch,
    /// An intermediate result did not fit the machine word.
    ArithmeticOverflow,
    /// A view addressed an element beyond the end of its buffer.
    OutOfBounds,
}

} // verus!
