use vstd::prelude::*;
use crate::axis::{
    Axis, concrete, count, is_contiguous, lemma_contiguous_offset_is_position,
    lemma_plain_positions_are_valid, offset_at, valid_at, well_formed,
};
use crate::expr::Expr;
use crate::fault::Fault;
use crate::node::Op;
use crate::view::ShapeView;

verus! {

/// Tensor storage, by kind. The operators of this crate read storage that
/// lies in host memory: scalars, or element numbers for a lookup.
#[derive(Debug, PartialEq, Eq)]
pub enum Buffer<T> {
    /// Scalars in host memory.
    Host(Vec<T>),
    /// Element numbers in host memory.
    Indices(Vec<usize>),
    /// Storage on a device, known by its handle only.
    Device(u64),
}

/// The scalars of a buffer that holds scalars in host memory.
pub open spec fn host<T>(b: Buffer<T>) -> Option<Seq<T>> {
    match b {
        Buffer::Host(v) => Some(v@),
        _ => None,
    }
}

/// What an operator reads at flat position `pos`: the stored element where
/// the view shows one, and `zero` where the position lies in padding.
pub open spec fn operand<T>(data: Seq<T>, dims: Seq<Axis>, pos: int, zero: T) -> T {
    if valid_at(dims, pos) {
        data[offset_at(dims, pos)]
    } else {
        zero
    }
}

/// Through a contiguous view an operator reads at every position the element
/// of that number.
pub proof fn lemma_contiguous_operand_is_element<T>(
    data: Seq<T>,
    dims: Seq<Axis>,
    pos: int,
    zero: T,
)
    requires
        well_formed(dims),
        is_contiguous(dims),
        0 <= pos < count(dims),
    ensures
        operand(data, dims, pos, zero) == data[pos],
{
    lemma_plain_positions_are_valid(dims, pos);
    lemma_contiguous_offset_is_position(dims, pos);
}

/// Where a view shows padding an operator reads the neutral element, whatever
/// the buffer holds.
pub proof fn lemma_padding_reads_zero<T>(data: Seq<T>, other: Seq<T>, dims: Seq<Axis>, pos: int, zero: T)
    requires
        !valid_at(dims, pos),
    ensures
        operand(data, dims, pos, zero) == zero,
        operand(data, dims, pos, zero) == operand(other, dims, pos, zero),
{
}

/// Whether every position that shows a stored element addresses one of the
/// `len` elements of the buffer.
pub open spec fn readable(len: int, dims: Seq<Axis>) -> bool {
    forall|pos: int|
        0 <= pos < count(dims) && #[trigger] valid_at(dims, pos) ==> offset_at(dims, pos) < len
}

/// Why an elementwise operator of two inputs declines its inputs, if it does.
pub open spec fn binary_fault<T>(tensors: Seq<(Buffer<T>, ShapeView)>) -> Option<Fault> {
    if tensors.len() < 2 {
        Some(Fault::StructuralMismatch)
    } else if host(tensors[0].0) is None || host(tensors[1].0) is None {
        Some(Fault::BufferKindMismatch)
    } else if !concrete(tensors[0].1@) || !concrete(tensors[1].1@) {
        Some(Fault::UnresolvedSymbolicDimension)
    } else if count(tensors[0].1@) != count(tensors[1].1@) {
        Some(Fault::StructuralMismatch)
    } else if !readable(host(tensors[0].0).unwrap().len() as int, tensors[0].1@) || !readable(
        host(tensors[1].0).unwrap().len() as int,
        tensors[1].1@,
    ) {
        Some(Fault::OutOfBounds)
    } else {
        None
    }
}

/// The left operand of an elementwise operator at flat position `pos`.
pub open spec fn left<T>(tensors: Seq<(Buffer<T>, ShapeView)>, pos: int, zero: T) -> T {
    operand(host(tensors[0].0).unwrap(), tensors[0].1@, pos, zero)
}

/// The right operand of an elementwise operator at flat position `pos`.
pub open spec fn right<T>(tensors: Seq<(Buffer<T>, ShapeView)>, pos: int, zero: T) -> T {
    operand(host(tensors[1].0).unwrap(), tensors[1].1@, pos, zero)
}

/// The two inputs of an elementwise operator, once their kinds, sizes and
/// symbols have been checked: the scalars, and for each view the expressions
/// for validity and offset.
struct Operands<'a, T> {
    a: &'a Vec<T>,
    b: &'a Vec<T>,
    n: usize,
    a_valid: Expr,
    a_index: Expr,
    b_valid: Expr,
    b_index: Expr,
}

impl<'a, T> Operands<'a, T> {
    spec fn prepared(&self, tensors: Seq<(Buffer<T>, ShapeView)>) -> bool {
        &&& tensors.len() >= 2
        &&& host(tensors[0].0) == Some(self.a@)
        &&& host(tensors[1].0) == Some(self.b@)
        &&& concrete(tensors[0].1@)
        &&& concrete(tensors[1].1@)
        &&& self.n == count(tensors[0].1@)
        &&& self.n == count(tensors[1].1@)
        &&& self.follows(tensors[0].1@, self.a_valid, self.a_index)
        &&& self.follows(tensors[1].1@, self.b_valid, self.b_index)
    }

    spec fn follows(&self, dims: Seq<Axis>, valid: Expr, index: Expr) -> bool {
        forall|pos: int|
            0 <= pos < count(dims) ==> {
                &&& #[trigger] valid.outcome(pos) == Ok::<usize, Fault>(
                    if valid_at(dims, pos) {
                        1usize
                    } else {
                        0usize
                    },
                )
                &&& index.outcome(pos) == Ok::<usize, Fault>(offset_at(dims, pos) as usize)
                &&& 0 <= offset_at(dims, pos) <= usize::MAX
            }
    }
}

fn prepare<'a, T>(tensors: &'a Vec<(Buffer<T>, ShapeView)>) -> (r: Result<Operands<'a, T>, Fault>)
    ensures
        match r {
            Ok(p) => p.prepared(tensors@),
            Err(e) => binary_fault(tensors@) == Some(e) && e != Fault::OutOfBounds,
        },
{
    if tensors.len() < 2 {
        return Err(Fault::StructuralMismatch);
    }
    let a = match &tensors[0].0 {
        Buffer::Host(v) => v,
        _ => {
            return Err(Fault::BufferKindMismatch);
        },
    };
    let b = match &tensors[1].0 {
        Buffer::Host(v) => v,
        _ => {
            return Err(Fault::BufferKindMismatch);
        },
    };
    let av = &tensors[0].1;
    let bv = &tensors[1].1;
    let a_valid = av.valid_expression();
    let a_index = av.index_expression();
    let b_valid = bv.valid_expression();
    let b_index = bv.index_expression();
    if a_valid.mentions_symbol() || b_valid.mentions_symbol() {
        return Err(Fault::UnresolvedSymbolicDimension);
    }
    let n = av.element_count().to_usize().unwrap();
    let m = bv.element_count().to_usize().unwrap();
    if n != m {
        return Err(Fault::StructuralMismatch);
    }
    Ok(Operands { a, b, n, a_valid, a_index, b_valid, b_index })
}

/// Reads one operand: the element at the offset where the position is
/// valid, `zero` where it is not, nothing where the offset lies beyond the
/// buffer.
fn fetch<T: Copy>(
    data: &Vec<T>,
    valid: &Expr,
    index: &Expr,
    pos: usize,
    zero: T,
    Ghost(dims): Ghost<Seq<Axis>>,
) -> (r: Option<T>)
    requires
        valid.outcome(pos as int) == Ok::<usize, Fault>(
            if valid_at(dims, pos as int) {
                1usize
            } else {
                0usize
            },
        ),
        index.outcome(pos as int) == Ok::<usize, Fault>(offset_at(dims, pos as int) as usize),
        0 <= offset_at(dims, pos as int) <= usize::MAX,
    ensures
        r == (if valid_at(dims, pos as int) && offset_at(dims, pos as int) >= data.len() {
            None
        } else {
            Some(operand(data@, dims, pos as int, zero))
        }),
{
    if valid.exec_single_var(pos).unwrap() != 0 {
        let at = index.exec_single_var(pos).unwrap();
        if at < data.len() {
            Some(data[at])
        } else {
            None
        }
    } else {
        Some(zero)
    }
}

/// The elementwise difference of two tensors.
#[derive(Clone, Copy, Debug, Default, PartialEq, Eq)]
pub struct Sub;

impl Sub {
    /// The operator as a graph node holds it.
    pub fn op(&self) -> (r: Op)
        ensures
            r == Op::Sub,
    {
        Op::Sub
    }

    /// Combines the two inputs position by position with `minus`, which
    /// stands for the scalar difference. Where a view shows padding the
    /// operand is `zero`; storage is never read there.
    pub fn process<T: Copy, F: Fn(T, T) -> T>(
        &self,
        tensors: &Vec<(Buffer<T>, ShapeView)>,
        zero: T,
        minus: F,
    ) -> (r: Result<Vec<Buffer<T>>, Fault>)
        requires
            forall|x: T, y: T| minus.requires((x, y)),
        ensures
            match r {
                Ok(out) => {
                    &&& binary_fault(tensors@) is None
                    &&& out@.len() == 1
                    &&& out@[0] matches Buffer::Host(d)
                    &&& d@.len() == count(tensors@[0].1@)
                    &&& forall|i: int|
                        0 <= i < d@.len() ==> minus.ensures(
                            (left(tensors@, i, zero), right(tensors@, i, zero)),
                            #[trigger] d@[i],
                        )
                },
                Err(e) => binary_fault(tensors@) == Some(e),
            },
    {
        let p = match prepare(tensors) {
            Ok(p) => p,
            Err(e) => {
                return Err(e);
            },
        };
        let ghost da = tensors@[0].1@;
        let ghost db = tensors@[1].1@;
        let mut data: Vec<T> = Vec::new();
        let mut i: usize = 0;
        while i < p.n
            invariant
                i <= p.n,
                p.prepared(tensors@),
                da == tensors@[0].1@,
                db == tensors@[1].1@,
                forall|x: T, y: T| minus.requires((x, y)),
                data@.len() == i,
                forall|k: int|
                    0 <= k < i && #[trigger] valid_at(da, k) ==> offset_at(da, k) < p.a@.len(),
                forall|k: int|
                    0 <= k < i && #[trigger] valid_at(db, k) ==> offset_at(db, k) < p.b@.len(),
                forall|k: int|
                    0 <= k < i ==> minus.ensures(
                        (left(tensors@, k, zero), right(tensors@, k, zero)),
                        #[trigger] data@[k],
                    ),
            decreases p.n - i,
        {
            assert(p.a_valid.outcome(i as int) is Ok);
            assert(p.b_valid.outcome(i as int) is Ok);
            let lhs = match fetch(p.a, &p.a_valid, &p.a_index, i, zero, Ghost(da)) {
                Some(x) => x,
                None => {
                    return Err(Fault::OutOfBounds);
                },
            };
            let rhs = match fetch(p.b, &p.b_valid, &p.b_index, i, zero, Ghost(db)) {
                Some(y) => y,
                None => {
                    return Err(Fault::OutOfBounds);
                },
            };
            data.push(minus(lhs, rhs));
            i += 1;
        }
        let mut out: Vec<Buffer<T>> = Vec::new();
        out.push(Buffer::Host(data));
        Ok(out)
    }
}

/// Whether `v` is the answer to the comparison of `l` and `r`: `one` where
/// `same` may say yes of them, `zero` where it may say no.
pub open spec fn answers<T, F: Fn(T, T) -> bool>(same: F, l: T, r: T, v: T, zero: T, one: T) -> bool {
    exists|b: bool| #[trigger] same.ensures((l, r), b) && v == (if b {
        one
    } else {
        zero
    })
}

/// The elementwise test for equality of two tensors, its answers written as
/// the scalars one and zero.
#[derive(Clone, Copy, Debug, Default, PartialEq, Eq)]
pub struct Equal;

impl Equal {
    /// The operator as a graph node holds it.
    pub fn op(&self) -> (r: Op)
        ensures
            r == Op::Equal,
    {
        Op::Equal
    }

    /// Compares the two inputs position by position with `same`, which
    /// stands for scalar equality, and writes `one` where it holds and
    /// `zero` where it does not. Where a view shows padding the operand is
    /// `zero`; storage is never read there.
    pub fn process<T: Copy, F: Fn(T, T) -> bool>(
        &self,
        tensors: &Vec<(Buffer<T>, ShapeView)>,
        zero: T,
        one: T,
        same: F,
    ) -> (r: Result<Vec<Buffer<T>>, Fault>)
        requires
            forall|x: T, y: T| same.requires((x, y)),
        ensures
            match r {
                Ok(out) => {
                    &&& binary_fault(tensors@) is None
                    &&& out@.len() == 1
                    &&& out@[0] matches Buffer::Host(d)
                    &&& d@.len() == count(tensors@[0].1@)
                    &&& forall|i: int|
                        0 <= i < d@.len() ==> answers(
                            same,
                            left(tensors@, i, zero),
                            right(tensors@, i, zero),
                            #[trigger] d@[i],
                            zero,
                            one,
                        )
                },
                Err(e) => binary_fault(tensors@) == Some(e),
            },
    {
        let p = match prepare(tensors) {
            Ok(p) => p,
            Err(e) => {
                return Err(e);
            },
        };
        let ghost da = tensors@[0].1@;
        let ghost db = tensors@[1].1@;
        let mut data: Vec<T> = Vec::new();
        let mut i: usize = 0;
        while i < p.n
            invariant
                i <= p.n,
                p.prepared(tensors@),
                da == tensors@[0].1@,
                db == tensors@[1].1@,
                forall|x: T, y: T| same.requires((x, y)),
                data@.len() == i,
                forall|k: int|
                    0 <= k < i && #[trigger] valid_at(da, k) ==> offset_at(da, k) < p.a@.len(),
                forall|k: int|
                    0 <= k < i && #[trigger] valid_at(db, k) ==> offset_at(db, k) < p.b@.len(),
                forall|k: int|
                    0 <= k < i ==> answers(
                        same,
                        left(tensors@, k, zero),
                        right(tensors@, k, zero),
                        #[trigger] data@[k],
                        zero,
                        one,
                    ),
            decreases p.n - i,
        {
            assert(p.a_valid.outcome(i as int) is Ok);
            assert(p.b_valid.outcome(i as int) is Ok);
            let lhs = match fetch(p.a, &p.a_valid, &p.a_index, i, zero, Ghost(da)) {
                Some(x) => x,
                None => {
                    return Err(Fault::OutOfBounds);
                },
            };
            let rhs = match fetch(p.b, &p.b_valid, &p.b_index, i, zero, Ghost(db)) {
                Some(y) => y,
                None => {
                    return Err(Fault::OutOfBounds);
                },
            };
            let ghost before = data@;
            let b = same(lhs, rhs);
            data.push(if b { one } else { zero });
            proof {
                assert(same.ensures((lhs, rhs), b));
                assert forall|k: int| 0 <= k < i + 1 implies answers(
                    same,
                    left(tensors@, k, zero),
                    right(tensors@, k, zero),
                    #[trigger] data@[k],
                    zero,
                    one,
                ) by {
                    if k < i {
                        assert(data@[k] == before[k]);
                    }
                }
            }
            i += 1;
        }
        let mut out: Vec<Buffer<T>> = Vec::new();
        out.push(Buffer::Host(data));
        Ok(out)
    }
}

/// The lookup of rows of a table by element number.
#[derive(Clone, Copy, Debug, PartialEq, Eq)]
pub struct Gather {
    /// The number of scalars in one row of the table.
    pub embed_dim: usize,
}

/// The offset into the table of the scalar that position `i` of the output
/// shows: the row is the token of the position's row, the column is the
/// position's column.
pub open spec fn gather_source(tokens: Seq<usize>, width: int, i: int) -> int {
    tokens[i / width] * width + i % width
}

/// Why a lookup with rows of `width` scalars declines its inputs, if it
/// does.
pub open spec fn gather_fault<T>(tensors: Seq<(Buffer<T>, ShapeView)>, width: int) -> Option<
    Fault,
> {
    if tensors.len() < 2 {
        Some(Fault::StructuralMismatch)
    } else if !(tensors[0].0 is Indices) || !(tensors[1].0 is Host) {
        Some(Fault::BufferKindMismatch)
    } else if tensors[0].0->Indices_0@.len() * width > usize::MAX {
        Some(Fault::ArithmeticOverflow)
    } else if exists|i: int|
        0 <= i < tensors[0].0->Indices_0@.len() * width && #[trigger] gather_source(
            tensors[0].0->Indices_0@,
            width,
            i,
        ) >= tensors[1].0->Host_0@.len() {
        Some(Fault::OutOfBounds)
    } else {
        None
    }
}

impl Gather {
    /// The operator as a graph node holds it.
    pub fn op(&self) -> (r: Op)
        ensures
            r == Op::Gather(self.embed_dim),
    {
        Op::Gather(self.embed_dim)
    }

    /// Copies, for each token of the first input in turn, the row of that
    /// number out of the table that the second input holds. The views of
    /// both inputs are not consulted: tokens and table are read as stored.
    pub fn process<T: Copy>(&self, tensors: &Vec<(Buffer<T>, ShapeView)>) -> (r: Result<
        Vec<Buffer<T>>,
        Fault,
    >)
        ensures
            match r {
                Ok(out) => {
                    &&& gather_fault(tensors@, self.embed_dim as int) is None
                    &&& out@.len() == 1
                    &&& out@[0] matches Buffer::Host(d)
                    &&& d@.len() == tensors@[0].0->Indices_0@.len() * self.embed_dim
                    &&& forall|i: int|
                        0 <= i < d@.len() ==> #[trigger] d@[i] == tensors@[1].0->Host_0@[gather_source(
                            tensors@[0].0->Indices_0@,
                            self.embed_dim as int,
                            i,
                        )]
                },
                Err(e) => gather_fault(tensors@, self.embed_dim as int) == Some(e),
            },
    {
        if tensors.len() < 2 {
            return Err(Fault::StructuralMismatch);
        }
        let tokens = match &tensors[0].0 {
            Buffer::Indices(v) => v,
            _ => {
                return Err(Fault::BufferKindMismatch);
            },
        };
        let table = match &tensors[1].0 {
            Buffer::Host(v) => v,
            _ => {
                return Err(Fault::BufferKindMismatch);
            },
        };
        let width = self.embed_dim;
        let n = match tokens.len().checked_mul(width) {
            Some(n) => n,
            None => {
                return Err(Fault::ArithmeticOverflow);
            },
        };
        let mut data: Vec<T> = Vec::new();
        let mut i: usize = 0;
        while i < n
            invariant
                i <= n,
                n == tokens@.len() * width,
                width == self.embed_dim,
                tensors@.len() >= 2,
                tensors@[0].0 is Indices,
                tensors@[0].0->Indices_0@ == tokens@,
                tensors@[1].0 is Host,
                tensors@[1].0->Host_0@ == table@,
                data@.len() == i,
                forall|j: int|
                    0 <= j < i ==> 0 <= #[trigger] gather_source(tokens@, width as int, j)
                        < table@.len(),
                forall|j: int|
                    0 <= j < i ==> #[trigger] data@[j] == table@[gather_source(
                        tokens@,
                        width as int,
                        j,
                    )],
            decreases n - i,
        {
            assert(width > 0) by (nonlinear_arith)
                requires
                    i < tokens@.len() * width,
            ;
            let row = i / width;
            let col = i % width;
            proof {
                vstd::arithmetic::div_mod::lemma_fundamental_div_mod(i as int, width as int);
                assert((i as int) / (width as int) < tokens@.len()) by (nonlinear_arith)
                    requires
                        i as int == width as int * (i as int / width as int) + i as int
                            % width as int,
                        0 <= i as int % width as int,
                        (i as int) < tokens@.len() * width,
                        width > 0,
                ;
            }
            let token = tokens[row];
            let limit = table.len();
            let at = match token.checked_mul(width) {
                None => None,
                Some(x) => x.checked_add(col),
            };
            let at = match at {
                Some(at) if at < limit => at,
                _ => {
                    proof {
                        let here = gather_source(tokens@, width as int, i as int);
                        assert(here == token * width + col);
                        assert(here >= table@.len());
                        assert(0 <= i < tokens@.len() * width);
                    }
                    return Err(Fault::OutOfBounds);
                },
            };
            data.push(table[at]);
            i += 1;
        }
        let mut out: Vec<Buffer<T>> = Vec::new();
        out.push(Buffer::Host(data));
        Ok(out)
    }
}

} // verus!
