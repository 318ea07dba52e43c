use vstd::prelude::*;
use crate::axis::{Axis, count, is_contiguous, well_formed};
use crate::ops::{lemma_contiguous_operand_is_element, operand};

verus! {

/// Scalar arithmetic as the passes see it: the scalars zero, one and minus
/// one, and the operations of the operators that the idioms are made of.
/// The library computes with none of them; they serve to say which
/// identities the passes rest on.
#[verifier::reject_recursive_types(S)]
pub struct Arithmetic<S> {
    pub zero: S,
    pub one: S,
    pub minus_one: S,
    pub plus: spec_fn(S, S) -> S,
    pub times: spec_fn(S, S) -> S,
    pub minus: spec_fn(S, S) -> S,
    pub less: spec_fn(S, S) -> bool,
    pub same: spec_fn(S, S) -> bool,
}

impl<S> Arithmetic<S> {
    /// The scalar that stands for a truth value.
    pub open spec fn truth(self, b: bool) -> S {
        if b {
            self.one
        } else {
            self.zero
        }
    }

    /// The sum of the scalars of a sequence, from the left.
    pub open spec fn total(self, s: Seq<S>) -> S
        decreases s.len(),
    {
        if s.len() == 0 {
            self.zero
        } else {
            (self.plus)(self.total(s.drop_last()), s.last())
        }
    }

    /// A difference is the sum with the product by minus one.
    pub open spec fn subtracts(self) -> bool {
        forall|x: S, y: S|
            #[trigger] (self.minus)(x, y) == (self.plus)(x, (self.times)(y, self.minus_one))
    }

    /// Zero and one add and subtract as truth values need it, no scalar is
    /// smaller than one that is smaller than it, and two scalars are the
    /// same when neither is smaller.
    pub open spec fn compares(self) -> bool {
        &&& (self.plus)(self.zero, self.zero) == self.zero
        &&& (self.plus)(self.one, self.zero) == self.one
        &&& (self.plus)(self.zero, self.one) == self.one
        &&& (self.minus)(self.one, self.zero) == self.one
        &&& (self.minus)(self.one, self.one) == self.zero
        &&& forall|x: S, y: S| !(#[trigger] (self.less)(x, y) && (self.less)(y, x))
        &&& forall|x: S, y: S|
            #[trigger] (self.same)(x, y) <==> !(self.less)(x, y) && !(self.less)(y, x)
    }

    /// Zero is neutral in sums, one is neutral in products, and a product
    /// by zero is zero.
    pub open spec fn selects(self) -> bool {
        &&& forall|x: S| #[trigger] (self.plus)(self.zero, x) == x
        &&& forall|x: S| #[trigger] (self.plus)(x, self.zero) == x
        &&& forall|x: S| #[trigger] (self.times)(self.one, x) == x
        &&& forall|x: S| #[trigger] (self.times)(self.zero, x) == self.zero
    }

    /// The one-hot row for `k`, times `column`, entry by entry.
    pub open spec fn picked(self, column: Seq<S>, k: int) -> Seq<S> {
        Seq::new(column.len(), |v: int| (self.times)(self.truth(v == k), column[v]))
    }

    /// What the subtraction idiom computes at position `pos`: the operand
    /// of the sum's first input plus what the sum sees, through `seen`, of
    /// the product of `b` and the constant, each read through its view.
    pub open spec fn sum_of_idiom(
        self,
        a: Seq<S>,
        a_view: Seq<Axis>,
        b: Seq<S>,
        b_view: Seq<Axis>,
        constant: Seq<S>,
        constant_view: Seq<Axis>,
        seen: Seq<Axis>,
        pos: int,
    ) -> S {
        let product = Seq::new(
            count(b_view) as nat,
            |j: int|
                (self.times)(
                    operand(b, b_view, j, self.zero),
                    operand(constant, constant_view, j, self.zero),
                ),
        );
        (self.plus)(operand(a, a_view, pos, self.zero), operand(product, seen, pos, self.zero))
    }

    /// Where the sum sees the product through a contiguous view, and the
    /// product sees minus one at the position, the subtraction idiom
    /// computes at that position the difference that the fused node
    /// computes there.
    pub proof fn lemma_subtraction(
        self,
        a: Seq<S>,
        a_view: Seq<Axis>,
        b: Seq<S>,
        b_view: Seq<Axis>,
        constant: Seq<S>,
        constant_view: Seq<Axis>,
        seen: Seq<Axis>,
        pos: int,
    )
        requires
            self.subtracts(),
            well_formed(seen),
            is_contiguous(seen),
            count(seen) == count(b_view),
            0 <= pos < count(seen),
            operand(constant, constant_view, pos, self.zero) == self.minus_one,
        ensures
            self.sum_of_idiom(a, a_view, b, b_view, constant, constant_view, seen, pos) == (
            self.minus)(operand(a, a_view, pos, self.zero), operand(b, b_view, pos, self.zero)),
    {
        let product = Seq::new(
            count(b_view) as nat,
            |j: int|
                (self.times)(
                    operand(b, b_view, j, self.zero),
                    operand(constant, constant_view, j, self.zero),
                ),
        );
        lemma_contiguous_operand_is_element(product, seen, pos, self.zero);
    }

    /// One minus the sum of the two comparisons is the truth value of the
    /// equality.
    pub proof fn lemma_equality(self, x: S, y: S)
        requires
            self.compares(),
        ensures
            (self.minus)(
                self.one,
                (self.plus)(self.truth((self.less)(x, y)), self.truth((self.less)(y, x))),
            ) == self.truth((self.same)(x, y)),
    {
        assert(!((self.less)(x, y) && (self.less)(y, x)));
        assert((self.same)(x, y) <==> !(self.less)(x, y) && !(self.less)(y, x));
    }

    proof fn lemma_none_picked(self, column: Seq<S>, k: int, n: int)
        requires
            self.selects(),
            0 <= n <= column.len(),
            n <= k,
        ensures
            self.total(self.picked(column, k).take(n)) == self.zero,
        decreases n,
    {
        let row = self.picked(column, k).take(n);
        if n > 0 {
            self.lemma_none_picked(column, k, n - 1);
            assert(row.drop_last() =~= self.picked(column, k).take(n - 1));
            assert(row.last() == (self.times)(self.zero, column[n - 1]));
        }
    }

    proof fn lemma_one_picked(self, column: Seq<S>, k: int, n: int)
        requires
            self.selects(),
            0 <= k < n <= column.len(),
        ensures
            self.total(self.picked(column, k).take(n)) == column[k],
        decreases n,
    {
        let row = self.picked(column, k).take(n);
        assert(row.drop_last() =~= self.picked(column, k).take(n - 1));
        if n - 1 == k {
            self.lemma_none_picked(column, k, n - 1);
            assert(row.last() == (self.times)(self.one, column[k]));
        } else {
            self.lemma_one_picked(column, k, n - 1);
            assert(row.last() == (self.times)(self.zero, column[n - 1]));
        }
    }

    /// The sum over a column that was multiplied by the one-hot row for
    /// `k` is the column's entry `k`: the sum over the products in the
    /// lookup idiom is the looked-up entry.
    pub proof fn lemma_lookup(self, column: Seq<S>, k: int)
        requires
            self.selects(),
            0 <= k < column.len(),
        ensures
            self.total(self.picked(column, k)) == column[k],
    {
        self.lemma_one_picked(column, k, column.len() as int);
        assert(self.picked(column, k).take(column.len() as int) =~= self.picked(column, k));
    }
}

} // verus!
