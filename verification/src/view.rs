use vstd::prelude::*;
use vstd::arithmetic::div_mod::{lemma_fundamental_div_mod, lemma_div_pos_is_pos, lemma_mod_bound};
use vstd::arithmetic::mul::lemma_mul_inequality;
use crate::axis::{
    Axis, Extent, bulk, concrete, count, is_contiguous, is_padded, is_sliced,
    lemma_coords_in_range, lemma_count_bounds, lemma_offset_step, lemma_prefix_bounds,
    lemma_valid_step, offset_at, row_major, span, valid_at, well_formed,
};
use crate::expr::{BinOp, Expr};
use crate::fault::Fault;

verus! {

/// How one consumer sees a producer's buffer: one descriptor per axis, the
/// last axis running fastest. A view is a value: every operation on it gives
/// a new one.
#[derive(Debug, PartialEq, Eq, Hash)]
pub struct ShapeView {
    dims: Vec<Axis>,
}

impl View for ShapeView {
    type V = Seq<Axis>;

    closed spec fn view(&self) -> Seq<Axis> {
        self.dims@
    }
}

/// The expression for the length of one axis.
pub open spec fn len_tree(a: Axis) -> Expr {
    match a.size {
        Extent::Fixed(_) => Expr::Num(a.len() as usize),
        Extent::Symbol(c) => Expr::Sym(c),
    }
}

spec fn bin(op: BinOp, a: Expr, b: Expr) -> Expr {
    Expr::Bin(op, Box::new(a), Box::new(b))
}

spec fn coord_tree(a: Axis, q: Expr) -> Expr {
    bin(BinOp::Mod, q, len_tree(a))
}

spec fn inside_tree(a: Axis, q: Expr) -> Expr {
    match a.size {
        Extent::Fixed(n) => {
            let p = bin(BinOp::Add, coord_tree(a, q), Expr::Num(a.slice_start));
            bin(
                BinOp::And,
                bin(BinOp::Ge, p, Expr::Num(a.pad_before)),
                bin(BinOp::Lt, p, Expr::Num((a.pad_before + n) as usize)),
            )
        },
        Extent::Symbol(_) => bin(BinOp::Lt, coord_tree(a, q), len_tree(a)),
    }
}

spec fn source_tree(a: Axis, q: Expr) -> Expr {
    match a.size {
        Extent::Fixed(_) => {
            let p = bin(BinOp::Add, coord_tree(a, q), Expr::Num(a.slice_start));
            bin(BinOp::Min, bin(BinOp::Sub, p, Expr::Num(a.pad_before)), Expr::Num(a.top() as usize))
        },
        Extent::Symbol(_) => coord_tree(a, q),
    }
}

spec fn index_tree(dims: Seq<Axis>, q: Expr) -> Expr
    decreases dims.len(),
{
    if dims.len() == 0 {
        Expr::Num(0)
    } else {
        bin(
            BinOp::Add,
            index_tree(dims.drop_last(), bin(BinOp::Div, q, len_tree(dims.last()))),
            bin(BinOp::Mul, source_tree(dims.last(), q), Expr::Num(dims.last().stride)),
        )
    }
}

spec fn valid_tree(dims: Seq<Axis>, q: Expr) -> Expr
    decreases dims.len(),
{
    if dims.len() == 0 {
        Expr::Num(1)
    } else {
        bin(
            BinOp::And,
            valid_tree(dims.drop_last(), bin(BinOp::Div, q, len_tree(dims.last()))),
            inside_tree(dims.last(), q),
        )
    }
}

/// The number of positions as an expression: the product of the fixed
/// lengths as one number, times each run-time dimension in the order of the
/// axes.
pub open spec fn count_tree(dims: Seq<Axis>, base: Expr) -> Expr
    decreases dims.len(),
{
    if dims.len() == 0 {
        base
    } else {
        let t = count_tree(dims.drop_last(), base);
        match dims.last().size {
            Extent::Fixed(_) => t,
            Extent::Symbol(c) => Expr::Bin(BinOp::Mul, Box::new(t), Box::new(Expr::Sym(c))),
        }
    }
}

proof fn lemma_tree_symbols(dims: Seq<Axis>, q: Expr)
    ensures
        index_tree(dims, q).has_symbol() == (dims.len() > 0 && (q.has_symbol() || !concrete(
            dims,
        ))),
        valid_tree(dims, q).has_symbol() == (dims.len() > 0 && (q.has_symbol() || !concrete(
            dims,
        ))),
    decreases dims.len(),
{
    reveal_with_fuel(Expr::has_symbol, 8);
    if dims.len() > 0 {
        let front = dims.drop_last();
        let last = dims.last();
        let d = bin(BinOp::Div, q, len_tree(last));
        lemma_tree_symbols(front, d);
        assert(len_tree(last).has_symbol() == (last.size is Symbol));
        assert(d.has_symbol() == (q.has_symbol() || last.size is Symbol));
        assert(coord_tree(last, q).has_symbol() == (q.has_symbol() || last.size is Symbol));
        assert(source_tree(last, q).has_symbol() == (q.has_symbol() || last.size is Symbol));
        assert(last.size is Fixed ==> inside_tree(last, q).has_symbol() == q.has_symbol());
        if concrete(dims) {
            assert(dims[dims.len() - 1].size is Fixed);
            assert forall|k: int| 0 <= k < front.len() implies (#[trigger] front[k]).size
                is Fixed by {
                assert(front[k] == dims[k]);
            }
        } else {
            let k = choose|k: int| 0 <= k < dims.len() && !((#[trigger] dims[k]).size is Fixed);
            if k < front.len() {
                assert(front[k] == dims[k]);
                assert(!concrete(front));
            } else {
                assert(last.size is Symbol);
            }
        }
        if !concrete(front) {
            let k = choose|k: int| 0 <= k < front.len() && !((#[trigger] front[k]).size is Fixed);
            assert(front[k] == dims[k]);
        }
    }
}

proof fn lemma_trees(dims: Seq<Axis>, q: Expr, pos: int, qv: int)
    requires
        forall|k: int| 0 <= k < dims.len() ==> (#[trigger] dims[k]).wf(),
        concrete(dims),
        span(dims) <= usize::MAX,
        !q.has_symbol(),
        q.fits(pos),
        q.value(pos) == qv,
        0 <= qv < count(dims),
        qv <= usize::MAX,
    ensures
        !index_tree(dims, q).has_symbol(),
        index_tree(dims, q).fits(pos),
        index_tree(dims, q).value(pos) == offset_at(dims, qv),
        0 <= offset_at(dims, qv) <= span(dims),
        !valid_tree(dims, q).has_symbol(),
        valid_tree(dims, q).fits(pos),
        valid_tree(dims, q).value(pos) == (if valid_at(dims, qv) {
            1int
        } else {
            0int
        }),
    decreases dims.len(),
{
    reveal_with_fuel(Expr::has_symbol, 8);
    reveal_with_fuel(Expr::value, 8);
    reveal_with_fuel(Expr::fits, 8);
    lemma_tree_symbols(dims, q);
    if dims.len() > 0 {
        let front = dims.drop_last();
        let last = dims.last();
        let l = last.len();
        assert(last == dims[dims.len() - 1]);
        assert(last.wf());
        assert(last.size is Fixed);
        let n = last.data();
        assert forall|k: int| 0 <= k < front.len() implies (#[trigger] front[k]).wf()
            && front[k].size is Fixed by {
            assert(front[k] == dims[k]);
        }
        lemma_coords_in_range(dims, qv);
        lemma_count_bounds(front);
        lemma_fundamental_div_mod(qv, l);
        lemma_mod_bound(qv, l);
        lemma_div_pos_is_pos(qv, l);
        assert(qv / l <= qv) by (nonlinear_arith)
            requires
                qv == l * (qv / l) + qv % l,
                0 <= qv % l,
                0 <= qv / l,
                l > 0,
        ;
        let lt = len_tree(last);
        assert(lt == Expr::Num(l as usize));
        let d = bin(BinOp::Div, q, lt);
        assert(d.value(pos) == qv / l);
        assert(d.fits(pos));
        assert(0 <= last.top() * last.stride) by (nonlinear_arith)
            requires
                0 <= last.top(),
                0 <= last.stride,
        ;
        lemma_trees(front, d, pos, qv / l);
        let j = qv % l;
        let ct = coord_tree(last, q);
        assert(ct.value(pos) == j);
        assert(ct.fits(pos));
        let p = bin(BinOp::Add, ct, Expr::Num(last.slice_start));
        assert(p.value(pos) == j + last.slice_start);
        assert(p.fits(pos));
        let st = source_tree(last, q);
        assert(st.value(pos) == last.source(j));
        assert(st.fits(pos));
        assert(0 <= last.source(j) <= last.top());
        lemma_mul_inequality(last.source(j), last.top(), last.stride as int);
        assert(0 <= last.source(j) * last.stride) by (nonlinear_arith)
            requires
                0 <= last.source(j),
                0 <= last.stride,
        ;
        let c = bin(BinOp::Mul, st, Expr::Num(last.stride));
        assert(c.value(pos) == last.source(j) * last.stride);
        assert(c.fits(pos));
        lemma_offset_step(dims, qv);
        lemma_valid_step(dims, qv);
        let it = inside_tree(last, q);
        assert(it.value(pos) == (if last.in_data(j) {
            1int
        } else {
            0int
        }));
        assert(it.fits(pos));
    } else {
        assert(valid_at(dims, qv));
    }
}

fn make(op: BinOp, a: Expr, b: Expr) -> (r: Expr)
    ensures
        r == bin(op, a, b),
{
    Expr::Bin(op, Box::new(a), Box::new(b))
}

fn len_expr(a: &Axis) -> (r: Expr)
    requires
        a.wf(),
    ensures
        r == len_tree(*a),
{
    match a.size {
        Extent::Fixed(_) => Expr::Num(a.length()),
        Extent::Symbol(c) => Expr::Sym(c),
    }
}

fn inside_expr(a: &Axis, q: Expr) -> (r: Expr)
    requires
        a.wf(),
    ensures
        r == inside_tree(*a, q),
{
    match a.size {
        Extent::Fixed(n) => {
            let place = make(
                BinOp::Add,
                make(BinOp::Mod, q, len_expr(a)),
                Expr::Num(a.slice_start),
            );
            make(
                BinOp::And,
                make(BinOp::Ge, place.dup(), Expr::Num(a.pad_before)),
                make(BinOp::Lt, place, Expr::Num(a.pad_before + n)),
            )
        },
        Extent::Symbol(_) => make(BinOp::Lt, make(BinOp::Mod, q, len_expr(a)), len_expr(a)),
    }
}

fn source_expr(a: &Axis, q: Expr) -> (r: Expr)
    requires
        a.wf(),
    ensures
        r == source_tree(*a, q),
{
    match a.size {
        Extent::Fixed(n) => {
            let p = make(BinOp::Add, make(BinOp::Mod, q, len_expr(a)), Expr::Num(a.slice_start));
            let top: usize = if n > 0 { n - 1 } else { 0 };
            make(BinOp::Min, make(BinOp::Sub, p, Expr::Num(a.pad_before)), Expr::Num(top))
        },
        Extent::Symbol(_) => make(BinOp::Mod, q, len_expr(a)),
    }
}

fn axes_are_well_formed(axes: &Vec<Axis>) -> (r: bool)
    ensures
        r == (forall|k: int| 0 <= k < axes.len() ==> (#[trigger] axes[k]).wf()),
{
    let mut k: usize = 0;
    while k < axes.len()
        invariant
            k <= axes.len(),
            forall|i: int| 0 <= i < k ==> (#[trigger] axes[i]).wf(),
        decreases axes.len() - k,
    {
        if !axes[k].check() {
            return false;
        }
        k += 1;
    }
    true
}

/// The axes of the row-major layout of a buffer with the given sizes,
/// whose last axis has stride `unit`.
pub open spec fn layout(sizes: Seq<usize>, unit: int) -> Seq<Axis>
    decreases sizes.len(),
{
    if sizes.len() == 0 {
        Seq::empty()
    } else {
        layout(sizes.drop_last(), unit * sizes.last()).push(
            Axis {
                size: Extent::Fixed(sizes.last()),
                stride: unit as usize,
                pad_before: 0,
                pad_after: 0,
                slice_start: 0,
                slice_end: usize::MAX,
            },
        )
    }
}

/// Whether every stride of that layout fits a machine word.
pub open spec fn strides_fit(sizes: Seq<usize>, unit: int) -> bool
    decreases sizes.len(),
{
    if sizes.len() == 0 {
        true
    } else {
        unit <= usize::MAX && strides_fit(sizes.drop_last(), unit * sizes.last())
    }
}

/// The row-major layout is contiguous, and its axes have the given sizes.
pub proof fn lemma_layout(sizes: Seq<usize>, unit: int)
    requires
        strides_fit(sizes, unit),
        0 <= unit,
    ensures
        layout(sizes, unit).len() == sizes.len(),
        forall|k: int|
            0 <= k < sizes.len() ==> (#[trigger] layout(sizes, unit)[k]).size == Extent::Fixed(
                sizes[k],
            ) && !layout(sizes, unit)[k].is_padded() && !layout(sizes, unit)[k].is_sliced(),
        row_major(layout(sizes, unit), unit),
        !is_padded(layout(sizes, unit)),
        !is_sliced(layout(sizes, unit)),
    decreases sizes.len(),
{
    if sizes.len() > 0 {
        let front = sizes.drop_last();
        let next = unit * sizes.last();
        assert(0 <= unit * sizes.last()) by (nonlinear_arith)
            requires
                0 <= unit,
                0 <= sizes.last(),
        ;
        lemma_layout(front, next);
        let l = layout(sizes, unit);
        assert(l.drop_last() =~= layout(front, next));
        assert forall|k: int| 0 <= k < sizes.len() implies (#[trigger] l[k]).size == Extent::Fixed(
            sizes[k],
        ) && !l[k].is_padded() && !l[k].is_sliced() by {
            if k < front.len() {
                assert(l[k] == layout(front, next)[k]);
            }
        }
    }
}

impl ShapeView {
    /// What holds of every view.
    #[verifier::type_invariant]
    pub open spec fn inv(&self) -> bool {
        well_formed(self@)
    }

    /// The view with the given axes, where they are well formed together.
    pub fn from_axes(axes: Vec<Axis>) -> (r: Option<ShapeView>)
        ensures
            match r {
                Some(v) => v@ == axes@ && well_formed(axes@),
                None => !well_formed(axes@),
            },
    {
        if !axes_are_well_formed(&axes) {
            return None;
        }
        let mut k: usize = 0;
        let mut total: usize = 1;
        let mut reach: usize = 0;
        while k < axes.len()
            invariant
                k <= axes.len(),
                forall|i: int| 0 <= i < axes.len() ==> (#[trigger] axes[i]).wf(),
                total == bulk(axes@.take(k as int)),
                reach == span(axes@.take(k as int)),
            decreases axes.len() - k,
        {
            let a = axes[k];
            let l = a.length();
            let m: usize = if l > 0 { l } else { 1 };
            proof {
                lemma_prefix_bounds(axes@, k as int + 1);
                assert(axes@.take(k as int + 1).drop_last() =~= axes@.take(k as int));
                assert(axes@.take(k as int + 1).last() == axes[k as int]);
            }
            let t = a.highest();
            match total.checked_mul(m) {
                None => {
                    return None;
                },
                Some(x) => {
                    total = x;
                },
            }
            match t.checked_mul(a.stride) {
                None => {
                    proof {
                        lemma_count_bounds(axes@.take(k as int));
                    }
                    return None;
                },
                Some(y) => match reach.checked_add(y) {
                    None => {
                        return None;
                    },
                    Some(z) => {
                        reach = z;
                    },
                },
            }
            k += 1;
        }
        proof {
            assert(axes@.take(k as int) =~= axes@);
        }
        Some(ShapeView { dims: axes })
    }

    fn layout_part(sizes: &Vec<usize>, n: usize, unit: usize) -> (r: Option<Vec<Axis>>)
        requires
            n <= sizes@.len(),
        ensures
            match r {
                Some(v) => strides_fit(sizes@.take(n as int), unit as int) && v@ == layout(
                    sizes@.take(n as int),
                    unit as int,
                ),
                None => !strides_fit(sizes@.take(n as int), unit as int),
            },
        decreases n,
    {
        if n == 0 {
            return Some(Vec::new());
        }
        let size = sizes[n - 1];
        proof {
            assert(sizes@.take(n as int).drop_last() =~= sizes@.take(n as int - 1));
            assert(sizes@.take(n as int).last() == size);
        }
        if n == 1 {
            let mut v: Vec<Axis> = Vec::new();
            v.push(Axis::plain(size, unit));
            proof {
                let none = sizes@.take(0);
                assert(none.len() == 0);
                assert(strides_fit(none, unit * size));
                assert(layout(none, unit * size) =~= Seq::<Axis>::empty());
                assert(v@ =~= layout(sizes@.take(1), unit as int));
            }
            return Some(v);
        }
        let next = match unit.checked_mul(size) {
            None => {
                proof {
                    let shorter = sizes@.take(n as int - 1);
                    assert(shorter.len() > 0);
                    assert(!strides_fit(shorter, unit * size));
                }
                return None;
            },
            Some(next) => next,
        };
        match Self::layout_part(sizes, n - 1, next) {
            None => None,
            Some(mut v) => {
                v.push(Axis::plain(size, unit));
                Some(v)
            },
        }
    }

    /// The contiguous view of a buffer with the given sizes, where its
    /// strides, the number of its positions and its largest offset fit a
    /// machine word.
    pub fn contiguous(sizes: &Vec<usize>) -> (r: Option<ShapeView>)
        ensures
            match r {
                Some(v) => strides_fit(sizes@, 1) && v@ == layout(sizes@, 1) && is_contiguous(
                    v@,
                ) && v@.len() == sizes@.len(),
                None => !(strides_fit(sizes@, 1) && well_formed(layout(sizes@, 1))),
            },
    {
        proof {
            assert(sizes@.take(sizes@.len() as int) =~= sizes@);
        }
        match Self::layout_part(sizes, sizes.len(), 1) {
            None => None,
            Some(axes) => {
                proof {
                    lemma_layout(sizes@, 1);
                }
                Self::from_axes(axes)
            },
        }
    }

    /// Whether no axis has a run-time size.
    pub fn is_concrete(&self) -> (r: bool)
        ensures
            r == concrete(self@),
    {
        let mut k: usize = 0;
        while k < self.dims.len()
            invariant
                k <= self.dims.len(),
                forall|i: int| 0 <= i < k ==> (#[trigger] self.dims@[i]).size is Fixed,
            decreases self.dims.len() - k,
        {
            match self.dims[k].size {
                Extent::Symbol(_) => {
                    return false;
                },
                Extent::Fixed(_) => {},
            }
            k += 1;
        }
        true
    }

    /// The number of axes.
    pub fn rank(&self) -> (r: usize)
        ensures
            r == self@.len(),
    {
        self.dims.len()
    }

    /// The descriptor of axis `k`.
    pub fn axis(&self, k: usize) -> (r: Option<Axis>)
        ensures
            r == (if k < self@.len() {
                Some(self@[k as int])
            } else {
                None
            }),
    {
        if k < self.dims.len() {
            Some(self.dims[k])
        } else {
            None
        }
    }

    /// A copy of the view.
    pub fn dup(&self) -> (r: ShapeView)
        ensures
            r@ == self@,
    {
        proof {
            use_type_invariant(self);
        }
        let mut v: Vec<Axis> = Vec::new();
        let mut k: usize = 0;
        while k < self.dims.len()
            invariant
                k <= self.dims.len(),
                v@ == self.dims@.take(k as int),
            decreases self.dims.len() - k,
        {
            v.push(self.dims[k]);
            proof {
                assert(self.dims@.take(k as int + 1) =~= self.dims@.take(k as int).push(
                    self.dims@[k as int],
                ));
            }
            k += 1;
        }
        proof {
            assert(self.dims@.take(k as int) =~= self.dims@);
        }
        ShapeView { dims: v }
    }

    /// Whether the two views have the same axes.
    pub fn same_as(&self, other: &ShapeView) -> (r: bool)
        ensures
            r == (self@ == other@),
    {
        if self.dims.len() != other.dims.len() {
            return false;
        }
        let mut k: usize = 0;
        while k < self.dims.len()
            invariant
                k <= self.dims.len(),
                self.dims.len() == other.dims.len(),
                forall|i: int| 0 <= i < k ==> self.dims@[i] == other.dims@[i],
            decreases self.dims.len() - k,
        {
            if self.dims[k] != other.dims[k] {
                return false;
            }
            k += 1;
        }
        proof {
            assert(self@ =~= other@);
        }
        true
    }

    /// Whether some axis is padded.
    pub fn is_padded(&self) -> (r: bool)
        ensures
            r == is_padded(self@),
    {
        let mut k: usize = 0;
        while k < self.dims.len()
            invariant
                k <= self.dims.len(),
                forall|i: int| 0 <= i < k ==> !(#[trigger] self.dims@[i]).is_padded(),
            decreases self.dims.len() - k,
        {
            let a = self.dims[k];
            if a.pad_before > 0 || a.pad_after > 0 {
                return true;
            }
            k += 1;
        }
        false
    }

    /// Whether some axis shows less than its padded length.
    pub fn is_sliced(&self) -> (r: bool)
        ensures
            r == is_sliced(self@),
    {
        proof {
            use_type_invariant(self);
        }
        let mut k: usize = 0;
        while k < self.dims.len()
            invariant
                k <= self.dims.len(),
                well_formed(self@),
                forall|i: int| 0 <= i < k ==> !(#[trigger] self.dims@[i]).is_sliced(),
            decreases self.dims.len() - k,
        {
            let a = self.dims[k];
            assert(a.wf());
            let cut = match a.size {
                Extent::Symbol(_) => false,
                Extent::Fixed(n) => a.slice_start > 0 || a.slice_end < a.pad_before + n
                    + a.pad_after,
            };
            if cut {
                return true;
            }
            k += 1;
        }
        false
    }

    /// Whether the strides are those of the row-major layout and nothing is
    /// padded or sliced.
    pub fn is_contiguous(&self) -> (r: bool)
        ensures
            r == is_contiguous(self@),
    {
        if self.is_padded() || self.is_sliced() {
            return false;
        }
        let mut k: usize = self.dims.len();
        let mut unit: Option<usize> = Some(1);
        let ghost u: int = 1;
        assert(self@.take(k as int) =~= self@);
        while k > 0
            invariant
                k <= self.dims.len(),
                row_major(self@, 1) == row_major(self@.take(k as int), u),
                match unit {
                    Some(x) => x == u,
                    None => u > usize::MAX,
                },
            decreases k,
        {
            let a = self.dims[k - 1];
            proof {
                assert(self@.take(k as int).drop_last() =~= self@.take(k as int - 1));
                assert(self@.take(k as int).last() == a);
            }
            match unit {
                None => {
                    return false;
                },
                Some(x) => {
                    if a.stride != x {
                        return false;
                    }
                    match a.size {
                        Extent::Symbol(_) => {
                            if k != 1 {
                                return false;
                            }
                            unit = Some(x);
                        },
                        Extent::Fixed(n) => {
                            unit = x.checked_mul(n);
                        },
                    }
                    proof {
                        u = u * a.data();
                    }
                },
            }
            k -= 1;
        }
        true
    }

    /// The number of positions: the product of the fixed lengths as one
    /// number, times each run-time dimension.
    pub fn element_count(&self) -> (r: Expr)
        ensures
            r == count_tree(self@, Expr::Num(count(self@) as usize)),
            concrete(self@) ==> r == Expr::Num(count(self@) as usize),
            0 <= count(self@) <= usize::MAX,
    {
        proof {
            use_type_invariant(self);
            lemma_count_bounds(self@);
        }
        let mut k: usize = 0;
        let mut total: usize = 1;
        while k < self.dims.len()
            invariant
                k <= self.dims.len(),
                well_formed(self@),
                total == count(self@.take(k as int)),
            decreases self.dims.len() - k,
        {
            let a = self.dims[k];
            assert(a.wf());
            let l = a.length();
            proof {
                lemma_prefix_bounds(self@, k as int + 1);
                let next = self@.take(k as int + 1);
                assert(next.drop_last() =~= self@.take(k as int));
                assert(next.last() == a);
                assert forall|i: int| 0 <= i < next.len() implies (#[trigger] next[i]).wf() by {
                    assert(next[i] == self@[i]);
                }
                lemma_count_bounds(next);
            }
            total = total * l;
            k += 1;
        }
        proof {
            assert(self@.take(k as int) =~= self@);
        }
        let mut e = Expr::Num(total);
        let ghost base = e;
        let mut i: usize = 0;
        while i < self.dims.len()
            invariant
                i <= self.dims.len(),
                e == count_tree(self@.take(i as int), base),
                concrete(self@.take(i as int)) ==> e == base,
            decreases self.dims.len() - i,
        {
            proof {
                let next = self@.take(i as int + 1);
                assert(next.drop_last() =~= self@.take(i as int));
                assert(next.last() == self@[i as int]);
                if concrete(next) {
                    assert(next[i as int].size is Fixed);
                    assert forall|j: int| 0 <= j < i implies (#[trigger] self@.take(
                        i as int,
                    )[j]).size is Fixed by {
                        assert(next[j] == self@.take(i as int)[j]);
                    }
                }
            }
            match self.dims[i].size {
                Extent::Fixed(_) => {},
                Extent::Symbol(c) => {
                    e = Expr::Bin(BinOp::Mul, Box::new(e), Box::new(Expr::Sym(c)));
                },
            }
            i += 1;
        }
        proof {
            assert(self@.take(i as int) =~= self@);
        }
        e
    }

    /// The length of each axis as an expression.
    pub fn shape(&self) -> (r: Vec<Expr>)
        ensures
            r.len() == self@.len(),
            forall|k: int| 0 <= k < self@.len() ==> #[trigger] r[k] == len_tree(self@[k]),
    {
        proof {
            use_type_invariant(self);
        }
        let mut v: Vec<Expr> = Vec::new();
        let mut k: usize = 0;
        while k < self.dims.len()
            invariant
                k <= self.dims.len(),
                well_formed(self@),
                v.len() == k,
                forall|i: int| 0 <= i < k ==> #[trigger] v[i] == len_tree(self@[i]),
            decreases self.dims.len() - k,
        {
            let a = self.dims[k];
            assert(a.wf());
            v.push(len_expr(&a));
            k += 1;
        }
        v
    }

    fn index_part(&self, n: usize, q: Expr) -> (r: Expr)
        requires
            n <= self@.len(),
        ensures
            r == index_tree(self@.take(n as int), q),
        decreases n,
    {
        proof {
            use_type_invariant(self);
        }
        if n == 0 {
            Expr::Num(0)
        } else {
            let a = self.dims[n - 1];
            assert(a.wf());
            proof {
                assert(self@.take(n as int).drop_last() =~= self@.take(n as int - 1));
                assert(self@.take(n as int).last() == a);
            }
            let rest = self.index_part(n - 1, make(BinOp::Div, q.dup(), len_expr(&a)));
            make(BinOp::Add, rest, make(BinOp::Mul, source_expr(&a, q), Expr::Num(a.stride)))
        }
    }

    fn valid_part(&self, n: usize, q: Expr) -> (r: Expr)
        requires
            n <= self@.len(),
        ensures
            r == valid_tree(self@.take(n as int), q),
        decreases n,
    {
        proof {
            use_type_invariant(self);
        }
        if n == 0 {
            Expr::Num(1)
        } else {
            let a = self.dims[n - 1];
            assert(a.wf());
            proof {
                assert(self@.take(n as int).drop_last() =~= self@.take(n as int - 1));
                assert(self@.take(n as int).last() == a);
            }
            let rest = self.valid_part(n - 1, make(BinOp::Div, q.dup(), len_expr(&a)));
            make(BinOp::And, rest, inside_expr(&a, q))
        }
    }

    /// The function from a flat position to the offset into the buffer of
    /// the element shown there.
    pub fn index_expression(&self) -> (r: Expr)
        ensures
            r.has_symbol() == !concrete(self@),
            forall|pos: int|
                concrete(self@) && 0 <= pos < count(self@) ==> #[trigger] r.outcome(pos) == Ok::<
                    usize,
                    Fault,
                >(offset_at(self@, pos) as usize) && 0 <= offset_at(self@, pos) <= span(self@),
            span(self@) <= usize::MAX,
    {
        proof {
            use_type_invariant(self);
        }
        let r = self.index_part(self.dims.len(), Expr::Pos);
        proof {
            assert(self@.take(self@.len() as int) =~= self@);
            lemma_tree_symbols(self@, Expr::Pos);
            lemma_count_bounds(self@);
            assert forall|pos: int| concrete(self@) && 0 <= pos < count(self@) implies #[trigger] r.outcome(
                pos,
            ) == Ok::<usize, Fault>(offset_at(self@, pos) as usize) && 0 <= offset_at(self@, pos)
                <= span(self@) by {
                lemma_trees(self@, Expr::Pos, pos, pos);
            }
        }
        r
    }

    /// The function from a flat position to one where the position shows a
    /// stored element, and to zero where it lies in padding.
    pub fn valid_expression(&self) -> (r: Expr)
        ensures
            r.has_symbol() == !concrete(self@),
            forall|pos: int|
                concrete(self@) && 0 <= pos < count(self@) ==> #[trigger] r.outcome(pos) == Ok::<
                    usize,
                    Fault,
                >(
                    if valid_at(self@, pos) {
                        1usize
                    } else {
                        0usize
                    },
                ),
    {
        proof {
            use_type_invariant(self);
        }
        let r = self.valid_part(self.dims.len(), Expr::Pos);
        proof {
            assert(self@.take(self@.len() as int) =~= self@);
            lemma_tree_symbols(self@, Expr::Pos);
            lemma_count_bounds(self@);
            assert forall|pos: int| concrete(self@) && 0 <= pos < count(self@) implies #[trigger] r.outcome(
                pos,
            ) == Ok::<usize, Fault>(
                if valid_at(self@, pos) {
                    1usize
                } else {
                    0usize
                },
            ) by {
                lemma_trees(self@, Expr::Pos, pos, pos);
            }
        }
        r
    }
}

} // verus!
