use vstd::prelude::*;
use vstd::arithmetic::div_mod::{lemma_fundamental_div_mod, lemma_div_pos_is_pos, lemma_mod_bound};

verus! {

/// The number of elements stored along one axis: a number, or the name of a
/// dimension that is only known at run time.
#[derive(Clone, Copy, Debug, PartialEq, Eq, Hash, Structural)]
pub enum Extent {
    Fixed(usize),
    Symbol(char),
}

/// How one axis of a buffer is seen. The stored elements are `stride` apart.
/// The axis is first padded with `pad_before` and `pad_after` positions that
/// hold no data; of the padded axis the positions from `slice_start` up to
/// `slice_end` (or its end, if that comes first) are visible.
#[derive(Clone, Copy, Debug, PartialEq, Eq, Hash, Structural)]
pub struct Axis {
    pub size: Extent,
    pub stride: usize,
    pub pad_before: usize,
    pub pad_after: usize,
    pub slice_start: usize,
    pub slice_end: usize,
}

impl Axis {
    /// The number of stored elements along the axis; a run-time dimension
    /// counts as one.
    pub open spec fn data(self) -> int {
        match self.size {
            Extent::Fixed(n) => n as int,
            Extent::Symbol(_) => 1,
        }
    }

    /// The length of the axis with its padding.
    pub open spec fn padded(self) -> int {
        self.pad_before + self.data() + self.pad_after
    }

    /// The position of the padded axis at which the visible part ends.
    pub open spec fn stop(self) -> int {
        if self.slice_end < self.padded() {
            self.slice_end as int
        } else {
            self.padded()
        }
    }

    /// The number of visible positions.
    pub open spec fn len(self) -> int {
        self.stop() - self.slice_start
    }

    /// The largest index among the stored elements (zero where there is none).
    pub open spec fn top(self) -> int {
        if self.data() > 0 {
            self.data() - 1
        } else {
            0
        }
    }

    /// Whether visible position `j` shows a stored element.
    pub open spec fn in_data(self, j: int) -> bool {
        self.pad_before <= self.slice_start + j < self.pad_before + self.data()
    }

    /// The index of the stored element that visible position `j` shows, cut
    /// to the stored range where `j` lies in the padding.
    pub open spec fn source(self, j: int) -> int {
        let s = self.slice_start + j - self.pad_before;
        if s < 0 {
            0
        } else if s > self.top() {
            self.top()
        } else {
            s
        }
    }

    pub open spec fn is_padded(self) -> bool {
        self.pad_before > 0 || self.pad_after > 0
    }

    pub open spec fn is_sliced(self) -> bool {
        self.slice_start > 0 || self.slice_end < self.padded()
    }

    /// The padded axis fits a machine word, the visible part does not start
    /// behind its end, and an axis of run-time size is neither padded nor
    /// sliced.
    pub open spec fn wf(self) -> bool {
        &&& self.padded() <= usize::MAX
        &&& self.slice_start <= self.stop()
        &&& (self.size is Symbol ==> self.pad_before == 0 && self.pad_after == 0
            && self.slice_start == 0 && self.slice_end == usize::MAX)
    }

    /// An axis of `size` stored elements, neither padded nor sliced.
    pub fn plain(size: usize, stride: usize) -> (r: Axis)
        ensures
            r == (Axis {
                size: Extent::Fixed(size),
                stride,
                pad_before: 0,
                pad_after: 0,
                slice_start: 0,
                slice_end: usize::MAX,
            }),
            r.wf(),
    {
        Axis {
            size: Extent::Fixed(size),
            stride,
            pad_before: 0,
            pad_after: 0,
            slice_start: 0,
            slice_end: usize::MAX,
        }
    }

    /// An axis whose size is the run-time dimension `name`.
    pub fn symbolic(name: char, stride: usize) -> (r: Axis)
        ensures
            r == (Axis {
                size: Extent::Symbol(name),
                stride,
                pad_before: 0,
                pad_after: 0,
                slice_start: 0,
                slice_end: usize::MAX,
            }),
            r.wf(),
    {
        Axis {
            size: Extent::Symbol(name),
            stride,
            pad_before: 0,
            pad_after: 0,
            slice_start: 0,
            slice_end: usize::MAX,
        }
    }

    /// Whether the descriptor is well formed.
    pub fn check(&self) -> (r: bool)
        ensures
            r == self.wf(),
    {
        match self.size {
            Extent::Symbol(_) => self.pad_before == 0 && self.pad_after == 0 && self.slice_start
                == 0 && self.slice_end == usize::MAX,
            Extent::Fixed(n) => {
                match self.pad_before.checked_add(n) {
                    None => false,
                    Some(front) => match front.checked_add(self.pad_after) {
                        None => false,
                        Some(padded) => {
                            let stop = if self.slice_end < padded {
                                self.slice_end
                            } else {
                                padded
                            };
                            self.slice_start <= stop
                        },
                    },
                }
            },
        }
    }

    /// The number of visible positions.
    pub fn length(&self) -> (r: usize)
        requires
            self.wf(),
        ensures
            r == self.len(),
    {
        match self.size {
            Extent::Symbol(_) => 1,
            Extent::Fixed(n) => {
                let padded = self.pad_before + n + self.pad_after;
                let stop = if self.slice_end < padded {
                    self.slice_end
                } else {
                    padded
                };
                stop - self.slice_start
            },
        }
    }

    /// The largest index among the stored elements (zero where there is none).
    pub fn highest(&self) -> (r: usize)
        ensures
            r == self.top(),
    {
        match self.size {
            Extent::Symbol(_) => 0,
            Extent::Fixed(n) => if n > 0 { n - 1 } else { 0 },
        }
    }
}

/// Whether no axis has a run-time size.
pub open spec fn concrete(dims: Seq<Axis>) -> bool {
    forall|k: int| 0 <= k < dims.len() ==> (#[trigger] dims[k]).size is Fixed
}

/// The number of visible positions of the whole view.
pub open spec fn count(dims: Seq<Axis>) -> int
    decreases dims.len(),
{
    if dims.len() == 0 {
        1
    } else {
        count(dims.drop_last()) * dims.last().len()
    }
}

/// The product of the axes' lengths, an empty axis counted as one.
pub open spec fn bulk(dims: Seq<Axis>) -> int
    decreases dims.len(),
{
    if dims.len() == 0 {
        1
    } else {
        bulk(dims.drop_last()) * (if dims.last().len() > 0 {
            dims.last().len()
        } else {
            1
        })
    }
}

/// The largest offset that the view can address.
pub open spec fn span(dims: Seq<Axis>) -> int
    decreases dims.len(),
{
    if dims.len() == 0 {
        0
    } else {
        span(dims.drop_last()) + dims.last().top() * dims.last().stride
    }
}

/// The coordinates of flat position `pos`, the last axis running fastest.
pub open spec fn coords(dims: Seq<Axis>, pos: int) -> Seq<int>
    decreases dims.len(),
{
    if dims.len() == 0 {
        Seq::empty()
    } else {
        coords(dims.drop_last(), pos / dims.last().len()).push(pos % dims.last().len())
    }
}

/// Whether flat position `pos` shows a stored element: on every axis its
/// coordinate lies in the data, not in padding.
pub open spec fn valid_at(dims: Seq<Axis>, pos: int) -> bool {
    forall|k: int| 0 <= k < dims.len() ==> (#[trigger] dims[k]).in_data(coords(dims, pos)[k])
}

/// The offset into the buffer of the element at coordinates `c`.
pub open spec fn offset_of(dims: Seq<Axis>, c: Seq<int>) -> int
    decreases dims.len(),
{
    if dims.len() == 0 {
        0
    } else {
        offset_of(dims.drop_last(), c.drop_last()) + dims.last().source(c.last())
            * dims.last().stride
    }
}

/// The offset into the buffer of the element that flat position `pos` shows.
pub open spec fn offset_at(dims: Seq<Axis>, pos: int) -> int {
    offset_of(dims, coords(dims, pos))
}

/// The sum over the axes of coordinate times stride.
pub open spec fn strided(dims: Seq<Axis>, c: Seq<int>) -> int
    decreases dims.len(),
{
    if dims.len() == 0 {
        0
    } else {
        strided(dims.drop_last(), c.drop_last()) + c.last() * dims.last().stride
    }
}

pub open spec fn is_padded(dims: Seq<Axis>) -> bool {
    exists|k: int| 0 <= k < dims.len() && (#[trigger] dims[k]).is_padded()
}

pub open spec fn is_sliced(dims: Seq<Axis>) -> bool {
    exists|k: int| 0 <= k < dims.len() && (#[trigger] dims[k]).is_sliced()
}

/// Whether the strides are those of a row-major layout whose last axis has
/// stride `unit`. A run-time size is accepted on the first axis only.
pub open spec fn row_major(dims: Seq<Axis>, unit: int) -> bool
    decreases dims.len(),
{
    if dims.len() == 0 {
        true
    } else {
        &&& dims.last().stride == unit
        &&& (dims.last().size is Symbol ==> dims.len() == 1)
        &&& row_major(dims.drop_last(), unit * dims.last().data())
    }
}

/// Strides match the row-major layout, and nothing is padded or sliced.
pub open spec fn is_contiguous(dims: Seq<Axis>) -> bool {
    !is_padded(dims) && !is_sliced(dims) && row_major(dims, 1)
}

/// Every axis is well formed, and the number of positions and the largest
/// offset fit a machine word.
pub open spec fn well_formed(dims: Seq<Axis>) -> bool {
    &&& forall|k: int| 0 <= k < dims.len() ==> (#[trigger] dims[k]).wf()
    &&& bulk(dims) <= usize::MAX
    &&& span(dims) <= usize::MAX
}

pub proof fn lemma_count_bounds(dims: Seq<Axis>)
    requires
        forall|k: int| 0 <= k < dims.len() ==> (#[trigger] dims[k]).wf(),
    ensures
        0 <= count(dims) <= bulk(dims),
        1 <= bulk(dims),
        0 <= span(dims),
    decreases dims.len(),
{
    if dims.len() > 0 {
        let front = dims.drop_last();
        let last = dims.last();
        assert forall|k: int| 0 <= k < front.len() implies (#[trigger] front[k]).wf() by {
            assert(front[k] == dims[k]);
        }
        lemma_count_bounds(front);
        let l = last.len();
        let m = if l > 0 { l } else { 1 };
        assert(0 <= count(front) * l <= bulk(front) * m && 1 <= bulk(front) * m) by (nonlinear_arith)
            requires
                0 <= count(front) <= bulk(front),
                1 <= bulk(front),
                0 <= l <= m,
                1 <= m,
        ;
        assert(0 <= last.top() * last.stride) by (nonlinear_arith)
            requires
                0 <= last.top(),
                0 <= last.stride,
        ;
    }
}

/// The bounds of a well-formed view hold of each of its leading parts.
pub proof fn lemma_prefix_bounds(dims: Seq<Axis>, k: int)
    requires
        forall|i: int| 0 <= i < dims.len() ==> (#[trigger] dims[i]).wf(),
        0 <= k <= dims.len(),
    ensures
        1 <= bulk(dims.take(k)) <= bulk(dims),
        0 <= span(dims.take(k)) <= span(dims),
    decreases dims.len() - k,
{
    let pre = dims.take(k);
    assert forall|i: int| 0 <= i < pre.len() implies (#[trigger] pre[i]).wf() by {
        assert(pre[i] == dims[i]);
    }
    lemma_count_bounds(pre);
    if k == dims.len() {
        assert(pre =~= dims);
    } else {
        lemma_prefix_bounds(dims, k + 1);
        let next = dims.take(k + 1);
        assert(next.drop_last() =~= pre);
        assert(next.last() == dims[k]);
        let l = dims[k].len();
        let m = if l > 0 { l } else { 1 };
        assert(bulk(pre) <= bulk(pre) * m) by (nonlinear_arith)
            requires
                1 <= bulk(pre),
                1 <= m,
        ;
        assert(0 <= dims[k].top() * dims[k].stride) by (nonlinear_arith)
            requires
                0 <= dims[k].top(),
                0 <= dims[k].stride,
        ;
    }
}

pub proof fn lemma_coords_len(dims: Seq<Axis>, pos: int)
    ensures
        coords(dims, pos).len() == dims.len(),
    decreases dims.len(),
{
    if dims.len() > 0 {
        lemma_coords_len(dims.drop_last(), pos / dims.last().len());
    }
}

/// In range, every coordinate lies on its axis, and the quotient by the last
/// axis is in range for the axes before it.
pub proof fn lemma_coords_in_range(dims: Seq<Axis>, pos: int)
    requires
        forall|k: int| 0 <= k < dims.len() ==> (#[trigger] dims[k]).wf(),
        0 <= pos < count(dims),
    ensures
        coords(dims, pos).len() == dims.len(),
        forall|k: int|
            0 <= k < dims.len() ==> 0 <= #[trigger] coords(dims, pos)[k] < dims[k].len(),
        dims.len() > 0 ==> dims.last().len() > 0 && 0 <= pos / dims.last().len() < count(
            dims.drop_last(),
        ),
    decreases dims.len(),
{
    lemma_coords_len(dims, pos);
    if dims.len() > 0 {
        let front = dims.drop_last();
        let l = dims.last().len();
        assert forall|k: int| 0 <= k < front.len() implies (#[trigger] front[k]).wf() by {
            assert(front[k] == dims[k]);
        }
        lemma_count_bounds(front);
        assert(l > 0 && count(front) > 0) by (nonlinear_arith)
            requires
                0 <= pos < count(front) * l,
                0 <= l,
                0 <= count(front),
        ;
        lemma_fundamental_div_mod(pos, l);
        lemma_mod_bound(pos, l);
        lemma_div_pos_is_pos(pos, l);
        assert(pos / l < count(front)) by (nonlinear_arith)
            requires
                pos == l * (pos / l) + pos % l,
                0 <= pos % l,
                pos < count(front) * l,
                l > 0,
        ;
        lemma_coords_in_range(front, pos / l);
        lemma_coords_len(front, pos / l);
        assert forall|k: int| 0 <= k < dims.len() implies 0 <= #[trigger] coords(dims, pos)[k]
            < dims[k].len() by {
            if k < front.len() {
                assert(coords(dims, pos)[k] == coords(front, pos / l)[k]);
                assert(front[k] == dims[k]);
            }
        }
    }
}

/// A position is valid when the quotient is valid for the leading axes and
/// the remainder lies in the data of the last axis.
pub proof fn lemma_valid_step(dims: Seq<Axis>, pos: int)
    requires
        dims.len() > 0,
    ensures
        valid_at(dims, pos) == (valid_at(dims.drop_last(), pos / dims.last().len())
            && dims.last().in_data(pos % dims.last().len())),
{
    let front = dims.drop_last();
    let l = dims.last().len();
    let c = coords(dims, pos);
    let cf = coords(front, pos / l);
    lemma_coords_len(dims, pos);
    lemma_coords_len(front, pos / l);
    assert(c.last() == pos % l);
    if valid_at(dims, pos) {
        assert forall|k: int| 0 <= k < front.len() implies (#[trigger] front[k]).in_data(
            cf[k],
        ) by {
            assert(front[k] == dims[k]);
            assert(dims[k].in_data(c[k]));
            assert(c[k] == cf[k]);
        }
        assert(dims[dims.len() - 1].in_data(c[dims.len() - 1]));
    }
    if valid_at(front, pos / l) && dims.last().in_data(pos % l) {
        assert forall|k: int| 0 <= k < dims.len() implies (#[trigger] dims[k]).in_data(c[k]) by {
            if k < front.len() {
                assert(front[k] == dims[k]);
                assert(front[k].in_data(cf[k]));
                assert(c[k] == cf[k]);
            }
        }
    }
}

/// The offset of a position is that of the quotient on the leading axes plus
/// what the remainder gives on the last one.
pub proof fn lemma_offset_step(dims: Seq<Axis>, pos: int)
    requires
        dims.len() > 0,
    ensures
        offset_at(dims, pos) == offset_at(dims.drop_last(), pos / dims.last().len())
            + dims.last().source(pos % dims.last().len()) * dims.last().stride,
{
    let front = dims.drop_last();
    let l = dims.last().len();
    assert(coords(dims, pos).drop_last() =~= coords(front, pos / l));
}

/// Where nothing is padded or sliced, every position in range shows a
/// stored element.
pub proof fn lemma_plain_positions_are_valid(dims: Seq<Axis>, pos: int)
    requires
        well_formed(dims),
        !is_padded(dims),
        !is_sliced(dims),
        0 <= pos < count(dims),
    ensures
        valid_at(dims, pos),
{
    lemma_coords_in_range(dims, pos);
    assert forall|k: int| 0 <= k < dims.len() implies (#[trigger] dims[k]).in_data(
        coords(dims, pos)[k],
    ) by {
        assert(!dims[k].is_padded());
        assert(!dims[k].is_sliced());
        assert(0 <= coords(dims, pos)[k] < dims[k].len());
    }
}

/// Where nothing is padded or sliced, the offset of a position in range is
/// the sum over the axes of its coordinate times the stride.
pub proof fn lemma_plain_offset_is_strided(dims: Seq<Axis>, pos: int)
    requires
        well_formed(dims),
        !is_padded(dims),
        !is_sliced(dims),
        0 <= pos < count(dims),
    ensures
        offset_at(dims, pos) == strided(dims, coords(dims, pos)),
    decreases dims.len(),
{
    if dims.len() > 0 {
        let front = dims.drop_last();
        let last = dims.last();
        let l = last.len();
        lemma_coords_in_range(dims, pos);
        assert forall|k: int| 0 <= k < front.len() implies (#[trigger] front[k]).wf()
            && !front[k].is_padded() && !front[k].is_sliced() by {
            assert(front[k] == dims[k]);
            assert(!dims[k].is_padded());
            assert(!dims[k].is_sliced());
        }
        lemma_prefix_bounds(dims, dims.len() - 1);
        assert(dims.take(dims.len() - 1) =~= front);
        lemma_plain_offset_is_strided(front, pos / l);
        lemma_offset_step(dims, pos);
        assert(coords(dims, pos).drop_last() =~= coords(front, pos / l));
        assert(coords(dims, pos).last() == pos % l);
        assert(!dims[dims.len() - 1].is_padded());
        assert(!dims[dims.len() - 1].is_sliced());
        assert(0 <= coords(dims, pos)[dims.len() - 1] < dims[dims.len() - 1].len());
        assert(last.source(pos % l) == pos % l);
    }
}

proof fn lemma_row_major_offset(dims: Seq<Axis>, unit: int, pos: int)
    requires
        well_formed(dims),
        !is_padded(dims),
        !is_sliced(dims),
        row_major(dims, unit),
        0 <= pos < count(dims),
    ensures
        offset_at(dims, pos) == unit * pos,
    decreases dims.len(),
{
    if dims.len() > 0 {
        let front = dims.drop_last();
        let last = dims.last();
        let l = last.len();
        lemma_coords_in_range(dims, pos);
        assert forall|k: int| 0 <= k < front.len() implies (#[trigger] front[k]).wf()
            && !front[k].is_padded() && !front[k].is_sliced() by {
            assert(front[k] == dims[k]);
            assert(!dims[k].is_padded());
            assert(!dims[k].is_sliced());
        }
        lemma_prefix_bounds(dims, dims.len() - 1);
        assert(dims.take(dims.len() - 1) =~= front);
        assert(!dims[dims.len() - 1].is_padded());
        assert(!dims[dims.len() - 1].is_sliced());
        assert(l == last.data());
        lemma_row_major_offset(front, unit * l, pos / l);
        lemma_offset_step(dims, pos);
        assert(0 <= coords(dims, pos)[dims.len() - 1] < dims[dims.len() - 1].len());
        assert(coords(dims, pos).last() == pos % l);
        assert(last.source(pos % l) == pos % l);
        lemma_fundamental_div_mod(pos, l);
        assert(unit * l * (pos / l) + (pos % l) * unit == unit * pos) by (nonlinear_arith)
            requires
                pos == l * (pos / l) + pos % l,
        ;
    } else {
        assert(pos == 0);
    }
}

/// In a contiguous view the offset of a position in range is the position.
pub proof fn lemma_contiguous_offset_is_position(dims: Seq<Axis>, pos: int)
    requires
        well_formed(dims),
        is_contiguous(dims),
        0 <= pos < count(dims),
    ensures
        offset_at(dims, pos) == pos,
{
    lemma_row_major_offset(dims, 1, pos);
}

/// A position in range is invalid exactly when one of its coordinates lies
/// before the data of its axis or behind it.
pub proof fn lemma_invalid_iff_outside(dims: Seq<Axis>, pos: int)
    requires
        well_formed(dims),
        0 <= pos < count(dims),
    ensures
        !valid_at(dims, pos) <==> exists|k: int|
            0 <= k < dims.len() && (dims[k].slice_start + #[trigger] coords(dims, pos)[k]
                < dims[k].pad_before || dims[k].slice_start + coords(dims, pos)[k]
                >= dims[k].pad_before + dims[k].data()),
{
    let c = coords(dims, pos);
    if !valid_at(dims, pos) {
        let k = choose|k: int| 0 <= k < dims.len() && !(#[trigger] dims[k]).in_data(c[k]);
        assert(dims[k].slice_start + c[k] < dims[k].pad_before || dims[k].slice_start + c[k]
            >= dims[k].pad_before + dims[k].data());
    }
    if exists|k: int|
        0 <= k < dims.len() && (dims[k].slice_start + #[trigger] c[k] < dims[k].pad_before
            || dims[k].slice_start + c[k] >= dims[k].pad_before + dims[k].data()) {
        let k = choose|k: int|
            0 <= k < dims.len() && (dims[k].slice_start + #[trigger] c[k] < dims[k].pad_before
                || dims[k].slice_start + c[k] >= dims[k].pad_before + dims[k].data());
        assert(!dims[k].in_data(c[k]));
    }
}

} // verus!
