use vstd::prelude::*;
use crate::axis::{
    Axis, Extent, concrete, count, is_contiguous, lemma_contiguous_offset_is_position, offset_at,
    well_formed,
};
use crate::view::{ShapeView, layout, lemma_layout, strides_fit};

verus! {

impl Axis {
    /// Where a slice from `start` to `end` of the visible positions begins,
    /// cut to the visible positions.
    pub open spec fn cut_start(self, start: usize) -> int {
        if start < self.len() {
            start as int
        } else {
            self.len()
        }
    }

    /// Where that slice ends: not before it begins, and not behind the
    /// visible positions.
    pub open spec fn cut_end(self, start: usize, end: usize) -> int {
        if end < self.cut_start(start) {
            self.cut_start(start)
        } else if end < self.len() {
            end as int
        } else {
            self.len()
        }
    }

    /// Whether the axis can be sliced so: an axis of run-time size can only
    /// be left whole.
    pub open spec fn can_slice(self, start: usize, end: usize) -> bool {
        self.size is Fixed || (start == 0 && end == usize::MAX)
    }

    /// The axis of which only the visible positions from `start` to `end`
    /// stay visible.
    pub open spec fn sliced(self, start: usize, end: usize) -> Axis {
        if self.size is Fixed {
            Axis {
                slice_start: (self.slice_start + self.cut_start(start)) as usize,
                slice_end: (self.slice_start + self.cut_end(start, end)) as usize,
                ..self
            }
        } else {
            self
        }
    }

    /// Whether the axis can be padded so. Padding in front can be added as
    /// long as the slice has cut into no stored element in front, padding
    /// behind as long as it has cut into none behind; an axis of run-time
    /// size cannot be padded; and the padded lengths have to fit a machine
    /// word.
    pub open spec fn can_pad(self, before: usize, after: usize) -> bool {
        &&& self.size is Symbol ==> before == 0 && after == 0
        &&& before == 0 || self.slice_start <= self.pad_before
        &&& after == 0 || self.stop() >= self.pad_before + self.data()
        &&& self.pad_before + before <= usize::MAX
        &&& self.pad_after + after <= usize::MAX
        &&& self.slice_end < self.padded() ==> self.slice_end + before + after <= usize::MAX
    }

    /// The axis with `before` more positions of padding in front of the
    /// visible positions and `after` more behind them.
    pub open spec fn padded_by(self, before: usize, after: usize) -> Axis {
        if self.size is Fixed {
            Axis {
                pad_before: (self.pad_before + before) as usize,
                pad_after: (self.pad_after + after) as usize,
                slice_end: if self.slice_end < self.padded() {
                    (self.slice_end + before + after) as usize
                } else {
                    usize::MAX
                },
                ..self
            }
        } else {
            self
        }
    }

    /// Position `j` of a slice shows what position `j` plus the start of
    /// the slice showed.
    pub proof fn lemma_slice_reads(self, start: usize, end: usize, j: int)
        requires
            self.wf(),
            self.size is Fixed,
            0 <= j < self.sliced(start, end).len(),
        ensures
            self.sliced(start, end).wf(),
            self.sliced(start, end).len() == self.cut_end(start, end) - self.cut_start(start),
            self.sliced(start, end).in_data(j) == self.in_data(j + self.cut_start(start)),
            self.sliced(start, end).source(j) == self.source(j + self.cut_start(start)),
    {
    }

    /// The padded axis is longer by the padding; its new positions show no
    /// stored element, and each other position shows what it showed.
    pub proof fn lemma_pad_reads(self, before: usize, after: usize, j: int)
        requires
            self.wf(),
            self.size is Fixed,
            self.can_pad(before, after),
            self.padded_by(before, after).padded() <= usize::MAX,
            0 <= j < self.len() + before + after,
        ensures
            self.padded_by(before, after).wf(),
            self.padded_by(before, after).len() == self.len() + before + after,
            self.padded_by(before, after).in_data(j) == (before <= j < before + self.len()
                && self.in_data(j - before)),
            before <= j < before + self.len() ==> self.padded_by(before, after).source(j)
                == self.source(j - before),
    {
    }

    fn slice(&self, start: usize, end: usize) -> (r: Option<Axis>)
        requires
            self.wf(),
        ensures
            r == (if self.can_slice(start, end) {
                Some(self.sliced(start, end))
            } else {
                None
            }),
    {
        match self.size {
            Extent::Symbol(_) => {
                if start == 0 && end == usize::MAX {
                    Some(*self)
                } else {
                    None
                }
            },
            Extent::Fixed(_) => {
                let l = self.length();
                let s = if start < l { start } else { l };
                let e = if end < s { s } else if end < l { end } else { l };
                Some(
                    Axis {
                        size: self.size,
                        stride: self.stride,
                        pad_before: self.pad_before,
                        pad_after: self.pad_after,
                        slice_start: self.slice_start + s,
                        slice_end: self.slice_start + e,
                    },
                )
            },
        }
    }

    fn pad(&self, before: usize, after: usize) -> (r: Option<Axis>)
        requires
            self.wf(),
        ensures
            r == (if self.can_pad(before, after) {
                Some(self.padded_by(before, after))
            } else {
                None
            }),
    {
        match self.size {
            Extent::Symbol(_) => {
                if before == 0 && after == 0 {
                    Some(*self)
                } else {
                    None
                }
            },
            Extent::Fixed(n) => {
                let padded = self.pad_before + n + self.pad_after;
                let stop = if self.slice_end < padded { self.slice_end } else { padded };
                if before != 0 && self.slice_start > self.pad_before {
                    return None;
                }
                if after != 0 && stop < self.pad_before + n {
                    return None;
                }
                let front = match self.pad_before.checked_add(before) {
                    None => {
                        return None;
                    },
                    Some(x) => x,
                };
                let back = match self.pad_after.checked_add(after) {
                    None => {
                        return None;
                    },
                    Some(x) => x,
                };
                let slice_end = if self.slice_end < padded {
                    match self.slice_end.checked_add(before) {
                        None => {
                            return None;
                        },
                        Some(x) => match x.checked_add(after) {
                            None => {
                                return None;
                            },
                            Some(y) => y,
                        },
                    }
                } else {
                    usize::MAX
                };
                Some(
                    Axis {
                        size: self.size,
                        stride: self.stride,
                        pad_before: front,
                        pad_after: back,
                        slice_start: self.slice_start,
                        slice_end,
                    },
                )
            },
        }
    }
}

/// Whether `order` names each of `n` axes once.
pub open spec fn is_permutation(order: Seq<usize>, n: int) -> bool {
    &&& order.len() == n
    &&& forall|k: int| 0 <= k < order.len() ==> (#[trigger] order[k]) < n
    &&& forall|i: int, j: int| 0 <= i < j < order.len() ==> order[i] != order[j]
}

/// The axes in the order that `order` gives.
pub open spec fn permuted(dims: Seq<Axis>, order: Seq<usize>) -> Seq<Axis> {
    Seq::new(order.len(), |k: int| dims[order[k] as int])
}

/// Each axis sliced by its range.
pub open spec fn sliced(dims: Seq<Axis>, ranges: Seq<(usize, usize)>) -> Seq<Axis> {
    Seq::new(dims.len(), |k: int| dims[k].sliced(ranges[k].0, ranges[k].1))
}

/// Whether each axis can be sliced by its range.
pub open spec fn can_slice(dims: Seq<Axis>, ranges: Seq<(usize, usize)>) -> bool {
    &&& ranges.len() == dims.len()
    &&& forall|k: int| 0 <= k < dims.len() ==> (#[trigger] dims[k]).can_slice(ranges[k].0, ranges[k].1)
}

/// Each axis padded by its padding.
pub open spec fn padded(dims: Seq<Axis>, pads: Seq<(usize, usize)>) -> Seq<Axis> {
    Seq::new(dims.len(), |k: int| dims[k].padded_by(pads[k].0, pads[k].1))
}

/// Whether each axis can be padded by its padding.
pub open spec fn can_pad(dims: Seq<Axis>, pads: Seq<(usize, usize)>) -> bool {
    &&& pads.len() == dims.len()
    &&& forall|k: int| 0 <= k < dims.len() ==> (#[trigger] dims[k]).can_pad(pads[k].0, pads[k].1)
}

/// The axes with each run-time size `name` made the fixed size `value`.
pub open spec fn resolved(dims: Seq<Axis>, name: char, value: usize) -> Seq<Axis> {
    Seq::new(
        dims.len(),
        |k: int|
            if dims[k].size == Extent::Symbol(name) {
                Axis { size: Extent::Fixed(value), ..dims[k] }
            } else {
                dims[k]
            },
    )
}

/// The axis that repeats what lies under it `size` times.
pub open spec fn repeated(size: usize) -> Axis {
    Axis {
        size: Extent::Fixed(size),
        stride: 0,
        pad_before: 0,
        pad_after: 0,
        slice_start: 0,
        slice_end: usize::MAX,
    }
}

/// A view that was reshaped shows at every position the element that the
/// view it was made from shows there.
pub proof fn lemma_reshape_reads(before: Seq<Axis>, after: Seq<Axis>, pos: int)
    requires
        well_formed(before),
        well_formed(after),
        is_contiguous(before),
        is_contiguous(after),
        count(before) == count(after),
        0 <= pos < count(before),
    ensures
        offset_at(after, pos) == offset_at(before, pos),
{
    lemma_contiguous_offset_is_position(before, pos);
    lemma_contiguous_offset_is_position(after, pos);
}

impl ShapeView {
    /// The view with one more axis, put in as axis `at`, along which what
    /// the view shows is repeated `size` times. `None` where `at` is
    /// larger than the number of axes, or the new view has more positions
    /// than fit a machine word.
    pub fn broadcast(&self, at: usize, size: usize) -> (r: Option<ShapeView>)
        ensures
            match r {
                Some(v) => at <= self@.len() && v@ == self@.insert(at as int, repeated(size)),
                None => at > self@.len() || !well_formed(
                    self@.insert(at as int, repeated(size)),
                ),
            },
    {
        let n = self.rank();
        if at > n {
            return None;
        }
        let mut axes: Vec<Axis> = Vec::new();
        let mut k: usize = 0;
        while k < at
            invariant
                k <= at <= n,
                n == self@.len(),
                axes@ == self@.take(k as int),
            decreases at - k,
        {
            axes.push(self.axis(k).unwrap());
            proof {
                assert(self@.take(k as int + 1) =~= self@.take(k as int).push(self@[k as int]));
            }
            k += 1;
        }
        axes.push(Axis::plain(size, 0));
        while k < n
            invariant
                at <= k <= n,
                n == self@.len(),
                axes@ == self@.insert(at as int, repeated(size)).take(k as int + 1),
            decreases n - k,
        {
            axes.push(self.axis(k).unwrap());
            proof {
                let full = self@.insert(at as int, repeated(size));
                assert(full.take(k as int + 2) =~= full.take(k as int + 1).push(self@[k as int]));
            }
            k += 1;
        }
        proof {
            let full = self@.insert(at as int, repeated(size));
            assert(full.take(n as int + 1) =~= full);
        }
        ShapeView::from_axes(axes)
    }

    /// The view of which, on each axis, only the visible positions from the
    /// first number of the axis's range up to the second stay visible. Both
    /// numbers are cut to the axis. `None` where the ranges are not one for
    /// each axis, or an axis of run-time size is to be cut.
    pub fn slice(&self, ranges: &Vec<(usize, usize)>) -> (r: Option<ShapeView>)
        ensures
            match r {
                Some(v) => can_slice(self@, ranges@) && v@ == sliced(self@, ranges@),
                None => !can_slice(self@, ranges@) || !well_formed(sliced(self@, ranges@)),
            },
    {
        proof {
            use_type_invariant(self);
        }
        let n = self.rank();
        if ranges.len() != n {
            return None;
        }
        let mut axes: Vec<Axis> = Vec::new();
        let mut k: usize = 0;
        while k < n
            invariant
                k <= n,
                n == self@.len(),
                n == ranges@.len(),
                well_formed(self@),
                axes@ == sliced(self@, ranges@).take(k as int),
                forall|i: int|
                    0 <= i < k ==> (#[trigger] self@[i]).can_slice(ranges@[i].0, ranges@[i].1),
            decreases n - k,
        {
            let a = self.axis(k).unwrap();
            assert(a.wf());
            match a.slice(ranges[k].0, ranges[k].1) {
                None => {
                    return None;
                },
                Some(x) => {
                    axes.push(x);
                },
            }
            proof {
                let full = sliced(self@, ranges@);
                assert(full.take(k as int + 1) =~= full.take(k as int).push(full[k as int]));
            }
            k += 1;
        }
        proof {
            let full = sliced(self@, ranges@);
            assert(full.take(n as int) =~= full);
        }
        ShapeView::from_axes(axes)
    }

    /// The view with, on each axis, as many more positions of padding in
    /// front as the first number of the axis's padding says, and as many
    /// more behind as the second. `None` where the paddings are not one for
    /// each axis, an axis cannot be padded so, or the new view does not fit
    /// a machine word.
    pub fn pad(&self, pads: &Vec<(usize, usize)>) -> (r: Option<ShapeView>)
        ensures
            match r {
                Some(v) => can_pad(self@, pads@) && v@ == padded(self@, pads@),
                None => !can_pad(self@, pads@) || !well_formed(padded(self@, pads@)),
            },
    {
        proof {
            use_type_invariant(self);
        }
        let n = self.rank();
        if pads.len() != n {
            return None;
        }
        let mut axes: Vec<Axis> = Vec::new();
        let mut k: usize = 0;
        while k < n
            invariant
                k <= n,
                n == self@.len(),
                n == pads@.len(),
                well_formed(self@),
                axes@ == padded(self@, pads@).take(k as int),
                forall|i: int| 0 <= i < k ==> (#[trigger] self@[i]).can_pad(pads@[i].0, pads@[i].1),
            decreases n - k,
        {
            let a = self.axis(k).unwrap();
            assert(a.wf());
            match a.pad(pads[k].0, pads[k].1) {
                None => {
                    return None;
                },
                Some(x) => {
                    axes.push(x);
                },
            }
            proof {
                let full = padded(self@, pads@);
                assert(full.take(k as int + 1) =~= full.take(k as int).push(full[k as int]));
            }
            k += 1;
        }
        proof {
            let full = padded(self@, pads@);
            assert(full.take(n as int) =~= full);
        }
        ShapeView::from_axes(axes)
    }

    /// The view whose axis `k` is axis `order[k]` of this one. `None`
    /// where `order` does not name each axis once.
    pub fn permute(&self, order: &Vec<usize>) -> (r: Option<ShapeView>)
        ensures
            match r {
                Some(v) => is_permutation(order@, self@.len() as int) && v@ == permuted(
                    self@,
                    order@,
                ),
                None => !is_permutation(order@, self@.len() as int) || !well_formed(
                    permuted(self@, order@),
                ),
            },
    {
        let n = self.rank();
        if order.len() != n {
            return None;
        }
        let mut axes: Vec<Axis> = Vec::new();
        let mut k: usize = 0;
        while k < n
            invariant
                k <= n,
                n == self@.len(),
                n == order@.len(),
                axes@ == permuted(self@, order@).take(k as int),
                forall|i: int| 0 <= i < k ==> (#[trigger] order@[i]) < n,
                forall|i: int, j: int| 0 <= i < j < k ==> order@[i] != order@[j],
            decreases n - k,
        {
            let from = order[k];
            if from >= n {
                return None;
            }
            let mut j: usize = 0;
            while j < k
                invariant
                    j <= k < n,
                    n == order@.len(),
                    from == order@[k as int],
                    forall|i: int| 0 <= i < j ==> order@[i] != from,
                decreases k - j,
            {
                if order[j] == from {
                    return None;
                }
                j += 1;
            }
            axes.push(self.axis(from).unwrap());
            proof {
                let full = permuted(self@, order@);
                assert(full.take(k as int + 1) =~= full.take(k as int).push(full[k as int]));
            }
            k += 1;
        }
        proof {
            let full = permuted(self@, order@);
            assert(full.take(n as int) =~= full);
        }
        ShapeView::from_axes(axes)
    }

    /// The contiguous view with the given sizes of the buffer that this
    /// view shows. `None` unless this view is contiguous, has no axis of
    /// run-time size, and has as many positions as the new sizes give.
    pub fn reshape(&self, sizes: &Vec<usize>) -> (r: Option<ShapeView>)
        ensures
            match r {
                Some(v) => {
                    &&& is_contiguous(self@)
                    &&& concrete(self@)
                    &&& v@ == layout(sizes@, 1)
                    &&& is_contiguous(v@)
                    &&& count(v@) == count(self@)
                },
                None => !is_contiguous(self@) || !concrete(self@) || !strides_fit(sizes@, 1)
                    || !well_formed(layout(sizes@, 1)) || count(layout(sizes@, 1)) != count(
                    self@,
                ),
            },
    {
        if !self.is_contiguous() || !self.is_concrete() {
            return None;
        }
        let v = match ShapeView::contiguous(sizes) {
            None => {
                return None;
            },
            Some(v) => v,
        };
        proof {
            lemma_layout(sizes@, 1);
            assert(concrete(v@));
        }
        let here = self.element_count().to_usize();
        let there = v.element_count().to_usize();
        if here == there {
            Some(v)
        } else {
            None
        }
    }

    /// The view in which each axis of run-time size `name` has the fixed
    /// size `value`. `None` where the view then does not fit a machine
    /// word.
    pub fn resolve(&self, name: char, value: usize) -> (r: Option<ShapeView>)
        ensures
            match r {
                Some(v) => v@ == resolved(self@, name, value),
                None => !well_formed(resolved(self@, name, value)),
            },
    {
        let n = self.rank();
        let mut axes: Vec<Axis> = Vec::new();
        let mut k: usize = 0;
        while k < n
            invariant
                k <= n,
                n == self@.len(),
                axes@ == resolved(self@, name, value).take(k as int),
            decreases n - k,
        {
            let a = self.axis(k).unwrap();
            let x = match a.size {
                Extent::Symbol(c) => {
                    if c == name {
                        Axis {
                            size: Extent::Fixed(value),
                            stride: a.stride,
                            pad_before: a.pad_before,
                            pad_after: a.pad_after,
                            slice_start: a.slice_start,
                            slice_end: a.slice_end,
                        }
                    } else {
                        a
                    }
                },
                Extent::Fixed(_) => a,
            };
            axes.push(x);
            proof {
                let full = resolved(self@, name, value);
                assert(full.take(k as int + 1) =~= full.take(k as int).push(full[k as int]));
            }
            k += 1;
        }
        proof {
            let full = resolved(self@, name, value);
            assert(full.take(n as int) =~= full);
        }
        ShapeView::from_axes(axes)
    }
}

} // verus!
