//! Per-row column band used by windowed DTW and FastDTW refinement.

use vstd::prelude::*;

verus! {

/// A dynamic band: for every row an optional closed interval of
/// admissible columns, plus a fixed width bound recorded at creation.
#[derive(Debug)]
pub struct DynamicWindow {
    pub min_values: Vec<Option<usize>>,
    pub max_values: Vec<Option<usize>>,
    pub width: usize,
}

impl DynamicWindow {
    /// Number of rows the band describes.
    pub open spec fn height(self) -> int {
        self.min_values@.len() as int
    }

    /// Both bound columns are tracked for every row.
    pub open spec fn wf(self) -> bool {
        self.min_values@.len() == self.max_values@.len()
    }

    pub open spec fn min_at(self, row: int) -> Option<usize> {
        self.min_values@[row]
    }

    pub open spec fn max_at(self, row: int) -> Option<usize> {
        self.max_values@[row]
    }

    pub open spec fn width_spec(self) -> int {
        self.width as int
    }

    /// The cell `(row, col)` lies inside the band.
    pub open spec fn in_range_spec(self, row: int, col: int) -> bool {
        &&& 0 <= row < self.height()
        &&& self.min_at(row) is Some
        &&& self.max_at(row) is Some
        &&& self.min_at(row).unwrap() <= col <= self.max_at(row).unwrap()
    }

    /// Every row has either both bounds or neither.
    pub open spec fn paired(self) -> bool {
        forall|r: int|
            #![trigger self.min_at(r)]
            #![trigger self.max_at(r)]
            0 <= r < self.height() ==> (self.min_at(r) is Some <==> self.max_at(r) is Some)
    }

    /// No row's interval is reversed.
    pub open spec fn rows_ordered(self) -> bool {
        forall|r: int|
            #![trigger self.min_at(r)]
            #![trigger self.max_at(r)]
            0 <= r < self.height() && self.min_at(r) is Some && self.max_at(r) is Some
                ==> self.min_at(r).unwrap() <= self.max_at(r).unwrap()
    }

    /// Every defined bound stays at or below `b`.
    pub open spec fn cols_bounded(self, b: int) -> bool {
        &&& forall|r: int|
            0 <= r < self.height() && (#[trigger] self.min_at(r)) is Some ==> self.min_at(
                r,
            ).unwrap() <= b
        &&& forall|r: int|
            0 <= r < self.height() && (#[trigger] self.max_at(r)) is Some ==> self.max_at(
                r,
            ).unwrap() <= b
    }

    pub fn new(height: usize, width: usize) -> (r: Self)
        ensures
            r.wf(),
            r.height() == height,
            r.width_spec() == width,
            forall|row: int| 0 <= row < height ==> r.min_at(row) is None && r.max_at(row) is None,
            r.paired(),
            r.rows_ordered(),
            forall|b: int| r.cols_bounded(b),
    {
        let mut min_values: Vec<Option<usize>> = Vec::new();
        let mut max_values: Vec<Option<usize>> = Vec::new();
        let mut i: usize = 0;
        while i < height
            invariant
                i <= height,
                min_values@.len() == i,
                max_values@.len() == i,
                forall|row: int| 0 <= row < i ==> min_values@[row] is None && max_values@[row] is None,
            decreases height - i,
        {
            min_values.push(None);
            max_values.push(None);
            i = i + 1;
        }
        DynamicWindow { min_values, max_values, width }
    }

    #[inline]
    pub fn get_max(&self, row: usize) -> (r: Option<usize>)
        requires
            self.wf(),
            row < self.height(),
        ensures
            r == self.max_at(row as int),
    {
        self.max_values[row]
    }

    #[inline]
    pub fn get_min(&self, row: usize) -> (r: Option<usize>)
        requires
            self.wf(),
            row < self.height(),
        ensures
            r == self.min_at(row as int),
    {
        self.min_values[row]
    }

    #[inline]
    pub fn get_limits(&self, row: usize) -> (r: (Option<usize>, Option<usize>))
        requires
            self.wf(),
            row < self.height(),
        ensures
            r.0 == self.min_at(row as int),
            r.1 == self.max_at(row as int),
    {
        (self.get_min(row), self.get_max(row))
    }

    #[inline]
    pub fn is_in_range(&self, row: usize, col: usize) -> (r: bool)
        requires
            self.wf(),
            row < self.height(),
        ensures
            r == self.in_range_spec(row as int, col as int),
    {
        match (self.min_values[row], self.max_values[row]) {
            (Some(min), Some(max)) => min <= col && col <= max,
            _ => false,
        }
    }

    /// Extends the interval at `row` so that it includes `newlim`;
    /// intervals only ever grow.  Rows beyond the height are ignored.
    #[inline]
    pub fn expand(&mut self, row: usize, newlim: usize)
        requires
            old(self).wf(),
        ensures
            final(self).wf(),
            final(self).height() == old(self).height(),
            final(self).width_spec() == old(self).width_spec(),
            row >= old(self).height() ==> *final(self) == *old(self),
            forall|r: int, c: int|
                old(self).in_range_spec(r, c) ==> #[trigger] final(self).in_range_spec(r, c),
            old(self).paired() && row < old(self).height() ==> final(self).in_range_spec(
                row as int,
                newlim as int,
            ),
            old(self).paired() ==> final(self).paired(),
            old(self).paired() && old(self).rows_ordered() ==> final(self).rows_ordered(),
            forall|b: int|
                old(self).cols_bounded(b) && newlim <= b ==> #[trigger] final(self).cols_bounded(
                    b,
                ),
            forall|r: int|
                0 <= r < old(self).height() && (#[trigger] old(self).min_at(r)) is Some
                    ==> final(self).min_at(r) is Some,
            forall|r: int|
                0 <= r < old(self).height() && (#[trigger] old(self).max_at(r)) is Some
                    ==> final(self).max_at(r) is Some,
            row < old(self).height() ==> {
                &&& forall|r: int|
                    0 <= r < final(self).height() && r != row ==> final(self).min_at(r) == old(self).min_at(r)
                        && final(self).max_at(r) == old(self).max_at(r)
                &&& final(self).min_at(row as int) == (match (
                    old(self).min_at(row as int),
                    old(self).max_at(row as int),
                ) {
                    (None, None) => Some(newlim),
                    (Some(mn), None) => if mn > newlim {
                        Some(newlim)
                    } else {
                        Some(mn)
                    },
                    (None, Some(_)) => None::<usize>,
                    (Some(mn), Some(_)) => if mn > newlim {
                        Some(newlim)
                    } else {
                        Some(mn)
                    },
                })
                &&& final(self).max_at(row as int) == (match (
                    old(self).min_at(row as int),
                    old(self).max_at(row as int),
                ) {
                    (None, None) => Some(newlim),
                    (Some(_), None) => None::<usize>,
                    (None, Some(mx)) => if mx < newlim {
                        Some(newlim)
                    } else {
                        Some(mx)
                    },
                    (Some(_), Some(mx)) => if mx < newlim {
                        Some(newlim)
                    } else {
                        Some(mx)
                    },
                })
            },
    {
        if row >= self.min_values.len() {
            return ;
        }
        match (self.min_values[row], self.max_values[row]) {
            (None, None) => {
                self.min_values.set(row, Some(newlim));
                self.max_values.set(row, Some(newlim));
            },
            (Some(minval), None) => {
                if minval > newlim {
                    self.min_values.set(row, Some(newlim));
                }
            },
            (None, Some(maxval)) => {
                if maxval < newlim {
                    self.max_values.set(row, Some(newlim));
                }
            },
            (Some(minval), Some(maxval)) => {
                if maxval < newlim {
                    self.max_values.set(row, Some(newlim));
                }
                if minval > newlim {
                    self.min_values.set(row, Some(newlim));
                }
            },
        }
        proof {
            if old(self).paired() {
                assert forall|r: int|
                    0 <= r < self.height() implies ((#[trigger] self.min_at(r)) is Some
                    <==> self.max_at(r) is Some) by {
                    if r != row {
                        assert(self.min_at(r) == old(self).min_at(r));
                        assert(self.max_at(r) == old(self).max_at(r));
                    }
                }
                if old(self).rows_ordered() {
                    assert forall|r: int|
                        0 <= r < self.height() && (#[trigger] self.min_at(r)) is Some
                        && self.max_at(r) is Some implies self.min_at(r).unwrap() <= self.max_at(
                        r,
                    ).unwrap() by {
                        if r != row {
                            assert(self.min_at(r) == old(self).min_at(r));
                            assert(self.max_at(r) == old(self).max_at(r));
                        }
                    }
                }
            }
            assert forall|b: int|
                old(self).cols_bounded(b) && newlim <= b implies #[trigger] self.cols_bounded(
                b,
            ) by {
                assert forall|r: int|
                    0 <= r < self.height() && (#[trigger] self.min_at(r)) is Some implies self.min_at(
                    r,
                ).unwrap() <= b by {
                    if r != row {
                        assert(self.min_at(r) == old(self).min_at(r));
                    }
                }
                assert forall|r: int|
                    0 <= r < self.height() && (#[trigger] self.max_at(r)) is Some implies self.max_at(
                    r,
                ).unwrap() <= b by {
                    if r != row {
                        assert(self.max_at(r) == old(self).max_at(r));
                    }
                }
            }
        }
    }

    #[inline]
    pub fn set_min(&mut self, min: usize, row: usize)
        requires
            old(self).wf(),
            row < old(self).height(),
        ensures
            final(self).wf(),
            final(self).min_values@ == old(self).min_values@.update(row as int, Some(min)),
            final(self).max_values@ == old(self).max_values@,
            final(self).width_spec() == old(self).width_spec(),
    {
        self.min_values.set(row, Some(min));
    }

    #[inline]
    pub fn set_max(&mut self, max: usize, row: usize)
        requires
            old(self).wf(),
            row < old(self).height(),
        ensures
            final(self).wf(),
            final(self).max_values@ == old(self).max_values@.update(row as int, Some(max)),
            final(self).min_values@ == old(self).min_values@,
            final(self).width_spec() == old(self).width_spec(),
    {
        self.max_values.set(row, Some(max));
    }

    #[inline]
    pub fn set_range(&mut self, min: usize, max: usize, row: usize)
        requires
            old(self).wf(),
            row < old(self).height(),
        ensures
            final(self).wf(),
            final(self).min_values@ == old(self).min_values@.update(row as int, Some(min)),
            final(self).max_values@ == old(self).max_values@.update(row as int, Some(max)),
            final(self).width_spec() == old(self).width_spec(),
    {
        self.set_min(min, row);
        self.set_max(max, row);
    }

    /// Opens the first `height` rows to the full `[0, width]` interval.
    #[inline]
    pub fn init(&mut self, height: usize)
        requires
            old(self).wf(),
            height <= old(self).height(),
        ensures
            final(self).wf(),
            final(self).height() == old(self).height(),
            final(self).width_spec() == old(self).width_spec(),
            forall|row: int|
                0 <= row < height ==> final(self).min_at(row) == Some(0usize) && final(self).max_at(row)
                    == Some(old(self).width as usize),
            forall|row: int|
                height <= row < final(self).height() ==> final(self).min_at(row) == old(self).min_at(row)
                    && final(self).max_at(row) == old(self).max_at(row),
    {
        let ghost orig: DynamicWindow = *self;
        let width = self.width;
        let mut i: usize = 0;
        while i < height
            invariant
                i <= height,
                height <= orig.height(),
                self.wf(),
                orig.wf(),
                self.width == orig.width,
                width == orig.width,
                self.height() == orig.height(),
                forall|row: int|
                    0 <= row < i ==> self.min_at(row) == Some(0usize) && self.max_at(row) == Some(
                        orig.width as usize,
                    ),
                forall|row: int|
                    i <= row < self.height() ==> self.min_at(row) == orig.min_at(row)
                        && self.max_at(row) == orig.max_at(row),
            decreases height - i,
        {
            let ghost pre: DynamicWindow = *self;
            self.set_range(0, width, i);
            proof {
                assert(self.min_values@ == pre.min_values@.update(i as int, Some(0usize)));
                assert(self.max_values@ == pre.max_values@.update(i as int, Some(width)));
                assert forall|row: int| 0 <= row < i implies self.min_at(row) == Some(0usize)
                    && self.max_at(row) == Some(orig.width as usize) by {
                    assert(self.min_values@[row] == pre.min_values@[row]);
                    assert(self.max_values@[row] == pre.max_values@[row]);
                    assert(pre.min_at(row) == Some(0usize));
                    assert(pre.max_at(row) == Some(orig.width as usize));
                }
            }
            i = i + 1;
        }
    }

    /// Copies the interval of row `i - 1` into row `i`.
    pub fn replicate_prev(&mut self, i: usize)
        requires
            old(self).wf(),
            1 <= i < old(self).height(),
        ensures
            final(self).wf(),
            final(self).min_values@ == old(self).min_values@.update(
                i as int,
                old(self).min_at(i as int - 1),
            ),
            final(self).max_values@ == old(self).max_values@.update(
                i as int,
                old(self).max_at(i as int - 1),
            ),
            final(self).width_spec() == old(self).width_spec(),
            forall|r: int, c: int|
                r != i && old(self).in_range_spec(r, c) ==> #[trigger] final(self).in_range_spec(
                    r,
                    c,
                ),
            forall|c: int|
                old(self).in_range_spec(i as int - 1, c)
                    ==> #[trigger] final(self).in_range_spec(i as int, c),
            old(self).paired() ==> final(self).paired(),
            old(self).rows_ordered() ==> final(self).rows_ordered(),
            forall|b: int|
                old(self).cols_bounded(b) ==> #[trigger] final(self).cols_bounded(b),
    {
        let mn = self.min_values[i - 1];
        let mx = self.max_values[i - 1];
        self.min_values.set(i, mn);
        self.max_values.set(i, mx);
        proof {
            assert(self.min_at(i as int) == old(self).min_at(i as int - 1));
            assert(self.max_at(i as int) == old(self).max_at(i as int - 1));
            if old(self).paired() {
                assert forall|r: int|
                    0 <= r < self.height() implies ((#[trigger] self.min_at(r)) is Some
                    <==> self.max_at(r) is Some) by {
                    if r != i {
                        assert(self.min_at(r) == old(self).min_at(r));
                        assert(self.max_at(r) == old(self).max_at(r));
                    }
                }
            }
            if old(self).rows_ordered() {
                assert forall|r: int|
                    0 <= r < self.height() && (#[trigger] self.min_at(r)) is Some && self.max_at(
                    r,
                ) is Some implies self.min_at(r).unwrap() <= self.max_at(r).unwrap() by {
                    if r != i {
                        assert(self.min_at(r) == old(self).min_at(r));
                        assert(self.max_at(r) == old(self).max_at(r));
                    }
                }
            }
            assert forall|b: int| old(self).cols_bounded(b) implies #[trigger] self.cols_bounded(
                b,
            ) by {
                assert forall|r: int|
                    0 <= r < self.height() && (#[trigger] self.min_at(r)) is Some implies self.min_at(
                    r,
                ).unwrap() <= b by {
                    if r != i {
                        assert(self.min_at(r) == old(self).min_at(r));
                    }
                }
                assert forall|r: int|
                    0 <= r < self.height() && (#[trigger] self.max_at(r)) is Some implies self.max_at(
                    r,
                ).unwrap() <= b by {
                    if r != i {
                        assert(self.max_at(r) == old(self).max_at(r));
                    }
                }
            }
        }
    }

    /// Copies the penultimate row's interval into the final row.
    pub fn replicate_last_row(&mut self)
        requires
            old(self).wf(),
            old(self).height() >= 2,
        ensures
            final(self).wf(),
            final(self).min_values@ == old(self).min_values@.update(
                old(self).height() - 1,
                old(self).min_at(old(self).height() - 2),
            ),
            final(self).max_values@ == old(self).max_values@.update(
                old(self).height() - 1,
                old(self).max_at(old(self).height() - 2),
            ),
            final(self).width_spec() == old(self).width_spec(),
            forall|r: int, c: int|
                r != old(self).height() - 1 && old(self).in_range_spec(r, c)
                    ==> #[trigger] final(self).in_range_spec(r, c),
            forall|c: int|
                old(self).in_range_spec(old(self).height() - 2, c)
                    ==> #[trigger] final(self).in_range_spec(old(self).height() - 1, c),
            old(self).paired() ==> final(self).paired(),
            old(self).rows_ordered() ==> final(self).rows_ordered(),
            forall|b: int|
                old(self).cols_bounded(b) ==> #[trigger] final(self).cols_bounded(b),
    {
        let last_row = self.min_values.len() - 1;
        self.replicate_prev(last_row);
    }
}

} // verus!
