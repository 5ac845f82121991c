//! Multi-resolution approximate DTW: halve both chains, align the
//! halves, project the coarse path onto the fine grid as a band,
//! widen it by a radius, and run banded DTW under it.

use vstd::prelude::*;

use crate::dtw::{
    cell, fstep_ok, half_seq, standard_result, Accesor, DTWResult, STRACDistance, StandardDTW, INF,
    OP,
};
use crate::path::{adjacent, path_ok};
use crate::window::DynamicWindow;
use crate::windowed::{lemma_wcell_ge_cell, WindowedDTW};

verus! {

/// Left end of a band row widened by the radius, floored at zero.
pub open spec fn low_col(mn: int, radius: int) -> int {
    if mn - radius >= 0 {
        mn - radius
    } else {
        0
    }
}

/// Right end of a band row widened by the radius, capped at the grid.
pub open spec fn high_col(mx: int, radius: int, len2: int) -> int {
    if mx + radius <= len2 {
        mx + radius
    } else {
        len2
    }
}

/// Approximate DTW with a projection radius and a base size under
/// which it delegates to the reference exact algorithm.
pub struct FastDTW<'a> {
    pub distance: &'a STRACDistance,
    pub radius: usize,
    pub default_dtw: &'a StandardDTW<'a>,
    pub min_size: usize,
}

impl<'a> FastDTW<'a> {
    pub fn new(
        distance: &'a STRACDistance,
        radius: usize,
        min_size: usize,
        default_dtw: &'a StandardDTW<'a>,
    ) -> (r: FastDTW<'a>)
        ensures
            r.distance == distance,
            r.radius == radius,
            r.min_size == min_size,
            r.default_dtw == default_dtw,
    {
        FastDTW { distance, radius, min_size, default_dtw }
    }

    /// Projects a coarse warping path onto the fine grid and widens
    /// the projected band by `radius`, sweeping the widened bounds
    /// into the neighbouring rows; rows the projection missed inherit
    /// the row above.  The band has one row per element of the first
    /// chain plus one, every row carries a defined, non-empty interval
    /// within the grid, and the doubled image of every coarse path
    /// cell is admissible together with its radius-widened columns.
    fn expand(
        ops: Vec<OP>,
        radius: usize,
        len1: usize,
        len2: usize,
        op_count: usize,
        mini: usize,
        minj: usize,
    ) -> (r: DynamicWindow)
        requires
            op_count == ops@.len(),
            ops@.len() >= 1,
            mini == 0,
            minj == 0,
            ops@[ops@.len() - 1] == (0usize, 0usize),
            forall|k1: int, k2: int|
                #![trigger ops@[k1], ops@[k2]]
                0 <= k1 && k2 == k1 + 1 && k2 < ops@.len() ==> fstep_ok(ops@[k2], ops@[k1]),
            forall|k: int|
                0 <= k < ops@.len() ==> 2 * (#[trigger] ops@[k]).0 <= len1 && 2 * ops@[k].1
                    <= len2,
            len1 < usize::MAX / 4,
            len2 < usize::MAX / 4,
        ensures
            r.wf(),
            r.height() == len1 + 1,
            r.width_spec() == len2,
            forall|row: int|
                0 <= row <= len1 ==> (#[trigger] r.min_at(row)) is Some && r.max_at(row) is Some
                    && r.min_at(row).unwrap() <= r.max_at(row).unwrap() <= len2,
            forall|k: int, row: int, c: int|
                #![trigger ops@[k], r.in_range_spec(row, c)]
                0 <= k < ops@.len() && 2 * ops@[k].0 <= row <= 2 * ops@[k].0 + 1 && row <= len1
                    && 2 * ops@[k].1 - radius <= c <= 2 * ops@[k].1 + 1 + radius && 0 <= c <= len2
                    ==> r.in_range_spec(row, c),
    {
        let mut dynamic_window = DynamicWindow::new(len1 + 1, len2);

        let mut lastwarpedi: usize = usize::MAX;
        let mut lastwarpedj: usize = usize::MAX;

        let blocksize: usize = 2;
        let mut currenti = mini;
        let mut currentj = minj;

        let mut idx = op_count;
        while idx > 0
            invariant
                idx <= op_count,
                1 <= op_count == ops@.len(),
                len1 < usize::MAX / 4,
                len2 < usize::MAX / 4,
                blocksize == 2,
                ops@[ops@.len() - 1] == (0usize, 0usize),
                forall|k1: int, k2: int|
                    #![trigger ops@[k1], ops@[k2]]
                    0 <= k1 && k2 == k1 + 1 && k2 < ops@.len() ==> fstep_ok(ops@[k2], ops@[k1]),
                forall|k: int|
                    0 <= k < ops@.len() ==> 2 * (#[trigger] ops@[k]).0 <= len1 && 2 * ops@[k].1
                        <= len2,
                dynamic_window.wf(),
                dynamic_window.height() == len1 + 1,
                dynamic_window.width_spec() == len2,
                dynamic_window.paired(),
                dynamic_window.rows_ordered(),
                dynamic_window.cols_bounded(len2 as int),
                idx == op_count ==> currenti == 0 && currentj == 0 && lastwarpedi == usize::MAX
                    && lastwarpedj == usize::MAX,
                idx < op_count ==> lastwarpedi == ops@[idx as int].0 && lastwarpedj
                    == ops@[idx as int].1 && currenti == 2 * ops@[idx as int].0 && currentj == 2
                    * ops@[idx as int].1,
                forall|k: int, row: int, c: int|
                    #![trigger ops@[k], dynamic_window.in_range_spec(row, c)]
                    idx <= k < ops@.len() && 2 * ops@[k].0 <= row <= 2 * ops@[k].0 + 1 && row
                        <= len1 && 2 * ops@[k].1 <= c <= 2 * ops@[k].1 + 1 && c <= len2
                        ==> dynamic_window.in_range_spec(row, c),
            decreases idx,
        {
            let ghost w0 = dynamic_window;
            let (warpedi, warpedj) = ops[idx - 1];

            proof {
                if idx < op_count {
                    assert(fstep_ok(ops@[idx as int], ops@[idx - 1]));
                }
            }

            if warpedi > lastwarpedi {
                currenti = currenti + blocksize;
            }
            if warpedj > lastwarpedj {
                currentj = currentj + blocksize;
            }
            proof {
                assert(currenti == 2 * ops@[idx - 1].0);
                assert(currentj == 2 * ops@[idx - 1].1);
            }

            if warpedj > lastwarpedj && warpedi > lastwarpedi {
                dynamic_window.expand(currenti - 1, currentj);
                dynamic_window.expand(currenti, currentj - 1);
            }

            let c_hi = if currentj + 1 > len2 {
                len2
            } else {
                currentj + 1
            };
            dynamic_window.expand(currenti, currentj);
            dynamic_window.expand(currenti, c_hi);
            dynamic_window.expand(currenti + 1, currentj);
            dynamic_window.expand(currenti + 1, c_hi);

            proof {
                assert forall|k: int, row: int, c: int|
                    #![trigger ops@[k], dynamic_window.in_range_spec(row, c)]
                    idx - 1 <= k < ops@.len() && 2 * ops@[k].0 <= row <= 2 * ops@[k].0 + 1 && row
                        <= len1 && 2 * ops@[k].1 <= c <= 2 * ops@[k].1 + 1 && c
                        <= len2 implies dynamic_window.in_range_spec(row, c) by {
                    if k == idx - 1 {
                        assert(row == currenti || row == currenti + 1);
                        assert(c == currentj || (c == currentj + 1 && c == c_hi));
                    } else {
                        assert(w0.in_range_spec(row, c));
                    }
                }
            }

            lastwarpedi = warpedi;
            lastwarpedj = warpedj;
            idx = idx - 1;
        }

        proof {
            assert(dynamic_window.in_range_spec(0, 0));
        }

        if len1 % 2 == 1 && len1 > 0 {
            let ghost pre = dynamic_window;
            dynamic_window.replicate_last_row();
            proof {
                assert forall|k: int, row: int, c: int|
                    #![trigger ops@[k], dynamic_window.in_range_spec(row, c)]
                    0 <= k < ops@.len() && 2 * ops@[k].0 <= row <= 2 * ops@[k].0 + 1 && row <= len1
                        && 2 * ops@[k].1 <= c <= 2 * ops@[k].1 + 1 && c
                        <= len2 implies dynamic_window.in_range_spec(row, c) by {
                    if row == len1 {
                        assert(row == 2 * ops@[k].0 + 1);
                        assert(pre.in_range_spec(len1 - 1, c));
                    } else {
                        assert(pre.in_range_spec(row, c));
                    }
                }
                assert(dynamic_window.in_range_spec(0, 0));
            }
        }

        let mut scaled = DynamicWindow::new(len1 + 1, len2);

        let mut i: usize = 0;
        while i < len1 + 1
            invariant
                i <= len1 + 1,
                len1 < usize::MAX / 4,
                len2 < usize::MAX / 4,
                op_count == ops@.len(),
                forall|k: int|
                    0 <= k < ops@.len() ==> 2 * (#[trigger] ops@[k]).0 <= len1 && 2 * ops@[k].1
                        <= len2,
                dynamic_window.wf(),
                dynamic_window.height() == len1 + 1,
                dynamic_window.paired(),
                dynamic_window.rows_ordered(),
                dynamic_window.cols_bounded(len2 as int),
                dynamic_window.min_at(0) is Some,
                forall|k: int, row: int, c: int|
                    #![trigger ops@[k], dynamic_window.in_range_spec(row, c)]
                    0 <= k < ops@.len() && 2 * ops@[k].0 <= row <= 2 * ops@[k].0 + 1 && row <= len1
                        && 2 * ops@[k].1 <= c <= 2 * ops@[k].1 + 1 && c
                        <= len2 ==> dynamic_window.in_range_spec(row, c),
                scaled.wf(),
                scaled.height() == len1 + 1,
                scaled.width_spec() == len2,
                scaled.paired(),
                scaled.rows_ordered(),
                scaled.cols_bounded(len2 as int),
                forall|r: int|
                    0 <= r < i ==> (#[trigger] scaled.min_at(r)) is Some && scaled.max_at(
                        r,
                    ) is Some,
                forall|r: int|
                    #![trigger dynamic_window.min_at(r)]
                    0 <= r < i && dynamic_window.min_at(r) is Some ==> scaled.in_range_spec(
                        r,
                        low_col(dynamic_window.min_at(r).unwrap() as int, radius as int),
                    ) && scaled.in_range_spec(
                        r,
                        high_col(
                            dynamic_window.max_at(r).unwrap() as int,
                            radius as int,
                            len2 as int,
                        ),
                    ),
            decreases len1 + 1 - i,
        {
            let min_col = dynamic_window.get_min(i);
            let max_col = dynamic_window.get_max(i);

            match (min_col, max_col) {
                (Some(min_col), Some(max_col)) => {
                    let ghost s0 = scaled;
                    let up_row = if i >= radius {
                        i - radius
                    } else {
                        0
                    };
                    let down_row = if i >= len1 || radius >= len1 - i {
                        len1
                    } else {
                        i + radius
                    };
                    let low = if min_col >= radius {
                        min_col - radius
                    } else {
                        0
                    };
                    let high = if max_col > usize::MAX - radius {
                        len2
                    } else if max_col + radius <= len2 {
                        max_col + radius
                    } else {
                        len2
                    };
                    proof {
                        assert(min_col <= len2 && max_col <= len2);
                        assert(low == low_col(min_col as int, radius as int));
                        assert(high == high_col(max_col as int, radius as int, len2 as int));
                    }

                    scaled.expand(i, min_col);
                    scaled.expand(i, max_col);
                    scaled.expand(i, low);
                    scaled.expand(i, high);

                    let ghost s1 = scaled;
                    proof {
                        assert(s1.in_range_spec(i as int, low as int));
                        assert(s1.in_range_spec(i as int, high as int));
                        assert(s1.min_at(i as int) is Some && s1.max_at(i as int) is Some);
                    }

                    let mut j = i + 1;
                    while j > up_row
                        invariant
                            j <= i + 1,
                            i <= len1,
                            len2 < usize::MAX / 4,
                            max_col <= len2,
                            scaled.wf(),
                            scaled.height() == len1 + 1,
                            scaled.width_spec() == len2,
                            scaled.paired(),
                            scaled.rows_ordered(),
                            scaled.cols_bounded(len2 as int),
                            forall|r: int, c: int|
                                s1.in_range_spec(r, c) ==> #[trigger] scaled.in_range_spec(r, c),
                            forall|r: int|
                                0 <= r < len1 + 1 && (#[trigger] s1.min_at(r)) is Some
                                    ==> scaled.min_at(r) is Some,
                            forall|r: int|
                                0 <= r < len1 + 1 && (#[trigger] s1.max_at(r)) is Some
                                    ==> scaled.max_at(r) is Some,
                        decreases j,
                    {
                        let row = j - 1;
                        scaled.expand(row, max_col);
                        match scaled.get_min(row) {
                            Some(v) => scaled.expand(row, v),
                            None => {},
                        }
                        j = j - 1;
                    }

                    let mut j2 = i;
                    while j2 <= down_row
                        invariant
                            down_row <= len1,
                            len1 < usize::MAX / 4,
                            len2 < usize::MAX / 4,
                            min_col <= len2,
                            scaled.wf(),
                            scaled.height() == len1 + 1,
                            scaled.width_spec() == len2,
                            scaled.paired(),
                            scaled.rows_ordered(),
                            scaled.cols_bounded(len2 as int),
                            forall|r: int, c: int|
                                s1.in_range_spec(r, c) ==> #[trigger] scaled.in_range_spec(r, c),
                            forall|r: int|
                                0 <= r < len1 + 1 && (#[trigger] s1.min_at(r)) is Some
                                    ==> scaled.min_at(r) is Some,
                            forall|r: int|
                                0 <= r < len1 + 1 && (#[trigger] s1.max_at(r)) is Some
                                    ==> scaled.max_at(r) is Some,
                        decreases down_row + 1 - j2,
                    {
                        scaled.expand(j2, min_col);
                        match scaled.get_max(j2) {
                            Some(v) => scaled.expand(j2, v),
                            None => {},
                        }
                        j2 = j2 + 1;
                    }

                    proof {
                        assert forall|r: int|
                            0 <= r < i + 1 implies (#[trigger] scaled.min_at(r)) is Some
                            && scaled.max_at(r) is Some by {
                            if r < i {
                                assert(s0.min_at(r) is Some && s0.max_at(r) is Some);
                                assert(s1.min_at(r) is Some && s1.max_at(r) is Some);
                            } else {
                                assert(s1.min_at(i as int) is Some && s1.max_at(i as int) is Some);
                            }
                        }
                        assert forall|r: int|
                            #![trigger dynamic_window.min_at(r)]
                            0 <= r < i + 1 && dynamic_window.min_at(
                                r,
                            ) is Some implies scaled.in_range_spec(
                            r,
                            low_col(dynamic_window.min_at(r).unwrap() as int, radius as int),
                        ) && scaled.in_range_spec(
                            r,
                            high_col(
                                dynamic_window.max_at(r).unwrap() as int,
                                radius as int,
                                len2 as int,
                            ),
                        ) by {
                            if r < i {
                                assert(s0.in_range_spec(
                                    r,
                                    low_col(
                                        dynamic_window.min_at(r).unwrap() as int,
                                        radius as int,
                                    ),
                                ));
                                assert(s0.in_range_spec(
                                    r,
                                    high_col(
                                        dynamic_window.max_at(r).unwrap() as int,
                                        radius as int,
                                        len2 as int,
                                    ),
                                ));
                            } else {
                                assert(s1.in_range_spec(i as int, low as int));
                                assert(s1.in_range_spec(i as int, high as int));
                            }
                        }
                    }
                },
                _ => {
                    proof {
                        assert(dynamic_window.min_at(0) is Some);
                        assert(i >= 1);
                    }
                    let ghost s0 = scaled;
                    scaled.replicate_prev(i);
                    proof {
                        assert(scaled.min_at(i as int) is Some && scaled.max_at(i as int) is Some);
                        assert forall|r: int|
                            0 <= r < i + 1 implies (#[trigger] scaled.min_at(r)) is Some
                            && scaled.max_at(r) is Some by {
                            if r < i {
                                assert(s0.min_at(r) is Some && s0.max_at(r) is Some);
                                assert(scaled.min_at(r) == s0.min_at(r));
                                assert(scaled.max_at(r) == s0.max_at(r));
                            }
                        }
                        assert forall|r: int|
                            #![trigger dynamic_window.min_at(r)]
                            0 <= r < i + 1 && dynamic_window.min_at(
                                r,
                            ) is Some implies scaled.in_range_spec(
                            r,
                            low_col(dynamic_window.min_at(r).unwrap() as int, radius as int),
                        ) && scaled.in_range_spec(
                            r,
                            high_col(
                                dynamic_window.max_at(r).unwrap() as int,
                                radius as int,
                                len2 as int,
                            ),
                        ) by {
                            if r < i {
                                assert(s0.in_range_spec(
                                    r,
                                    low_col(
                                        dynamic_window.min_at(r).unwrap() as int,
                                        radius as int,
                                    ),
                                ));
                                assert(s0.in_range_spec(
                                    r,
                                    high_col(
                                        dynamic_window.max_at(r).unwrap() as int,
                                        radius as int,
                                        len2 as int,
                                    ),
                                ));
                            }
                        }
                    }
                },
            }
            i = i + 1;
        }

        proof {
            assert forall|row: int|
                0 <= row <= len1 implies (#[trigger] scaled.min_at(row)) is Some && scaled.max_at(
                row,
            ) is Some && scaled.min_at(row).unwrap() <= scaled.max_at(row).unwrap() <= len2 by {}
            assert forall|k: int, row: int, c: int|
                #![trigger ops@[k], scaled.in_range_spec(row, c)]
                0 <= k < ops@.len() && 2 * ops@[k].0 <= row <= 2 * ops@[k].0 + 1 && row <= len1 && 2
                    * ops@[k].1 - radius <= c <= 2 * ops@[k].1 + 1 + radius && 0 <= c
                <= len2 implies scaled.in_range_spec(row, c) by {
                assert(dynamic_window.in_range_spec(row, 2 * ops@[k].1));
                let mn = dynamic_window.min_at(row).unwrap() as int;
                let mx = dynamic_window.max_at(row).unwrap() as int;
                assert(mn <= 2 * ops@[k].1 <= mx);
                if 2 * ops@[k].1 + 1 <= len2 {
                    assert(dynamic_window.in_range_spec(row, 2 * ops@[k].1 + 1));
                    assert(mx >= 2 * ops@[k].1 + 1);
                }
                assert(scaled.in_range_spec(row, low_col(mn, radius as int)));
                assert(scaled.in_range_spec(row, high_col(mx, radius as int, len2 as int)));
                assert(low_col(mn, radius as int) <= c);
                assert(c <= high_col(mx, radius as int, len2 as int));
            }
        }

        scaled
    }

    /// Aligns the two chains.  At or below the base size this is the
    /// reference exact algorithm; above it, the banded refinement of
    /// the coarse alignment, whose cost never undercuts the exact
    /// cost.
    pub fn calculate<A: Accesor>(&self, chain1: &A, chain2: &A) -> (r: DTWResult)
        requires
            self.distance.wf(),
            self.default_dtw.distance.wf(),
            self.min_size >= 1,
            self.radius >= 1,
            chain1.tokens().len() < usize::MAX / 4,
            chain2.tokens().len() < usize::MAX / 4,
        ensures
            ({
                let a_s = chain1.tokens();
                let b_s = chain2.tokens();
                let n = a_s.len() as int;
                let m = b_s.len() as int;
                &&& (n <= self.min_size || m <= self.min_size) ==> standard_result(
                    *self.default_dtw.distance,
                    a_s,
                    b_s,
                    r,
                )
                &&& (n > self.min_size && m > self.min_size) ==> {
                    &&& r.0 >= cell(*self.distance, a_s, b_s, n, m)
                    &&& r.0 <= INF
                }
                &&& r.1 matches Some(p) && {
                    &&& path_ok(p.0@, n, m)
                    &&& p.1 == 0usize
                    &&& p.2 == 0usize
                }
            }),
        decreases chain1.tokens().len(),
    {
        let n = chain1.size();
        let m = chain2.size();
        if n <= self.min_size || m <= self.min_size {
            let r = self.default_dtw.calculate(chain1, chain2);
            return r;
        }

        let chain1_half = chain1.get_half();
        let chain2_half = chain2.get_half();

        proof {
            assert(chain1_half.tokens().len() == half_seq(chain1.tokens()).len());
            assert(half_seq(chain1.tokens()).len() < chain1.tokens().len());
        }
        let rec = self.calculate(&chain1_half, &chain2_half);
        let path_part = rec.1;

        let (path, mini, minj) = match path_part {
            Some(p) => p,
            None => {
                proof {
                    assert(false);
                }
                (Vec::new(), 0, 0)
            },
        };
        let opcount = path.len();
        proof {
            let nh = half_seq(chain1.tokens()).len() as int;
            let mh = half_seq(chain2.tokens()).len() as int;
            assert(nh >= 1);
            assert(path@.len() >= 1);
            assert(path@[path@.len() - 1] == (0usize, 0usize));
            assert forall|k1: int, k2: int|
                #![trigger path@[k1], path@[k2]]
                0 <= k1 && k2 == k1 + 1 && k2 < path@.len() implies fstep_ok(
                path@[k2],
                path@[k1],
            ) by {
                assert(adjacent(
                    path@[k1].0 as int,
                    path@[k1].1 as int,
                    path@[k2].0 as int,
                    path@[k2].1 as int,
                ));
            }
            assert(2 * nh <= chain1.tokens().len());
            assert(2 * mh <= chain2.tokens().len());
            assert forall|k: int|
                0 <= k < path@.len() implies 2 * (#[trigger] path@[k]).0 <= n && 2 * path@[k].1
                <= m by {
                assert(path@[k].0 <= nh && path@[k].1 <= mh);
            }
        }
        let window = Self::expand(path, self.radius, n, m, opcount, mini, minj);

        let wdtw = WindowedDTW::new(window, self.distance);
        let result = wdtw.calculate(chain1, chain2);
        proof {
            lemma_wcell_ge_cell(
                *self.distance,
                wdtw.window,
                chain1.tokens(),
                chain2.tokens(),
                chain1.tokens().len() as int,
                chain2.tokens().len() as int,
            );
        }
        result
    }
}

} // verus!
