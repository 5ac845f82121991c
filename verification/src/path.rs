//! Warping-path extraction: walks a cost matrix from the bottom-right
//! corner back to the origin, optionally constrained by a band.

use vstd::prelude::*;

use crate::dtw::{INF, OP};
use crate::window::DynamicWindow;

verus! {

/// View of an exec cost matrix as a sequence of rows.
pub open spec fn mat_view(m: &Vec<Vec<u64>>) -> Seq<Seq<u64>> {
    m@.map_values(|r: Vec<u64>| r@)
}

/// A matrix of `rows` rows, each `cols` wide.
pub open spec fn mat_wf(m: Seq<Seq<u64>>, rows: int, cols: int) -> bool {
    &&& m.len() == rows
    &&& forall|r: int| 0 <= r < rows ==> (#[trigger] m[r]).len() == cols
}

/// The cost a backward walk sees at a predecessor cell: the matrix
/// value, or the sentinel when a band is given and the cell lies
/// outside it.
pub open spec fn pred_cost(mat: Seq<Seq<u64>>, win: Option<DynamicWindow>, r: int, c: int) -> int {
    match win {
        Some(w) => if w.in_range_spec(r, c) {
            mat[r][c] as int
        } else {
            INF as int
        },
        None => mat[r][c] as int,
    }
}

/// The cell the walk moves to from `(i, j)`: the strictly cheapest of
/// the three predecessors, ties broken diagonal, then up, then left.
/// When every predecessor is forbidden the larger coordinate drops, so
/// the walk always terminates.
pub open spec fn walk_step(mat: Seq<Seq<u64>>, win: Option<DynamicWindow>, i: int, j: int) -> (
    int,
    int,
) {
    let diag = if i > 0 && j > 0 { pred_cost(mat, win, i - 1, j - 1) } else { INF as int };
    let up = if i > 0 { pred_cost(mat, win, i - 1, j) } else { INF as int };
    let left = if j > 0 { pred_cost(mat, win, i, j - 1) } else { INF as int };
    if i > 0 && j > 0 && diag <= up && diag <= left {
        (i - 1, j - 1)
    } else if i > 0 && up <= diag && up <= left {
        (i - 1, j)
    } else if j > 0 && left <= diag && left <= up {
        (i, j - 1)
    } else if j > 0 && i <= j {
        (i, j - 1)
    } else {
        (i - 1, j)
    }
}

/// The full backward walk from `(i, j)` to the origin, in the order
/// the cells are visited.
pub open spec fn walk(mat: Seq<Seq<u64>>, win: Option<DynamicWindow>, i: int, j: int) -> Seq<OP>
    decreases i + j,
    when 0 <= i && 0 <= j
{
    if i <= 0 && j <= 0 {
        Seq::empty()
    } else {
        let (ni, nj) = walk_step(mat, win, i, j);
        seq![(ni as usize, nj as usize)] + walk(mat, win, ni, nj)
    }
}

/// Two grid cells are one monotone warping step apart.
pub open spec fn adjacent(i0: int, j0: int, i1: int, j1: int) -> bool {
    ||| (i1 == i0 - 1 && j1 == j0)
    ||| (i1 == i0 && j1 == j0 - 1)
    ||| (i1 == i0 - 1 && j1 == j0 - 1)
}

/// A structurally valid warping path for a grid whose bottom-right
/// cell is `(n, m)`: emitted backwards, every step decrements one or
/// both coordinates by one, it starts next to `(n, m)`, never leaves
/// the grid, and finishes at the origin.
pub open spec fn path_ok(p: Seq<OP>, n: int, m: int) -> bool {
    &&& p.len() <= n + m
    &&& (n > 0 || m > 0) ==> p.len() > 0
    &&& p.len() > 0 ==> adjacent(n, m, p[0].0 as int, p[0].1 as int)
    &&& forall|k: int| 0 <= k < p.len() ==> (#[trigger] p[k]).0 <= n && p[k].1 <= m
    &&& forall|k1: int, k2: int|
        #![trigger p[k1], p[k2]]
        0 <= k1 && k2 == k1 + 1 && k2 < p.len() ==> adjacent(
            p[k1].0 as int,
            p[k1].1 as int,
            p[k2].0 as int,
            p[k2].1 as int,
        )
    &&& p.len() > 0 ==> p[p.len() - 1] == (0usize, 0usize)
}

/// The step target stays inside the grid and strictly below `(i, j)`.
pub proof fn lemma_walk_step_bounds(mat: Seq<Seq<u64>>, win: Option<DynamicWindow>, i: int, j: int)
    requires
        0 <= i,
        0 <= j,
        i > 0 || j > 0,
    ensures
        ({
            let (ni, nj) = walk_step(mat, win, i, j);
            &&& 0 <= ni <= i
            &&& 0 <= nj <= j
            &&& ni + nj < i + j
            &&& adjacent(i, j, ni, nj)
        }),
{
}

/// Prepending one admissible step to a valid path keeps it valid.
#[verifier::rlimit(100)]
#[verifier::spinoff_prover]
pub proof fn lemma_path_ok_cons(hi: int, hj: int, tail: Seq<OP>, n: int, m: int)
    requires
        0 <= hi <= usize::MAX,
        0 <= hj <= usize::MAX,
        adjacent(n, m, hi, hj),
        path_ok(tail, hi, hj),
    ensures
        path_ok(seq![(hi as usize, hj as usize)] + tail, n, m),
{
    let head: OP = (hi as usize, hj as usize);
    let p = seq![head] + tail;
    assert(p.len() == 1 + tail.len());
    assert(p[0] == head);
    assert forall|k: int| 0 < k < p.len() implies #[trigger] p[k] == tail[k - 1] by {}
    assert forall|k: int| 0 <= k < p.len() implies (#[trigger] p[k]).0 <= n && p[k].1 <= m by {
        if k > 0 {
            assert(p[k] == tail[k - 1]);
            assert(tail[k - 1].0 <= hi && tail[k - 1].1 <= hj);
        }
    }
    assert forall|k1: int, k2: int|
        #![trigger p[k1], p[k2]]
        0 <= k1 && k2 == k1 + 1 && k2 < p.len() implies adjacent(
        p[k1].0 as int,
        p[k1].1 as int,
        p[k2].0 as int,
        p[k2].1 as int,
    ) by {
        assert(p[k2] == tail[k2 - 1]);
        if k1 == 0 {
            assert(p[0] == head);
            assert(tail.len() > 0 && (hi > 0 || hj > 0));
            assert(adjacent(hi, hj, tail[0].0 as int, tail[0].1 as int));
        } else {
            assert(p[k1] == tail[k1 - 1]);
        }
    }
    if hi == 0 && hj == 0 {
        assert(tail.len() == 0);
        assert(p[p.len() - 1] == (0usize, 0usize));
    } else {
        assert(tail.len() > 0);
        assert(p[p.len() - 1] == tail[tail.len() - 1]);
    }
}

/// Every walk is a structurally valid warping path.
pub proof fn lemma_walk_ok(mat: Seq<Seq<u64>>, win: Option<DynamicWindow>, i: int, j: int)
    requires
        0 <= i <= usize::MAX,
        0 <= j <= usize::MAX,
    ensures
        path_ok(walk(mat, win, i, j), i, j),
    decreases i + j,
{
    if i <= 0 && j <= 0 {
    } else {
        let (ni, nj) = walk_step(mat, win, i, j);
        lemma_walk_step_bounds(mat, win, i, j);
        lemma_walk_ok(mat, win, ni, nj);
        lemma_path_ok_cons(ni, nj, walk(mat, win, ni, nj), i, j);
        assert(walk(mat, win, i, j) == seq![(ni as usize, nj as usize)] + walk(mat, win, ni, nj));
    }
}

/// Walking from a cell on the top edge only ever moves left: the path
/// is the whole remaining row, whatever the matrix holds.
pub proof fn lemma_walk_top_edge(mat: Seq<Seq<u64>>, win: Option<DynamicWindow>, j: int)
    requires
        0 <= j,
    ensures
        walk(mat, win, 0, j) == Seq::new(j as nat, |k: int| (0usize, (j - 1 - k) as usize)),
    decreases j,
{
    let p = walk(mat, win, 0, j);
    if j == 0 {
        assert(p =~= Seq::new(0nat, |k: int| (0usize, (j - 1 - k) as usize)));
    } else {
        assert(walk_step(mat, win, 0, j) == (0int, j - 1));
        lemma_walk_top_edge(mat, win, j - 1);
        assert(p =~= Seq::new(j as nat, |k: int| (0usize, (j - 1 - k) as usize)));
    }
}

/// Traces the minimum-cost path from the bottom-right corner of `map`
/// back to the origin, together with the minimum row and column index
/// reached.  With a band, predecessors outside it count as forbidden.
pub fn get_warp_path(map: &Vec<Vec<u64>>, window: Option<&DynamicWindow>) -> (r: (
    Vec<OP>,
    usize,
    usize,
))
    requires
        map@.len() >= 1,
        map@[0]@.len() >= 1,
        forall|k: int| 0 <= k < map@.len() ==> (#[trigger] map@[k])@.len() == map@[0]@.len(),
        window matches Some(w) ==> w.wf() && w.height() >= map@.len(),
    ensures
        ({
            let winv = match window {
                Some(w) => Some(*w),
                None => None,
            };
            &&& r.0@ == walk(mat_view(map), winv, map@.len() - 1, map@[0]@.len() - 1)
            &&& path_ok(r.0@, map@.len() - 1, map@[0]@.len() - 1)
            &&& r.1 == 0usize
            &&& r.2 == 0usize
        }),
{
    let ghost matv = mat_view(map);
    let ghost winv: Option<DynamicWindow> = match window {
        Some(w) => Some(*w),
        None => None,
    };
    let n = map.len() - 1;
    let m = map[0].len() - 1;
    let mut i = n;
    let mut j = m;
    let mut r: Vec<OP> = Vec::new();

    let mut min_i = n;
    let mut min_j = m;

    while i > 0 || j > 0
        invariant
            i <= n,
            j <= m,
            n + 1 == map@.len(),
            m + 1 == map@[0]@.len(),
            forall|k: int| 0 <= k < map@.len() ==> (#[trigger] map@[k])@.len() == map@[0]@.len(),
            window matches Some(w) ==> w.wf() && w.height() >= map@.len(),
            matv == mat_view(map),
            winv == (match window {
                Some(w) => Some(*w),
                None => None,
            }),
            min_i == i,
            min_j == j,
            walk(matv, winv, n as int, m as int) == r@ + walk(matv, winv, i as int, j as int),
        decreases i + j,
    {
        let ghost i0 = i as int;
        let ghost j0 = j as int;
        let mut diagcost: u64 = INF;
        let mut leftcost: u64 = INF;
        let mut rightcost: u64 = INF;

        if i > 0 && j > 0 {
            match &window {
                Some(window) => {
                    if window.is_in_range(i - 1, j - 1) {
                        diagcost = map[i - 1][j - 1];
                    }
                },
                None => {
                    diagcost = map[i - 1][j - 1];
                },
            }
        }
        if i > 0 {
            match &window {
                Some(window) => {
                    if window.is_in_range(i - 1, j) {
                        leftcost = map[i - 1][j];
                    }
                },
                None => {
                    leftcost = map[i - 1][j];
                },
            }
        }
        if j > 0 {
            match &window {
                Some(window) => {
                    if window.is_in_range(i, j - 1) {
                        rightcost = map[i][j - 1];
                    }
                },
                None => {
                    rightcost = map[i][j - 1];
                },
            }
        }

        proof {
            if i0 > 0 && j0 > 0 {
                assert(diagcost as int == pred_cost(matv, winv, i0 - 1, j0 - 1));
            }
            if i0 > 0 {
                assert(leftcost as int == pred_cost(matv, winv, i0 - 1, j0));
            }
            if j0 > 0 {
                assert(rightcost as int == pred_cost(matv, winv, i0, j0 - 1));
            }
        }

        if i > 0 && j > 0 && diagcost <= leftcost && diagcost <= rightcost {
            i = i - 1;
            j = j - 1;
        } else if i > 0 && leftcost <= diagcost && leftcost <= rightcost {
            i = i - 1;
        } else if j > 0 && rightcost <= diagcost && rightcost <= leftcost {
            j = j - 1;
        } else if j > 0 && i <= j {
            j = j - 1;
        } else {
            i = i - 1;
        }

        if i < min_i {
            min_i = i;
        }
        if j < min_j {
            min_j = j;
        }
        r.push((i, j));

        proof {
            assert(walk_step(matv, winv, i0, j0) == (i as int, j as int));
            assert(walk(matv, winv, i0, j0) == seq![(i, j)] + walk(
                matv,
                winv,
                i as int,
                j as int,
            ));
            assert(r@ + walk(matv, winv, i as int, j as int) =~= walk(
                matv,
                winv,
                n as int,
                m as int,
            ));
        }
    }
    proof {
        assert(walk(matv, winv, 0, 0) =~= Seq::<OP>::empty());
        assert(r@ =~= walk(matv, winv, n as int, m as int));
        lemma_walk_ok(matv, winv, n as int, m as int);
    }
    (r, min_i, min_j)
}

} // verus!
