//! Banded DTW: fills only the cells a [`DynamicWindow`] admits; every
//! other cell holds the sentinel and loses every minimum.

use vstd::prelude::*;

use crate::dtw::{
    cap_add, cap_add_spec, capgap, cell, fpath_cost, fpath_ok, fstep_cost, fstep_ok,
    lemma_cap_add_monotone, lemma_capgap_bounds, lemma_cell_bounds, min3, sdist, umin, Accesor,
    DTWResult, STRACDistance, TokenID, INF, OP,
};
use crate::path::{get_warp_path, mat_view, path_ok, walk};
use crate::window::DynamicWindow;

verus! {

/// The banded recurrence: like [`cell`], but any cell outside the
/// window holds the sentinel, and in-window cells read their
/// predecessors from this same banded matrix.
pub open spec fn wcell(
    o: STRACDistance,
    w: DynamicWindow,
    a: Seq<TokenID>,
    b: Seq<TokenID>,
    i: int,
    j: int,
) -> int
    decreases i, j,
    when 0 <= i && 0 <= j
{
    if !w.in_range_spec(i, j) {
        INF as int
    } else if i <= 0 && j <= 0 {
        0
    } else if i <= 0 {
        capgap(o, j)
    } else if j <= 0 {
        capgap(o, i)
    } else {
        min3(
            cap_add_spec(sdist(o, a[i - 1], b[j - 1]), wcell(o, w, a, b, i - 1, j - 1)),
            cap_add_spec(o.gap_cost as int, wcell(o, w, a, b, i - 1, j)),
            cap_add_spec(o.gap_cost as int, wcell(o, w, a, b, i, j - 1)),
        )
    }
}

pub proof fn lemma_wcell_bounds(
    o: STRACDistance,
    w: DynamicWindow,
    a: Seq<TokenID>,
    b: Seq<TokenID>,
    i: int,
    j: int,
)
    requires
        o.wf(),
        0 <= i,
        0 <= j,
    ensures
        0 <= wcell(o, w, a, b, i, j) <= INF,
    decreases i, j,
{
    if !w.in_range_spec(i, j) {
    } else if i <= 0 && j <= 0 {
    } else if i <= 0 {
        lemma_capgap_bounds(o, j);
    } else if j <= 0 {
        lemma_capgap_bounds(o, i);
    } else {
        lemma_wcell_bounds(o, w, a, b, i - 1, j - 1);
        lemma_wcell_bounds(o, w, a, b, i - 1, j);
        lemma_wcell_bounds(o, w, a, b, i, j - 1);
    }
}

/// Restricting the fill to a band never undercuts the exact cost: the
/// banded value of every cell dominates the unrestricted one.
pub proof fn lemma_wcell_ge_cell(
    o: STRACDistance,
    w: DynamicWindow,
    a: Seq<TokenID>,
    b: Seq<TokenID>,
    i: int,
    j: int,
)
    requires
        o.wf(),
        0 <= i,
        0 <= j,
    ensures
        wcell(o, w, a, b, i, j) >= cell(o, a, b, i, j),
    decreases i, j,
{
    lemma_cell_bounds(o, a, b, i, j);
    if !w.in_range_spec(i, j) {
    } else if i <= 0 || j <= 0 {
    } else {
        lemma_wcell_ge_cell(o, w, a, b, i - 1, j - 1);
        lemma_wcell_ge_cell(o, w, a, b, i - 1, j);
        lemma_wcell_ge_cell(o, w, a, b, i, j - 1);
        lemma_wcell_bounds(o, w, a, b, i - 1, j - 1);
        lemma_wcell_bounds(o, w, a, b, i - 1, j);
        lemma_wcell_bounds(o, w, a, b, i, j - 1);
    }
}

/// Under a window that admits every column up to `jmax` in every row,
/// the banded recurrence agrees with the exact one cell by cell: the
/// band forces nothing out.
pub proof fn lemma_wcell_full(
    o: STRACDistance,
    w: DynamicWindow,
    a: Seq<TokenID>,
    b: Seq<TokenID>,
    i: int,
    j: int,
    jmax: int,
)
    requires
        o.wf(),
        w.wf(),
        0 <= i < w.height(),
        0 <= j <= jmax,
        forall|r: int|
            0 <= r < w.height() ==> (#[trigger] w.min_at(r)) == Some(0usize) && w.max_at(r) is Some
                && jmax <= w.max_at(r).unwrap(),
    ensures
        wcell(o, w, a, b, i, j) == cell(o, a, b, i, j),
    decreases i, j,
{
    assert(w.in_range_spec(i, j));
    if i > 0 && j > 0 {
        lemma_wcell_full(o, w, a, b, i - 1, j - 1, jmax);
        lemma_wcell_full(o, w, a, b, i - 1, j, jmax);
        lemma_wcell_full(o, w, a, b, i, j - 1, jmax);
    }
}

/// The banded cost matrix as a mathematical object.
pub open spec fn wcell_mat(
    o: STRACDistance,
    w: DynamicWindow,
    a: Seq<TokenID>,
    b: Seq<TokenID>,
) -> Seq<Seq<u64>> {
    Seq::new(
        (a.len() + 1) as nat,
        |i: int| Seq::new((b.len() + 1) as nat, |j: int| wcell(o, w, a, b, i, j) as u64),
    )
}

/// DTW restricted to a dynamic band.
pub struct WindowedDTW<'a> {
    pub window: DynamicWindow,
    pub distance: &'a STRACDistance,
}

impl<'a> WindowedDTW<'a> {
    pub fn new(window: DynamicWindow, distance: &'a STRACDistance) -> (r: Self)
        ensures
            r.window == window,
            r.distance == distance,
    {
        WindowedDTW { window, distance }
    }

    /// Fills only the in-window cells of each row, reads the cost at
    /// the bottom-right corner, and walks the path back from it under
    /// the same band.
    pub fn calculate<A: Accesor>(&self, chain1: &A, chain2: &A) -> (r: DTWResult)
        requires
            self.distance.wf(),
            self.window.wf(),
            chain1.tokens().len() < usize::MAX,
            chain2.tokens().len() < usize::MAX,
            self.window.height() > chain1.tokens().len(),
        ensures
            ({
                let o = *self.distance;
                let w = self.window;
                let a_s = chain1.tokens();
                let b_s = chain2.tokens();
                let n = a_s.len() as int;
                let m = b_s.len() as int;
                &&& r.0 == wcell(o, w, a_s, b_s, n, m)
                &&& r.0 <= INF
                &&& r.1 matches Some(p) && {
                    &&& p.0@ == walk(wcell_mat(o, w, a_s, b_s), Some(w), n, m)
                    &&& path_ok(p.0@, n, m)
                    &&& p.1 == 0usize
                    &&& p.2 == 0usize
                }
            }),
    {
        let ghost o = *self.distance;
        let ghost w = self.window;
        let ghost a_s = chain1.tokens();
        let ghost b_s = chain2.tokens();
        let n = chain1.size();
        let m = chain2.size();
        let gapc = self.distance.gap_cost();

        let mut mat: Vec<Vec<u64>> = Vec::new();
        let mut col0: u64 = 0;
        let mut i: usize = 0;
        while i <= n
            invariant
                i <= n + 1,
                n == a_s.len(),
                m == b_s.len(),
                n < usize::MAX,
                m < usize::MAX,
                o.wf(),
                o == *self.distance,
                w == self.window,
                w.wf(),
                w.height() > n,
                a_s == chain1.tokens(),
                b_s == chain2.tokens(),
                gapc == o.gap_cost,
                mat@.len() == i,
                col0 == capgap(o, i as int) as u64,
                forall|r: int| 0 <= r < i ==> (#[trigger] mat@[r])@.len() == m + 1,
                forall|r: int, c: int|
                    0 <= r < i && 0 <= c <= m ==> (#[trigger] mat@[r]@[c]) == wcell(
                        o,
                        w,
                        a_s,
                        b_s,
                        r,
                        c,
                    ) as u64,
            decreases n + 1 - i,
        {
            proof {
                lemma_capgap_bounds(o, i as int);
            }
            let limits = self.window.get_limits(i);
            let mut row: Vec<u64> = Vec::new();
            let mut gacc: u64 = 0;
            let mut j: usize = 0;
            while j <= m
                invariant
                    j <= m + 1,
                    i <= n,
                    n == a_s.len(),
                    m == b_s.len(),
                    n < usize::MAX,
                    m < usize::MAX,
                    o.wf(),
                    o == *self.distance,
                    w == self.window,
                    w.wf(),
                    w.height() > n,
                    a_s == chain1.tokens(),
                    b_s == chain2.tokens(),
                    gapc == o.gap_cost,
                    limits.0 == w.min_at(i as int),
                    limits.1 == w.max_at(i as int),
                    mat@.len() == i,
                    col0 == capgap(o, i as int) as u64,
                    gacc == capgap(o, j as int) as u64,
                    forall|r: int| 0 <= r < i ==> (#[trigger] mat@[r])@.len() == m + 1,
                    forall|r: int, c: int|
                        0 <= r < i && 0 <= c <= m ==> (#[trigger] mat@[r]@[c]) == wcell(
                            o,
                            w,
                            a_s,
                            b_s,
                            r,
                            c,
                        ) as u64,
                    row@.len() == j,
                    forall|c: int|
                        0 <= c < j ==> (#[trigger] row@[c]) == wcell(o, w, a_s, b_s, i as int, c) as u64,
                decreases m + 1 - j,
            {
                proof {
                    lemma_capgap_bounds(o, j as int);
                }
                let in_window = match limits {
                    (Some(mn), Some(mx)) => mn <= j && j <= mx,
                    _ => false,
                };
                proof {
                    assert(in_window == w.in_range_spec(i as int, j as int));
                }
                let val: u64;
                if !in_window {
                    val = INF;
                } else if i == 0 && j == 0 {
                    val = 0;
                } else if i == 0 {
                    val = gacc;
                } else if j == 0 {
                    val = col0;
                } else {
                    let a_tok = chain1.get(i - 1);
                    let b_tok = chain2.get(j - 1);
                    let d = self.distance.distance(a_tok, b_tok);
                    proof {
                        lemma_wcell_bounds(o, w, a_s, b_s, i as int - 1, j as int - 1);
                        lemma_wcell_bounds(o, w, a_s, b_s, i as int - 1, j as int);
                        lemma_wcell_bounds(o, w, a_s, b_s, i as int, j as int - 1);
                    }
                    let prev: &Vec<u64> = &mat[i - 1];
                    let diag = cap_add(d, prev[j - 1]);
                    let up = cap_add(gapc, prev[j]);
                    let left = cap_add(gapc, row[j - 1]);
                    val = umin(umin(diag, up), left);
                }
                proof {
                    lemma_wcell_bounds(o, w, a_s, b_s, i as int, j as int);
                    assert(val == wcell(o, w, a_s, b_s, i as int, j as int) as u64);
                }
                row.push(val);
                gacc = cap_add(gacc, gapc);
                j = j + 1;
            }
            mat.push(row);
            col0 = cap_add(col0, gapc);
            i = i + 1;
        }

        let cost = mat[n][m];
        proof {
            assert(mat_view(&mat) =~~= wcell_mat(o, w, a_s, b_s));
            lemma_wcell_bounds(o, w, a_s, b_s, n as int, m as int);
        }
        let path = get_warp_path(&mat, Some(&self.window));
        (cost, Some(path))
    }
}

/// Cells of a forward path never move backwards: every earlier cell
/// is componentwise at most every later one.
pub proof fn lemma_fpath_cells_le(p: Seq<OP>, j: int, k: int)
    requires
        forall|k1: int, k2: int|
            #![trigger p[k1], p[k2]]
            0 <= k1 && k2 == k1 + 1 && k2 < p.len() ==> fstep_ok(p[k1], p[k2]),
        0 <= j <= k < p.len(),
    ensures
        p[j].0 <= p[k].0,
        p[j].1 <= p[k].1,
    decreases k - j,
{
    if j < k {
        lemma_fpath_cells_le(p, j, k - 1);
        assert(fstep_ok(p[k - 1], p[k]));
    }
}

/// Dropping the last cell of a forward path leaves a forward path to
/// its second-to-last cell.
pub proof fn lemma_fpath_prefix(p: Seq<OP>, n: int, m: int)
    requires
        fpath_ok(p, n, m),
        p.len() >= 2,
    ensures
        fpath_ok(p.drop_last(), p[p.len() - 2].0 as int, p[p.len() - 2].1 as int),
{
    let q = p.drop_last();
    let prev = p[p.len() - 2];
    assert(q.len() == p.len() - 1);
    assert(q[0] == p[0]);
    assert(q[q.len() - 1] == prev);
    assert forall|k: int| 0 <= k < q.len() implies (#[trigger] q[k]).0 <= prev.0 && q[k].1
        <= prev.1 by {
        assert(q[k] == p[k]);
        lemma_fpath_cells_le(p, k, p.len() - 2);
    }
    assert forall|k1: int, k2: int|
        #![trigger q[k1], q[k2]]
        0 <= k1 && k2 == k1 + 1 && k2 < q.len() implies fstep_ok(q[k1], q[k2]) by {
        assert(q[k1] == p[k1]);
        assert(q[k2] == p[k2]);
    }
}

/// The banded cost at the end of any forward path that stays inside
/// the band is at most that path's own cost: a band that contains a
/// path can always afford to follow it.
pub proof fn lemma_wcell_le_path(
    o: STRACDistance,
    w: DynamicWindow,
    a: Seq<TokenID>,
    b: Seq<TokenID>,
    p: Seq<OP>,
    n: int,
    m: int,
)
    requires
        o.wf(),
        0 <= n,
        0 <= m,
        fpath_ok(p, n, m),
        forall|k: int|
            0 <= k < p.len() ==> w.in_range_spec((#[trigger] p[k]).0 as int, p[k].1 as int),
    ensures
        wcell(o, w, a, b, n, m) <= fpath_cost(o, a, b, p),
    decreases p.len(),
{
    if p.len() == 1 {
        assert(n == 0 && m == 0);
        assert(w.in_range_spec(0, 0));
        assert(wcell(o, w, a, b, 0, 0) == 0);
    } else {
        let prev = p[p.len() - 2];
        let last = p[p.len() - 1];
        let q = p.drop_last();
        lemma_fpath_prefix(p, n, m);
        assert forall|k: int|
            0 <= k < q.len() implies w.in_range_spec((#[trigger] q[k]).0 as int, q[k].1 as int) by {
            assert(q[k] == p[k]);
        }
        lemma_wcell_le_path(o, w, a, b, q, prev.0 as int, prev.1 as int);
        let wprev = wcell(o, w, a, b, prev.0 as int, prev.1 as int);
        let qc = fpath_cost(o, a, b, q);
        let step = fstep_cost(o, a, b, prev, last);
        assert(fpath_cost(o, a, b, p) == cap_add_spec(qc, step));
        assert(fstep_ok(prev, last));
        assert(w.in_range_spec(n, m));
        assert(w.in_range_spec(prev.0 as int, prev.1 as int));
        lemma_wcell_bounds(o, w, a, b, prev.0 as int, prev.1 as int);
        if last.0 == prev.0 + 1 && last.1 == prev.1 + 1 {
            // Diagonal step into (n, m).
            assert(n > 0 && m > 0);
            assert(wcell(o, w, a, b, n, m) <= cap_add_spec(
                sdist(o, a[n - 1], b[m - 1]),
                wcell(o, w, a, b, n - 1, m - 1),
            ));
            lemma_cap_add_monotone(sdist(o, a[n - 1], b[m - 1]), wprev, step, qc);
            assert(cap_add_spec(sdist(o, a[n - 1], b[m - 1]), wprev) <= cap_add_spec(step, qc));
            assert(cap_add_spec(step, qc) == cap_add_spec(qc, step));
        } else if last.0 == prev.0 + 1 && last.1 == prev.1 {
            // Vertical step: one gap.
            assert(n > 0);
            if m == 0 {
                assert(wcell(o, w, a, b, n, 0) == capgap(o, n));
                assert(wprev == (if prev.0 == 0 {
                    0int
                } else {
                    capgap(o, n - 1)
                }));
                assert(wprev == capgap(o, n - 1));
                assert(capgap(o, n) == cap_add_spec(capgap(o, n - 1), o.gap_cost as int));
                lemma_cap_add_monotone(capgap(o, n - 1), o.gap_cost as int, qc, step);
            } else {
                assert(wcell(o, w, a, b, n, m) <= cap_add_spec(
                    o.gap_cost as int,
                    wcell(o, w, a, b, n - 1, m),
                ));
                lemma_cap_add_monotone(o.gap_cost as int, wprev, step, qc);
                assert(cap_add_spec(step, qc) == cap_add_spec(qc, step));
            }
        } else {
            // Horizontal step: one gap.
            assert(last.0 == prev.0 && last.1 == prev.1 + 1);
            assert(m > 0);
            if n == 0 {
                assert(wcell(o, w, a, b, 0, m) == capgap(o, m));
                assert(wprev == (if prev.1 == 0 {
                    0int
                } else {
                    capgap(o, m - 1)
                }));
                assert(wprev == capgap(o, m - 1));
                assert(capgap(o, m) == cap_add_spec(capgap(o, m - 1), o.gap_cost as int));
                lemma_cap_add_monotone(capgap(o, m - 1), o.gap_cost as int, qc, step);
            } else {
                assert(wcell(o, w, a, b, n, m) <= cap_add_spec(
                    o.gap_cost as int,
                    wcell(o, w, a, b, n, m - 1),
                ));
                lemma_cap_add_monotone(o.gap_cost as int, wprev, step, qc);
                assert(cap_add_spec(step, qc) == cap_add_spec(qc, step));
            }
        }
    }
}

/// When a band contains a forward path that realises the exact cost,
/// restricting the fill to the band loses nothing: the banded corner
/// agrees with the exact one.
pub proof fn lemma_wcell_exact_when_path_covered(
    o: STRACDistance,
    w: DynamicWindow,
    a: Seq<TokenID>,
    b: Seq<TokenID>,
    p: Seq<OP>,
    n: int,
    m: int,
)
    requires
        o.wf(),
        0 <= n,
        0 <= m,
        fpath_ok(p, n, m),
        forall|k: int|
            0 <= k < p.len() ==> w.in_range_spec((#[trigger] p[k]).0 as int, p[k].1 as int),
        fpath_cost(o, a, b, p) == cell(o, a, b, n, m),
    ensures
        wcell(o, w, a, b, n, m) == cell(o, a, b, n, m),
{
    lemma_wcell_le_path(o, w, a, b, p, n, m);
    lemma_wcell_ge_cell(o, w, a, b, n, m);
}

/// Widening the band never increases any cell: every cell a narrower
/// band admits, a wider band values at most as high, so more radius
/// only moves the banded cost towards the exact one.
pub proof fn lemma_wcell_band_monotone(
    o: STRACDistance,
    w1: DynamicWindow,
    w2: DynamicWindow,
    a: Seq<TokenID>,
    b: Seq<TokenID>,
    i: int,
    j: int,
)
    requires
        o.wf(),
        0 <= i,
        0 <= j,
        forall|r: int, c: int| #[trigger] w1.in_range_spec(r, c) ==> w2.in_range_spec(r, c),
    ensures
        wcell(o, w2, a, b, i, j) <= wcell(o, w1, a, b, i, j),
    decreases i, j,
{
    lemma_wcell_bounds(o, w2, a, b, i, j);
    if !w1.in_range_spec(i, j) {
    } else if i <= 0 || j <= 0 {
        assert(w2.in_range_spec(i, j));
    } else {
        assert(w2.in_range_spec(i, j));
        lemma_wcell_band_monotone(o, w1, w2, a, b, i - 1, j - 1);
        lemma_wcell_band_monotone(o, w1, w2, a, b, i - 1, j);
        lemma_wcell_band_monotone(o, w1, w2, a, b, i, j - 1);
        lemma_wcell_bounds(o, w1, a, b, i - 1, j - 1);
        lemma_wcell_bounds(o, w1, a, b, i - 1, j);
        lemma_wcell_bounds(o, w1, a, b, i, j - 1);
        lemma_cap_add_monotone(
            sdist(o, a[i - 1], b[j - 1]),
            wcell(o, w2, a, b, i - 1, j - 1),
            sdist(o, a[i - 1], b[j - 1]),
            wcell(o, w1, a, b, i - 1, j - 1),
        );
        lemma_cap_add_monotone(
            o.gap_cost as int,
            wcell(o, w2, a, b, i - 1, j),
            o.gap_cost as int,
            wcell(o, w1, a, b, i - 1, j),
        );
        lemma_cap_add_monotone(
            o.gap_cost as int,
            wcell(o, w2, a, b, i, j - 1),
            o.gap_cost as int,
            wcell(o, w1, a, b, i, j - 1),
        );
    }
}

} // verus!
