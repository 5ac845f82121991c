//! Core DTW engine: cost model, distance oracle, sequence accessors and
//! the exact alignment algorithms.
//!
//! Costs are unsigned integers that saturate at the sentinel [`INF`]:
//! the sentinel stands for "forbidden" and, because additions cap at it,
//! it never overflows when propagated through the recurrence.  The
//! normative cost of aligning the prefixes `a[..i]` and `b[..j]` is the
//! spec function [`cell`]; every variant's contract is stated against it.

use vstd::prelude::*;

pub use crate::fast::FastDTW;
pub use crate::path::get_warp_path;
pub use crate::windowed::WindowedDTW;
pub use crate::window::DynamicWindow;

use crate::path::{mat_view, path_ok, walk};

verus! {

/// Identifier of a trace token: dense, assigned in first-seen order.
pub type TokenID = u64;

/// One cell of a warping path.
pub type OP = (usize, usize);

/// Cost plus, when the variant provides one, a warping path in reverse
/// order together with the minimum row and column indices it reached.
pub type DTWResult = (u64, Option<(Vec<OP>, usize, usize)>);

/// Sentinel for forbidden cells.  Large enough that no realistic sum of
/// finite costs reaches it, small enough that capped additions never
/// overflow the machine word.
pub const INF: u64 = 0x1000_0000_0000_0000;

/// Sum capped at the sentinel, so the sentinel absorbs additions.
pub open spec fn cap_add_spec(a: int, b: int) -> int {
    if a + b >= INF { INF as int } else { a + b }
}

/// Exec counterpart of [`cap_add_spec`].
pub fn cap_add(a: u64, b: u64) -> (r: u64)
    requires
        a <= INF,
        b <= INF,
    ensures
        r == cap_add_spec(a as int, b as int),
{
    if a >= INF || b >= INF {
        INF
    } else if a + b >= INF {
        INF
    } else {
        a + b
    }
}

pub open spec fn min2(a: int, b: int) -> int {
    if a <= b { a } else { b }
}

pub open spec fn min3(a: int, b: int, c: int) -> int {
    min2(min2(a, b), c)
}

/// Exec minimum of two costs.
pub fn umin(a: u64, b: u64) -> (r: u64)
    ensures
        r == min2(a as int, b as int),
{
    if a <= b { a } else { b }
}

/// The substitution/gap cost oracle: tokenwise match or mismatch cost
/// plus a constant gap cost.
pub struct STRACDistance {
    pub gap_cost: u64,
    pub match_cost: u64,
    pub mismatch_cost: u64,
}

impl STRACDistance {
    /// All costs stay below the sentinel, so capped sums are exact
    /// until they saturate.
    pub open spec fn wf(self) -> bool {
        &&& self.gap_cost <= INF
        &&& self.match_cost <= INF
        &&& self.mismatch_cost <= INF
    }

    pub fn new(gap_cost: u64, mismatch_cost: u64, match_cost: u64) -> (r: Self)
        requires
            gap_cost <= INF,
            mismatch_cost <= INF,
            match_cost <= INF,
        ensures
            r.wf(),
            r.gap_cost == gap_cost,
            r.mismatch_cost == mismatch_cost,
            r.match_cost == match_cost,
    {
        STRACDistance { gap_cost, match_cost, mismatch_cost }
    }

    /// The substitution cost between two token ids.
    #[inline]
    pub fn distance(&self, a: TokenID, b: TokenID) -> (r: u64)
        ensures
            r == sdist(*self, a, b),
    {
        if a == b {
            self.match_cost
        } else {
            self.mismatch_cost
        }
    }

    /// The constant insertion/deletion cost.
    #[inline]
    pub fn gap_cost(&self) -> (r: u64)
        ensures
            r == self.gap_cost,
    {
        self.gap_cost
    }
}

impl Default for STRACDistance {
    /// The default oracle: gap 1, match 0, mismatch 3.
    fn default() -> (r: Self)
        ensures
            r.wf(),
            r.gap_cost == 1u64,
            r.match_cost == 0u64,
            r.mismatch_cost == 3u64,
    {
        STRACDistance { gap_cost: 1, match_cost: 0, mismatch_cost: 3 }
    }
}

/// Substitution cost of the tokenwise oracle, as a mathematical value.
pub open spec fn sdist(o: STRACDistance, a: TokenID, b: TokenID) -> int {
    if a == b { o.match_cost as int } else { o.mismatch_cost as int }
}

/// `k` gap costs summed with capping: the boundary of the cost matrix.
pub open spec fn capgap(o: STRACDistance, k: int) -> int
    decreases k,
{
    if k <= 0 { 0 } else { cap_add_spec(capgap(o, k - 1), o.gap_cost as int) }
}

/// The normative DTW recurrence: minimum capped cost of aligning
/// `a[..i]` with `b[..j]`.
pub open spec fn cell(o: STRACDistance, a: Seq<TokenID>, b: Seq<TokenID>, i: int, j: int) -> int
    decreases i, j,
{
    if i <= 0 && j <= 0 {
        0
    } else if i <= 0 {
        capgap(o, j)
    } else if j <= 0 {
        capgap(o, i)
    } else {
        min3(
            cap_add_spec(sdist(o, a[i - 1], b[j - 1]), cell(o, a, b, i - 1, j - 1)),
            cap_add_spec(o.gap_cost as int, cell(o, a, b, i - 1, j)),
            cap_add_spec(o.gap_cost as int, cell(o, a, b, i, j - 1)),
        )
    }
}

pub proof fn lemma_capgap_bounds(o: STRACDistance, k: int)
    requires
        o.wf(),
    ensures
        0 <= capgap(o, k) <= INF,
    decreases k,
{
    if k > 0 {
        lemma_capgap_bounds(o, k - 1);
    }
}

/// Every cell of the cost matrix lies between zero and the sentinel.
pub proof fn lemma_cell_bounds(o: STRACDistance, a: Seq<TokenID>, b: Seq<TokenID>, i: int, j: int)
    requires
        o.wf(),
    ensures
        0 <= cell(o, a, b, i, j) <= INF,
    decreases i, j,
{
    if i <= 0 && j <= 0 {
    } else if i <= 0 {
        lemma_capgap_bounds(o, j);
    } else if j <= 0 {
        lemma_capgap_bounds(o, i);
    } else {
        lemma_cell_bounds(o, a, b, i - 1, j - 1);
        lemma_cell_bounds(o, a, b, i - 1, j);
        lemma_cell_bounds(o, a, b, i, j - 1);
    }
}

/// The warping distance of any sequence prefix pair is symmetric:
/// swapping the sequences transposes the matrix.  Holds because the
/// tokenwise substitution cost is itself symmetric.
pub proof fn lemma_cell_symmetric(
    o: STRACDistance,
    a: Seq<TokenID>,
    b: Seq<TokenID>,
    i: int,
    j: int,
)
    ensures
        cell(o, a, b, i, j) == cell(o, b, a, j, i),
    decreases i, j,
{
    if i > 0 && j > 0 {
        lemma_cell_symmetric(o, a, b, i - 1, j - 1);
        lemma_cell_symmetric(o, a, b, i - 1, j);
        lemma_cell_symmetric(o, a, b, i, j - 1);
    }
}

/// Aligning a prefix of a sequence with itself costs nothing whenever
/// matches are free: the diagonal dominates every alternative.
pub proof fn lemma_cell_self_zero(o: STRACDistance, a: Seq<TokenID>, k: int)
    requires
        o.wf(),
        o.match_cost == 0,
        k <= a.len(),
    ensures
        cell(o, a, a, k, k) == 0,
    decreases k,
{
    if k > 0 {
        lemma_cell_self_zero(o, a, k - 1);
        lemma_cell_bounds(o, a, a, k - 1, k);
        lemma_cell_bounds(o, a, a, k, k - 1);
        assert(sdist(o, a[k - 1], a[k - 1]) == 0);
        assert(cap_add_spec(sdist(o, a[k - 1], a[k - 1]), cell(o, a, a, k - 1, k - 1)) == 0);
    }
}

/// The even-indexed half of a sequence, the coarsening step of FastDTW.
pub open spec fn half_seq(s: Seq<TokenID>) -> Seq<TokenID> {
    Seq::new((s.len() / 2) as nat, |k: int| s[2 * k])
}

/// Halving twice keeps every fourth element: the element at position
/// `k` of `half(half(a))` is `a[4 k]`.
pub proof fn lemma_half_twice(s: Seq<TokenID>, k: int)
    requires
        0 <= k < half_seq(half_seq(s)).len(),
    ensures
        half_seq(half_seq(s)).len() == s.len() / 4,
        half_seq(half_seq(s))[k] == s[4 * k],
{
}

/// Read-only indexed view over a token sequence.
pub trait Accesor: Sized {
    /// The sequence of tokens the accessor exposes.
    spec fn tokens(&self) -> Seq<TokenID>;

    fn get(&self, idx: usize) -> (r: TokenID)
        requires
            idx < self.tokens().len(),
        ensures
            r == self.tokens()[idx as int],
    ;

    fn size(&self) -> (r: usize)
        ensures
            r == self.tokens().len(),
    ;

    /// A new accessor over the even-indexed elements, of half length.
    fn get_half(&self) -> (r: Self)
        ensures
            r.tokens() == half_seq(self.tokens()),
    ;
}

impl Accesor for Vec<TokenID> {
    open spec fn tokens(&self) -> Seq<TokenID> {
        self@
    }

    #[inline]
    fn get(&self, idx: usize) -> (r: TokenID) {
        self[idx]
    }

    #[inline]
    fn size(&self) -> (r: usize) {
        self.len()
    }

    fn get_half(&self) -> (r: Self) {
        let mut v: Vec<TokenID> = Vec::new();
        let n = self.len();
        let half = n / 2;
        let mut i: usize = 0;
        while i < half
            invariant
                i <= half,
                n == self@.len(),
                half == n / 2,
                v@.len() == i,
                forall|k: int| 0 <= k < i ==> v@[k] == self@[2 * k],
            decreases half - i,
        {
            assert(2 * i < n);
            v.push(self[2 * i]);
            i = i + 1;
        }
        proof {
            assert(v@ =~= half_seq(self@));
        }
        v
    }
}

/// The full cost matrix of the exact recurrence, as a mathematical
/// object: row `i`, column `j` holds `cell(o, a, b, i, j)`.
pub open spec fn cell_mat(o: STRACDistance, a: Seq<TokenID>, b: Seq<TokenID>) -> Seq<Seq<u64>> {
    Seq::new(
        (a.len() + 1) as nat,
        |i: int| Seq::new((b.len() + 1) as nat, |j: int| cell(o, a, b, i, j) as u64),
    )
}

/// What the exact full-matrix algorithm returns: the corner cost and
/// the backward walk over the full matrix.
pub open spec fn standard_result(
    o: STRACDistance,
    a: Seq<TokenID>,
    b: Seq<TokenID>,
    r: DTWResult,
) -> bool {
    let n = a.len() as int;
    let m = b.len() as int;
    &&& r.0 == cell(o, a, b, n, m)
    &&& r.1 matches Some(p) && {
        &&& p.0@ == walk(cell_mat(o, a, b), None, n, m)
        &&& path_ok(p.0@, n, m)
        &&& p.1 == 0usize
        &&& p.2 == 0usize
    }
}

/// Exact full-matrix DTW: fills the whole `(n + 1) x (m + 1)` cost
/// matrix and extracts a warping path from it.
pub struct StandardDTW<'a> {
    pub distance: &'a STRACDistance,
}

impl<'a> StandardDTW<'a> {
    pub fn new(distance: &'a STRACDistance) -> (r: StandardDTW<'a>)
        ensures
            r.distance == distance,
    {
        StandardDTW { distance }
    }

    /// Builds the exact cost matrix row by row and walks it back.
    pub fn calculate<A: Accesor>(&self, chain1: &A, chain2: &A) -> (r: DTWResult)
        requires
            self.distance.wf(),
            chain1.tokens().len() < usize::MAX,
            chain2.tokens().len() < usize::MAX,
        ensures
            standard_result(*self.distance, chain1.tokens(), chain2.tokens(), r),
    {
        let ghost o = *self.distance;
        let ghost a_s = chain1.tokens();
        let ghost b_s = chain2.tokens();
        let n = chain1.size();
        let m = chain2.size();
        let gapc = self.distance.gap_cost();

        let mut mat: Vec<Vec<u64>> = Vec::new();
        let mut col0: u64 = 0;
        let mut i: usize = 0;
        while i <= n
            invariant
                i <= n + 1,
                n == a_s.len(),
                m == b_s.len(),
                n < usize::MAX,
                m < usize::MAX,
                o.wf(),
                o == *self.distance,
                a_s == chain1.tokens(),
                b_s == chain2.tokens(),
                gapc == o.gap_cost,
                mat@.len() == i,
                col0 == capgap(o, i as int) as u64,
                forall|r: int| 0 <= r < i ==> (#[trigger] mat@[r])@.len() == m + 1,
                forall|r: int, c: int|
                    0 <= r < i && 0 <= c <= m ==> (#[trigger] mat@[r]@[c]) == cell(
                        o,
                        a_s,
                        b_s,
                        r,
                        c,
                    ) as u64,
            decreases n + 1 - i,
        {
            proof {
                lemma_capgap_bounds(o, i as int);
            }
            let mut row: Vec<u64> = Vec::new();
            row.push(col0);
            let mut j: usize = 1;
            while j <= m
                invariant
                    1 <= j <= m + 1,
                    i <= n,
                    n == a_s.len(),
                    m == b_s.len(),
                    n < usize::MAX,
                    m < usize::MAX,
                    o.wf(),
                    o == *self.distance,
                    a_s == chain1.tokens(),
                    b_s == chain2.tokens(),
                    gapc == o.gap_cost,
                    mat@.len() == i,
                    forall|r: int| 0 <= r < i ==> (#[trigger] mat@[r])@.len() == m + 1,
                    forall|r: int, c: int|
                        0 <= r < i && 0 <= c <= m ==> (#[trigger] mat@[r]@[c]) == cell(
                            o,
                            a_s,
                            b_s,
                            r,
                            c,
                        ) as u64,
                    row@.len() == j,
                    forall|c: int|
                        0 <= c < j ==> (#[trigger] row@[c]) == cell(o, a_s, b_s, i as int, c) as u64,
                decreases m + 1 - j,
            {
                proof {
                    lemma_cell_bounds(o, a_s, b_s, i as int, j - 1);
                }
                let val: u64;
                if i == 0 {
                    val = cap_add(row[j - 1], gapc);
                    proof {
                        lemma_capgap_bounds(o, j - 1);
                        assert(capgap(o, j as int) == cap_add_spec(
                            capgap(o, j as int - 1),
                            o.gap_cost as int,
                        ));
                        assert(val == cell(o, a_s, b_s, 0, j as int) as u64);
                    }
                } else {
                    let a_tok = chain1.get(i - 1);
                    let b_tok = chain2.get(j - 1);
                    let d = self.distance.distance(a_tok, b_tok);
                    proof {
                        lemma_cell_bounds(o, a_s, b_s, i as int - 1, j as int - 1);
                        lemma_cell_bounds(o, a_s, b_s, i as int - 1, j as int);
                    }
                    let prev: &Vec<u64> = &mat[i - 1];
                    let diag = cap_add(d, prev[j - 1]);
                    let up = cap_add(gapc, prev[j]);
                    let left = cap_add(gapc, row[j - 1]);
                    val = umin(umin(diag, up), left);
                    proof {
                        assert(cell(o, a_s, b_s, i as int, j as int) == min3(
                            cap_add_spec(
                                sdist(o, a_s[i as int - 1], b_s[j as int - 1]),
                                cell(o, a_s, b_s, i as int - 1, j as int - 1),
                            ),
                            cap_add_spec(o.gap_cost as int, cell(o, a_s, b_s, i as int - 1, j as int)),
                            cap_add_spec(o.gap_cost as int, cell(o, a_s, b_s, i as int, j as int - 1)),
                        ));
                        lemma_cell_bounds(o, a_s, b_s, i as int, j as int);
                        assert(val == cell(o, a_s, b_s, i as int, j as int) as u64);
                    }
                }
                row.push(val);
                j = j + 1;
            }
            mat.push(row);
            col0 = cap_add(col0, gapc);
            i = i + 1;
        }

        let cost = mat[n][m];
        proof {
            assert(mat_view(&mat) =~~= cell_mat(o, a_s, b_s));
            lemma_cell_bounds(o, a_s, b_s, n as int, m as int);
        }
        let path = get_warp_path(&mat, None);
        (cost, Some(path))
    }
}

/// Exact DTW with the same contract as [`StandardDTW`], kept as a
/// separate entry point for callers that select the variant by name;
/// every access it makes is bounds-checked.
pub struct UnsafeDTW<'a> {
    pub distance: &'a STRACDistance,
}

impl<'a> UnsafeDTW<'a> {
    pub fn new(distance: &'a STRACDistance) -> (r: UnsafeDTW<'a>)
        ensures
            r.distance == distance,
    {
        UnsafeDTW { distance }
    }

    pub fn calculate<A: Accesor>(&self, chain1: &A, chain2: &A) -> (r: DTWResult)
        requires
            self.distance.wf(),
            chain1.tokens().len() < usize::MAX,
            chain2.tokens().len() < usize::MAX,
        ensures
            standard_result(*self.distance, chain1.tokens(), chain2.tokens(), r),
    {
        StandardDTW::new(self.distance).calculate(chain1, chain2)
    }
}

/// Linear-memory exact DTW: two rolling rows, cost only, no path.
pub struct FixedDTW<'a> {
    pub distance: &'a STRACDistance,
}

impl<'a> FixedDTW<'a> {
    pub fn new(distance: &'a STRACDistance) -> (r: FixedDTW<'a>)
        ensures
            r.distance == distance,
    {
        FixedDTW { distance }
    }

    /// Same cost as the full-matrix algorithm, with the shorter chain
    /// on the inner loop so that only two rows are ever live.
    pub fn calculate<A: Accesor>(&self, chain1: &A, chain2: &A) -> (r: DTWResult)
        requires
            self.distance.wf(),
            chain1.tokens().len() < usize::MAX,
            chain2.tokens().len() < usize::MAX,
        ensures
            r.0 == cell(
                *self.distance,
                chain1.tokens(),
                chain2.tokens(),
                chain1.tokens().len() as int,
                chain2.tokens().len() as int,
            ),
            r.1 is None,
    {
        let ghost o = *self.distance;
        let swap = chain1.size() > chain2.size();
        let (short, long): (&A, &A) = if swap {
            (chain2, chain1)
        } else {
            (chain1, chain2)
        };
        let ghost s_s = short.tokens();
        let ghost l_s = long.tokens();
        let slen = short.size();
        let llen = long.size();
        let gapc = self.distance.gap_cost();

        // Row 0: gap multiples.
        let mut prev: Vec<u64> = Vec::new();
        let mut acc: u64 = 0;
        let mut k: usize = 0;
        while k <= slen
            invariant
                k <= slen + 1,
                slen == s_s.len(),
                slen < usize::MAX,
                o.wf(),
                gapc == o.gap_cost,
                acc == capgap(o, k as int) as u64,
                prev@.len() == k,
                forall|c: int| 0 <= c < k ==> (#[trigger] prev@[c]) == capgap(o, c) as u64,
            decreases slen + 1 - k,
        {
            proof {
                lemma_capgap_bounds(o, k as int);
            }
            prev.push(acc);
            acc = cap_add(acc, gapc);
            k = k + 1;
        }
        proof {
            assert forall|c: int| 0 <= c <= slen implies (#[trigger] prev@[c]) == cell(
                o,
                l_s,
                s_s,
                0,
                c,
            ) as u64 by {
                assert(prev@[c] == capgap(o, c) as u64);
            }
        }

        let mut i: usize = 1;
        while i <= llen
            invariant
                1 <= i <= llen + 1,
                slen == s_s.len(),
                llen == l_s.len(),
                slen < usize::MAX,
                llen < usize::MAX,
                o.wf(),
                o == *self.distance,
                s_s == short.tokens(),
                l_s == long.tokens(),
                gapc == o.gap_cost,
                prev@.len() == slen + 1,
                forall|c: int|
                    0 <= c <= slen ==> (#[trigger] prev@[c]) == cell(o, l_s, s_s, i - 1, c) as u64,
            decreases llen + 1 - i,
        {
            let mut curr: Vec<u64> = Vec::new();
            proof {
                lemma_capgap_bounds(o, i as int - 1);
                lemma_cell_bounds(o, l_s, s_s, i as int, 0);
            }
            let l_tok = long.get(i - 1);
            // cell(i, 0) is the gap multiple of i.
            let first = cap_add(prev[0], gapc);
            proof {
                assert(prev@[0] == capgap(o, i - 1) as u64);
                assert(capgap(o, i as int) == cap_add_spec(capgap(o, i - 1), o.gap_cost as int));
                assert(first == cell(o, l_s, s_s, i as int, 0) as u64);
            }
            curr.push(first);
            let mut j: usize = 1;
            while j <= slen
                invariant
                    1 <= j <= slen + 1,
                    1 <= i <= llen,
                    slen == s_s.len(),
                    llen == l_s.len(),
                    slen < usize::MAX,
                    llen < usize::MAX,
                    o.wf(),
                    o == *self.distance,
                    s_s == short.tokens(),
                    l_s == long.tokens(),
                    gapc == o.gap_cost,
                    l_tok == l_s[i - 1],
                    prev@.len() == slen + 1,
                    forall|c: int|
                        0 <= c <= slen ==> (#[trigger] prev@[c]) == cell(o, l_s, s_s, i - 1, c) as u64,
                    curr@.len() == j,
                    forall|c: int|
                        0 <= c < j ==> (#[trigger] curr@[c]) == cell(o, l_s, s_s, i as int, c) as u64,
                decreases slen + 1 - j,
            {
                let s_tok = short.get(j - 1);
                let d = self.distance.distance(s_tok, l_tok);
                proof {
                    lemma_cell_bounds(o, l_s, s_s, i as int - 1, j as int - 1);
                    lemma_cell_bounds(o, l_s, s_s, i as int - 1, j as int);
                    lemma_cell_bounds(o, l_s, s_s, i as int, j as int - 1);
                }
                let diag = cap_add(d, prev[j - 1]);
                let up = cap_add(gapc, prev[j]);
                let left = cap_add(gapc, curr[j - 1]);
                let val = umin(umin(diag, up), left);
                proof {
                    assert(sdist(o, s_s[j as int - 1], l_s[i as int - 1]) == sdist(
                        o,
                        l_s[i as int - 1],
                        s_s[j as int - 1],
                    ));
                    assert(cell(o, l_s, s_s, i as int, j as int) == min3(
                        cap_add_spec(
                            sdist(o, l_s[i as int - 1], s_s[j as int - 1]),
                            cell(o, l_s, s_s, i as int - 1, j as int - 1),
                        ),
                        cap_add_spec(o.gap_cost as int, cell(o, l_s, s_s, i as int - 1, j as int)),
                        cap_add_spec(o.gap_cost as int, cell(o, l_s, s_s, i as int, j as int - 1)),
                    ));
                    lemma_cell_bounds(o, l_s, s_s, i as int, j as int);
                    assert(val == cell(o, l_s, s_s, i as int, j as int) as u64);
                }
                curr.push(val);
                j = j + 1;
            }
            prev = curr;
            i = i + 1;
        }
        let cost = prev[slen];
        proof {
            assert(cost == cell(o, l_s, s_s, llen as int, slen as int) as u64);
            lemma_cell_bounds(o, l_s, s_s, llen as int, slen as int);
            lemma_cell_symmetric(o, l_s, s_s, llen as int, slen as int);
            if swap {
                assert(s_s == chain2.tokens() && l_s == chain1.tokens());
                assert(cell(o, s_s, l_s, slen as int, llen as int) == cell(
                    o,
                    chain2.tokens(),
                    chain1.tokens(),
                    chain2.tokens().len() as int,
                    chain1.tokens().len() as int,
                ));
                lemma_cell_symmetric(
                    o,
                    chain2.tokens(),
                    chain1.tokens(),
                    chain2.tokens().len() as int,
                    chain1.tokens().len() as int,
                );
            }
        }
        (cost, None)
    }
}

/// Gap sums below the sentinel are exact multiples of the gap cost.
pub proof fn lemma_capgap_linear(o: STRACDistance, k: int)
    requires
        o.wf(),
        0 <= k,
        k * o.gap_cost < INF,
    ensures
        capgap(o, k) == k * o.gap_cost,
    decreases k,
{
    if k > 0 {
        assert((k - 1) * o.gap_cost == k * o.gap_cost - o.gap_cost) by (nonlinear_arith);
        assert((k - 1) * o.gap_cost >= 0) by (nonlinear_arith)
            requires
                k >= 1,
                o.gap_cost >= 0,
        ;
        lemma_capgap_linear(o, k - 1);
        assert(capgap(o, k) == cap_add_spec((k - 1) * o.gap_cost, o.gap_cost as int));
        assert((k - 1) * o.gap_cost + o.gap_cost == k * o.gap_cost);
        assert(capgap(o, k) == k * o.gap_cost);
    } else {
        assert(k * o.gap_cost == 0) by (nonlinear_arith)
            requires
                k == 0,
        ;
    }
}

/// An empty first sequence costs one gap per element of the second:
/// the whole first matrix row is gap multiples.
pub proof fn lemma_empty_cost(o: STRACDistance, b: Seq<TokenID>, m: int)
    requires
        o.wf(),
        0 <= m,
        m * o.gap_cost < INF,
    ensures
        cell(o, Seq::<TokenID>::empty(), b, 0, m) == m * o.gap_cost,
{
    lemma_capgap_linear(o, m);
}

/// Two single-element sequences leave one interior cell: its cost is
/// the substitution cost unless two gaps are cheaper.
pub proof fn lemma_single_cell(o: STRACDistance, a: Seq<TokenID>, b: Seq<TokenID>)
    requires
        o.wf(),
        a.len() >= 1,
        b.len() >= 1,
    ensures
        cell(o, a, b, 1, 1) == min2(
            sdist(o, a[0], b[0]),
            cap_add_spec(o.gap_cost as int, o.gap_cost as int),
        ),
{
    assert(capgap(o, 1) == cap_add_spec(capgap(o, 0), o.gap_cost as int));
    assert(capgap(o, 1) == o.gap_cost);
    assert(cell(o, a, b, 0, 0) == 0);
    assert(cell(o, a, b, 0, 1) == capgap(o, 1));
    assert(cell(o, a, b, 1, 0) == capgap(o, 1));
    assert(cell(o, a, b, 1, 1) == min3(
        cap_add_spec(sdist(o, a[0], b[0]), cell(o, a, b, 0, 0)),
        cap_add_spec(o.gap_cost as int, cell(o, a, b, 0, 1)),
        cap_add_spec(o.gap_cost as int, cell(o, a, b, 1, 0)),
    ));
    assert(cap_add_spec(sdist(o, a[0], b[0]), 0) == sdist(o, a[0], b[0]));
}

/// Capped sums are monotone in both arguments.
pub proof fn lemma_cap_add_monotone(a1: int, b1: int, a2: int, b2: int)
    requires
        a1 <= a2,
        b1 <= b2,
    ensures
        cap_add_spec(a1, b1) <= cap_add_spec(a2, b2),
{
}

/// A forward warping path over the `(n + 1) x (m + 1)` grid: starts at
/// the origin, ends at `(n, m)`, and each step advances one row, one
/// column or both.
pub open spec fn fpath_ok(p: Seq<OP>, n: int, m: int) -> bool {
    &&& p.len() >= 1
    &&& p[0] == (0usize, 0usize)
    &&& p[p.len() - 1].0 == n && p[p.len() - 1].1 == m
    &&& forall|k: int| 0 <= k < p.len() ==> (#[trigger] p[k]).0 <= n && p[k].1 <= m
    &&& forall|k1: int, k2: int|
        #![trigger p[k1], p[k2]]
        0 <= k1 && k2 == k1 + 1 && k2 < p.len() ==> fstep_ok(p[k1], p[k2])
}

/// One forward step: down, right, or diagonal.
pub open spec fn fstep_ok(prev: OP, next: OP) -> bool {
    ||| (next.0 == prev.0 + 1 && next.1 == prev.1)
    ||| (next.0 == prev.0 && next.1 == prev.1 + 1)
    ||| (next.0 == prev.0 + 1 && next.1 == prev.1 + 1)
}

/// What one forward step adds to the path cost: the substitution cost
/// of the two tokens the diagonal consumes, or a gap.
pub open spec fn fstep_cost(
    o: STRACDistance,
    a: Seq<TokenID>,
    b: Seq<TokenID>,
    prev: OP,
    next: OP,
) -> int {
    if next.0 == prev.0 + 1 && next.1 == prev.1 + 1 {
        sdist(o, a[next.0 - 1], b[next.1 - 1])
    } else {
        o.gap_cost as int
    }
}

/// The capped cost a forward warping path realises.
pub open spec fn fpath_cost(o: STRACDistance, a: Seq<TokenID>, b: Seq<TokenID>, p: Seq<OP>) -> int
    decreases p.len(),
{
    if p.len() <= 1 {
        0
    } else {
        cap_add_spec(
            fpath_cost(o, a, b, p.drop_last()),
            fstep_cost(o, a, b, p[p.len() - 2], p[p.len() - 1]),
        )
    }
}

} // verus!
