//! The cost grid, the wrapping cost increment, and the expansion transform.

use vstd::prelude::*;
use vstd::arithmetic::div_mod::lemma_fundamental_div_mod_converse;

verus! {

/// Largest number of cells a grid may have for the solver's distance
/// arithmetic to stay far away from `usize` overflow on any platform.
pub const MAX_CELLS: usize = 0x800_0000;

/// A rectangular grid of per-cell traversal costs, each in 1..=9.
#[derive(Debug)]
pub struct Cave {
    risk_levels: Vec<Vec<u8>>,
    dims: (usize, usize),
}

/// A well-formed grid: at least one row and one column, every row of the
/// same length, every cost in 1..=9.
pub open spec fn wf_grid(g: Seq<Seq<u8>>) -> bool {
    &&& g.len() >= 1
    &&& g[0].len() >= 1
    &&& forall|i: int| 0 <= i < g.len() ==> (#[trigger] g[i]).len() == g[0].len()
    &&& forall|i: int, j: int|
        0 <= i < g.len() && 0 <= j < g[0].len() ==> 1 <= #[trigger] g[i][j] <= 9
}

impl View for Cave {
    type V = Seq<Seq<u8>>;

    closed spec fn view(&self) -> Seq<Seq<u8>> {
        Seq::new(self.risk_levels@.len(), |i: int| self.risk_levels@[i]@)
    }
}

impl Cave {
    /// The stored row and column counts agree with the data.
    pub closed spec fn dims_ok(&self) -> bool {
        &&& self.dims.0 == self@.len()
        &&& self.dims.1 == self@[0].len()
    }

    /// The stored row and column counts agree with the data and the data
    /// is a well-formed grid.
    pub open spec fn wf(&self) -> bool {
        &&& wf_grid(self@)
        &&& self.dims_ok()
    }

    /// Number of rows.
    pub fn rows(&self) -> (r: usize)
        requires
            self.wf(),
        ensures
            r == self@.len(),
    {
        self.dims.0
    }

    /// Number of columns.
    pub fn cols(&self) -> (r: usize)
        requires
            self.wf(),
        ensures
            r == self@[0].len(),
    {
        self.dims.1
    }

    /// The cost of the cell in row `i`, column `j`.
    pub fn get(&self, i: usize, j: usize) -> (r: u8)
        requires
            self.wf(),
            i < self@.len(),
            j < self@[0].len(),
        ensures
            r == self@[i as int][j as int],
    {
        proof {
            assert(self@[i as int] == self.risk_levels@[i as int]@);
            assert(self@[i as int].len() == self@[0].len());
        }
        self.risk_levels[i][j]
    }

    /// Builds a `Cave` from rows already known to form a well-formed grid.
    pub(crate) fn from_rows(rows: Vec<Vec<u8>>) -> (r: Cave)
        requires
            wf_grid(Seq::new(rows@.len(), |i: int| rows@[i]@)),
        ensures
            r.wf(),
            r@ == Seq::new(rows@.len(), |i: int| rows@[i]@),
    {
        let ghost gv = Seq::new(rows@.len(), |i: int| rows@[i]@);
        let n = rows.len();
        let m = rows[0].len();
        let c = Cave { risk_levels: rows, dims: (n, m) };
        proof {
            assert(c@ =~= gv);
        }
        c
    }
}

/// The wrapping cost increment: costs cycle 1, 2, ..., 9, 1, 2, ...
/// as they grow instead of increasing without bound.
pub open spec fn wrap_spec(x: int) -> int {
    (x - 1) % 9 + 1
}

/// Wraps a cost that has grown past 9 back into 1..=9.
pub fn clamp(r: u8) -> (w: u8)
    requires
        r >= 1,
    ensures
        w as int == wrap_spec(r as int),
        1 <= w <= 9,
{
    ((r - 1) % 9) + 1
}

/// The expanded grid: the input tiled five by five, the copy in tile
/// `(k, l)` having every cost incremented by `k + l` and wrapped back
/// into 1..=9.
pub open spec fn expand_spec(g: Seq<Seq<u8>>) -> Seq<Seq<u8>> {
    let n = g.len() as int;
    let m = g[0].len() as int;
    Seq::new(
        (5 * n) as nat,
        |s: int|
            Seq::new(
                (5 * m) as nat,
                |t: int| wrap_spec(g[s % n][t % m] + s / n + t / m) as u8,
            ),
    )
}

/// The expansion transform: a newly allocated grid five times larger in
/// each dimension, tiling the input with the wrapping cost increment.
/// The result is a pure function of the input, which is left unchanged.
pub fn part2(cave: &Cave) -> (r: Cave)
    requires
        cave.wf(),
        cave@.len() * cave@[0].len() <= MAX_CELLS,
    ensures
        r.wf(),
        r@ == expand_spec(cave@),
        r@.len() == 5 * cave@.len(),
        r@[0].len() == 5 * cave@[0].len(),
{
    let ghost g = cave@;
    let n = cave.rows();
    let m = cave.cols();
    proof {
        assert(n <= n * m && m <= n * m) by (nonlinear_arith)
            requires n >= 1 && m >= 1;
    }
    let mut new_rows: Vec<Vec<u8>> = Vec::new();
    let mut k: usize = 0;
    while k < 5
        invariant
            cave.wf(),
            g == cave@,
            n == g.len(),
            m == g[0].len(),
            1 <= n <= MAX_CELLS,
            1 <= m <= MAX_CELLS,
            k <= 5,
            new_rows@.len() == k * n,
            forall|s: int|
                0 <= s < k * n ==> (#[trigger] new_rows@[s])@ == expand_spec(g)[s],
        decreases 5 - k,
    {
        let mut i: usize = 0;
        while i < n
            invariant
                cave.wf(),
                g == cave@,
                n == g.len(),
                m == g[0].len(),
                1 <= n <= MAX_CELLS,
                1 <= m <= MAX_CELLS,
                k < 5,
                i <= n,
                new_rows@.len() == k * n + i,
                forall|s: int|
                    0 <= s < k * n + i ==> (#[trigger] new_rows@[s])@ == expand_spec(g)[s],
            decreases n - i,
        {
            let ghost s = (k * n + i) as int;
            proof {
                assert(0 <= s < 5 * n) by (nonlinear_arith)
                    requires
                        s == k * n + i,
                        0 <= k < 5,
                        0 <= i < n,
                ;
            }
            let mut row: Vec<u8> = Vec::new();
            let mut l: usize = 0;
            while l < 5
                invariant
                    cave.wf(),
                    g == cave@,
                    n == g.len(),
                    m == g[0].len(),
                    1 <= n <= MAX_CELLS,
                    1 <= m <= MAX_CELLS,
                    k < 5,
                    i < n,
                    l <= 5,
                    s == k * n + i,
                    0 <= s < 5 * n,
                    row@.len() == l * m,
                    forall|t: int| 0 <= t < l * m ==> #[trigger] row@[t] == expand_spec(g)[s][t],
                decreases 5 - l,
            {
                let mut j: usize = 0;
                while j < m
                    invariant
                        cave.wf(),
                        g == cave@,
                        n == g.len(),
                        m == g[0].len(),
                        1 <= n <= MAX_CELLS,
                        1 <= m <= MAX_CELLS,
                        k < 5,
                        i < n,
                        l < 5,
                        j <= m,
                        s == k * n + i,
                        0 <= s < 5 * n,
                        row@.len() == l * m + j,
                        forall|t: int|
                            0 <= t < l * m + j ==> #[trigger] row@[t] == expand_spec(g)[s][t],
                    decreases m - j,
                {
                    let ghost t = (l * m + j) as int;
                    let v = cave.get(i, j);
                    let w = clamp(v + (k as u8) + (l as u8));
                    proof {
                        lemma_fundamental_div_mod_converse(s, n as int, k as int, i as int);
                        lemma_fundamental_div_mod_converse(t, m as int, l as int, j as int);
                        assert(0 <= t < 5 * m) by (nonlinear_arith)
                            requires
                                t == l * m + j,
                                0 <= l < 5,
                                0 <= j < m,
                        ;
                        assert(expand_spec(g)[s][t] == wrap_spec(
                            g[s % (n as int)][t % (m as int)] + s / (n as int) + t / (m as int),
                        ) as u8);
                        assert(w == expand_spec(g)[s][t]);
                    }
                    row.push(w);
                    j += 1;
                }
                proof {
                    assert((l + 1) * m == l * m + m) by (nonlinear_arith);
                }
                l += 1;
            }
            proof {
                assert(row@.len() == 5 * m);
                assert(expand_spec(g)[s].len() == 5 * m);
                assert(row@ =~= expand_spec(g)[s]);
            }
            new_rows.push(row);
            i += 1;
        }
        proof {
            assert((k + 1) * n == k * n + n) by (nonlinear_arith);
        }
        k += 1;
    }
    let ghost dv = Seq::new(new_rows@.len(), |s: int| new_rows@[s]@);
    proof {
        assert(new_rows@.len() == 5 * n);
        assert(dv =~= expand_spec(g));
        assert(dv[0].len() == 5 * m);
        assert forall|s: int, t: int|
            0 <= s < dv.len() && 0 <= t < dv[0].len() implies 1 <= #[trigger] dv[s][t] <= 9 by {
            assert(dv[s][t] == expand_spec(g)[s][t]);
            assert(0 <= (g[s % (n as int)][t % (m as int)] + s / (n as int) + t / (m as int) - 1)
                % 9 < 9);
        }
        assert forall|s: int| 0 <= s < dv.len() implies (#[trigger] dv[s]).len() == dv[0].len() by {
            assert(dv[s] == expand_spec(g)[s]);
        }
        assert(wf_grid(dv));
    }
    Cave::from_rows(new_rows)
}

} // verus!
