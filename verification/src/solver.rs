//! The shortest-path solver: a priority-driven relaxation search
//! (Dijkstra's algorithm) over a cost grid, proved to return the least
//! possible path cost from the top-left to the bottom-right cell.

use vstd::prelude::*;
use crate::grid::{Cave, MAX_CELLS, wf_grid};
use crate::paths::{
    adjacent, cost_at, dest_of, in_bounds, is_min_cost, is_path, lemma_drop_last_is_path,
    lemma_path_prepend, lemma_path_push, lemma_prefix_cost, lemma_snake_path, path_cost,
    path_from_to, snake,
};

verus! {

/// The flat index of cell `c` in a row-major table with `m` columns.
pub open spec fn flat(m: usize, c: (usize, usize)) -> int {
    c.0 * m + c.1
}

/// The distance recorded for cell `c` in the flat table `d`.
pub open spec fn at(d: Seq<usize>, m: usize, c: (usize, usize)) -> usize {
    d[flat(m, c)]
}

/// Whether cell `c` is marked in the flat boolean table `v`.
pub open spec fn vat(v: Seq<bool>, m: usize, c: (usize, usize)) -> bool {
    v[flat(m, c)]
}

/// The predecessor recorded for cell `c` in the flat table `p`.
pub open spec fn pat(
    p: Seq<Option<(usize, usize)>>,
    m: usize,
    c: (usize, usize),
) -> Option<(usize, usize)> {
    p[flat(m, c)]
}

/// How many entries of `s` are true.
pub open spec fn count_true(s: Seq<bool>) -> int
    decreases s.len(),
{
    if s.len() == 0 {
        0
    } else {
        count_true(s.drop_last()) + if s.last() {
            1int
        } else {
            0int
        }
    }
}

/// The tables have one entry per cell and the origin's distance is zero.
pub open spec fn tables_ok(
    g: Seq<Seq<u8>>,
    m: usize,
    d: Seq<usize>,
    pred: Seq<Option<(usize, usize)>>,
) -> bool {
    &&& wf_grid(g)
    &&& m == g[0].len()
    &&& g.len() * m <= MAX_CELLS
    &&& d.len() == g.len() * m
    &&& pred.len() == g.len() * m
    &&& at(d, m, (0usize, 0usize)) == 0
}

/// What a recorded predecessor edge promises: the predecessor is an
/// on-grid neighbour, both cells have finite distances, and stepping from
/// the predecessor pays for the cell.
pub open spec fn pred_edge_ok(
    g: Seq<Seq<u8>>,
    m: usize,
    d: Seq<usize>,
    c: (usize, usize),
    x: (usize, usize),
) -> bool {
    &&& in_bounds(g, x)
    &&& adjacent(x, c)
    &&& at(d, m, c) != usize::MAX
    &&& at(d, m, x) != usize::MAX
    &&& at(d, m, x) + cost_at(g, c) <= at(d, m, c) as int
}

/// The predecessor table is consistent with the distance table, and the
/// origin is the only finite cell without a predecessor.
pub open spec fn pred_ok(
    g: Seq<Seq<u8>>,
    m: usize,
    d: Seq<usize>,
    pred: Seq<Option<(usize, usize)>>,
) -> bool {
    &&& forall|c: (usize, usize)|
        in_bounds(g, c) && (#[trigger] pat(pred, m, c)) is Some ==> pred_edge_ok(
            g,
            m,
            d,
            c,
            pat(pred, m, c)->0,
        )
    &&& forall|c: (usize, usize)|
        in_bounds(g, c) && #[trigger] at(d, m, c) != usize::MAX && pat(pred, m, c) is None ==> c
            == (0usize, 0usize)
}

/// Every finite recorded distance is witnessed by an actual path of
/// exactly that cost from the origin.
pub open spec fn witness_ok(g: Seq<Seq<u8>>, m: usize, d: Seq<usize>) -> bool {
    forall|c: (usize, usize)|
        in_bounds(g, c) && #[trigger] at(d, m, c) != usize::MAX ==> exists|p: Seq<(usize, usize)>|
            path_from_to(g, p, (0usize, 0usize), c) && path_cost(g, p) == at(d, m, c)
}

/// The classic Dijkstra search invariants over the visited set: visited
/// cells have finite, final (no path beats them) distances that never
/// exceed an unvisited distance, and every edge out of a visited cell has
/// been relaxed.
pub open spec fn search_ok(g: Seq<Seq<u8>>, m: usize, d: Seq<usize>, vis: Seq<bool>) -> bool {
    &&& vis.len() == g.len() * m
    &&& forall|c: (usize, usize)|
        in_bounds(g, c) && #[trigger] vat(vis, m, c) ==> at(d, m, c) != usize::MAX
    &&& forall|x: (usize, usize), y: (usize, usize)|
        in_bounds(g, x) && in_bounds(g, y) && #[trigger] vat(vis, m, x) && !(#[trigger] vat(
            vis,
            m,
            y,
        )) ==> at(d, m, x) <= at(d, m, y)
    &&& forall|c: (usize, usize), p: Seq<(usize, usize)>|
        in_bounds(g, c) && #[trigger] vat(vis, m, c) && #[trigger] path_from_to(
            g,
            p,
            (0usize, 0usize),
            c,
        ) ==> path_cost(g, p) >= at(d, m, c)
    &&& forall|x: (usize, usize), c: (usize, usize)|
        in_bounds(g, x) && in_bounds(g, c) && #[trigger] vat(vis, m, x) && #[trigger] adjacent(
            x,
            c,
        ) ==> at(d, m, c) as int <= at(d, m, x) + cost_at(g, c)
}

/// All the search invariants together.
pub open spec fn inv(
    g: Seq<Seq<u8>>,
    m: usize,
    d: Seq<usize>,
    vis: Seq<bool>,
    pred: Seq<Option<(usize, usize)>>,
) -> bool {
    &&& tables_ok(g, m, d, pred)
    &&& pred_ok(g, m, d, pred)
    &&& witness_ok(g, m, d)
    &&& search_ok(g, m, d, vis)
}

/// Every finite recorded distance is at most `b`.
pub open spec fn dbound(g: Seq<Seq<u8>>, m: usize, d: Seq<usize>, b: int) -> bool {
    forall|c: (usize, usize)|
        in_bounds(g, c) && #[trigger] at(d, m, c) != usize::MAX ==> at(d, m, c) <= b
}

proof fn lemma_flat_bounds(n: usize, m: usize, c: (usize, usize))
    requires
        c.0 < n,
        c.1 < m,
    ensures
        0 <= flat(m, c) < n * m,
{
    assert(c.0 * m + c.1 < n * m) by (nonlinear_arith)
        requires
            c.0 < n,
            c.1 < m,
    ;
}

proof fn lemma_flat_inj(m: usize, a: (usize, usize), b: (usize, usize))
    requires
        a.1 < m,
        b.1 < m,
        flat(m, a) == flat(m, b),
    ensures
        a == b,
{
    assert(a.0 == b.0 && a.1 == b.1) by (nonlinear_arith)
        requires
            a.1 < m,
            b.1 < m,
            a.0 * m + a.1 == b.0 * m + b.1,
    ;
}

proof fn lemma_count_true_le(s: Seq<bool>)
    ensures
        0 <= count_true(s) <= s.len(),
    decreases s.len(),
{
    if s.len() > 0 {
        lemma_count_true_le(s.drop_last());
    }
}

proof fn lemma_count_false(s: Seq<bool>)
    requires
        forall|i: int| 0 <= i < s.len() ==> !s[i],
    ensures
        count_true(s) == 0,
    decreases s.len(),
{
    if s.len() > 0 {
        lemma_count_false(s.drop_last());
    }
}

proof fn lemma_count_true_update(s: Seq<bool>, i: int)
    requires
        0 <= i < s.len(),
        !s[i],
    ensures
        count_true(s.update(i, true)) == count_true(s) + 1,
    decreases s.len(),
{
    let t = s.update(i, true);
    if i == s.len() - 1 {
        assert(t.drop_last() =~= s.drop_last());
    } else {
        assert(t.drop_last() =~= s.drop_last().update(i, true));
        lemma_count_true_update(s.drop_last(), i);
        assert(t.last() == s.last());
    }
}

/// Among the positions of `b`, if any holds a false there is a least one.
proof fn lemma_least_false(b: Seq<bool>)
    requires
        exists|k: int| 0 <= k < b.len() && !b[k],
    ensures
        exists|k: int|
            0 <= k < b.len() && !b[k] && (forall|j: int| 0 <= j < k ==> b[j]),
    decreases b.len(),
{
    if !b[0] {
        assert(0 <= 0 < b.len() && !b[0] && (forall|j: int| 0 <= j < 0 ==> b[j]));
    } else {
        let k0 = choose|k: int| 0 <= k < b.len() && !b[k];
        let t = b.drop_first();
        assert(t[k0 - 1] == b[k0]);
        assert(0 <= k0 - 1 < t.len() && !t[k0 - 1]);
        lemma_least_false(t);
        let k1 = choose|k: int|
            0 <= k < t.len() && !t[k] && (forall|j: int| 0 <= j < k ==> t[j]);
        assert(!b[k1 + 1]);
        assert forall|j: int| 0 <= j < k1 + 1 implies b[j] by {
            if j >= 1 {
                assert(t[j - 1]);
            }
        }
        assert(0 <= k1 + 1 < b.len() && !b[k1 + 1] && (forall|j: int|
            0 <= j < k1 + 1 ==> b[j]));
    }
}

/// A path whose cells are all visited except possibly the last one costs
/// at least the last cell's recorded distance, which is finite.
proof fn lemma_visited_prefix_bound(
    g: Seq<Seq<u8>>,
    m: usize,
    d: Seq<usize>,
    vis: Seq<bool>,
    pred: Seq<Option<(usize, usize)>>,
    p: Seq<(usize, usize)>,
    c: (usize, usize),
    b: int,
)
    requires
        inv(g, m, d, vis, pred),
        dbound(g, m, d, b),
        0 <= b,
        b + 9 < usize::MAX as int,
        path_from_to(g, p, (0usize, 0usize), c),
        forall|k: int| 0 <= k < p.len() - 1 ==> vat(vis, m, #[trigger] p[k]),
    ensures
        at(d, m, c) != usize::MAX,
        path_cost(g, p) >= at(d, m, c),
{
    if p.len() == 1 {
        assert(c == (0usize, 0usize));
        assert(at(d, m, c) == 0);
    } else {
        let x = p[p.len() - 2];
        lemma_drop_last_is_path(g, p);
        let q = p.drop_last();
        assert(vat(vis, m, x));
        assert(in_bounds(g, x));
        assert(path_from_to(g, q, (0usize, 0usize), x));
        assert(path_cost(g, q) >= at(d, m, x));
        assert(adjacent(p[p.len() - 1 - 1], p[p.len() - 1]));
        assert(adjacent(x, c));
        assert(at(d, m, c) as int <= at(d, m, x) + cost_at(g, c));
        assert(at(d, m, x) != usize::MAX);
        assert(at(d, m, x) <= b);
        assert(in_bounds(g, c));
        assert(1 <= g[c.0 as int][c.1 as int] <= 9);
        assert(at(d, m, c) as int <= b + 9);
    }
}

/// When `u` has the least recorded distance among unvisited cells, no
/// path from the origin to `u` costs less than that distance.
proof fn lemma_pop_lower_bound(
    g: Seq<Seq<u8>>,
    m: usize,
    d: Seq<usize>,
    vis: Seq<bool>,
    pred: Seq<Option<(usize, usize)>>,
    u: (usize, usize),
    b: int,
)
    requires
        inv(g, m, d, vis, pred),
        dbound(g, m, d, b),
        0 <= b,
        b + 9 < usize::MAX as int,
        in_bounds(g, u),
        !vat(vis, m, u),
        forall|y: (usize, usize)|
            in_bounds(g, y) && !(#[trigger] vat(vis, m, y)) ==> at(d, m, y) >= at(d, m, u),
    ensures
        forall|p: Seq<(usize, usize)>|
            #[trigger] path_from_to(g, p, (0usize, 0usize), u) ==> path_cost(g, p) >= at(d, m, u),
{
    assert forall|p: Seq<(usize, usize)>|
        #[trigger] path_from_to(g, p, (0usize, 0usize), u) implies path_cost(g, p) >= at(
        d,
        m,
        u,
    ) by {
        let flags = Seq::new(p.len(), |k: int| vat(vis, m, p[k]));
        assert(!flags[p.len() - 1]);
        lemma_least_false(flags);
        let k = choose|k: int|
            0 <= k < flags.len() && !flags[k] && (forall|j: int| 0 <= j < k ==> flags[j]);
        lemma_prefix_cost(g, p, k);
        let q = p.subrange(0, k + 1);
        assert forall|j: int| 0 <= j < q.len() - 1 implies vat(vis, m, #[trigger] q[j]) by {
            assert(q[j] == p[j]);
            assert(flags[j]);
        }
        lemma_visited_prefix_bound(g, m, d, vis, pred, q, p[k], b);
        assert(in_bounds(g, p[k]));
        assert(!vat(vis, m, p[k]));
        assert(at(d, m, p[k]) >= at(d, m, u));
    }
}

/// While the destination is unvisited, some unvisited cell has a finite
/// recorded distance.
proof fn lemma_frontier_nonempty(
    g: Seq<Seq<u8>>,
    n: usize,
    m: usize,
    d: Seq<usize>,
    vis: Seq<bool>,
    pred: Seq<Option<(usize, usize)>>,
    b: int,
)
    requires
        inv(g, m, d, vis, pred),
        dbound(g, m, d, b),
        0 <= b,
        b + 9 < usize::MAX as int,
        n == g.len(),
        m == g[0].len(),
        !vat(vis, m, dest_of(g)),
    ensures
        exists|y: (usize, usize)|
            in_bounds(g, y) && !(#[trigger] vat(vis, m, y)) && at(d, m, y) != usize::MAX,
{
    lemma_snake_path(g, n, m);
    let p = snake(n, m);
    let flags = Seq::new(p.len(), |k: int| vat(vis, m, p[k]));
    assert(p.last() == dest_of(g));
    assert(!flags[p.len() - 1]);
    lemma_least_false(flags);
    let k = choose|k: int|
        0 <= k < flags.len() && !flags[k] && (forall|j: int| 0 <= j < k ==> flags[j]);
    lemma_prefix_cost(g, p, k);
    let q = p.subrange(0, k + 1);
    assert forall|j: int| 0 <= j < q.len() - 1 implies vat(vis, m, #[trigger] q[j]) by {
        assert(q[j] == p[j]);
        assert(flags[j]);
    }
    lemma_visited_prefix_bound(g, m, d, vis, pred, q, p[k], b);
    assert(in_bounds(g, p[k]) && !vat(vis, m, p[k]) && at(d, m, p[k]) != usize::MAX);
}

/// Marking the minimal unvisited cell visited preserves the search
/// invariants, once its edges are relaxed and no path beats its distance.
proof fn lemma_mark_visited(
    g: Seq<Seq<u8>>,
    n: usize,
    m: usize,
    d: Seq<usize>,
    vis0: Seq<bool>,
    pred: Seq<Option<(usize, usize)>>,
    u: (usize, usize),
    du: usize,
)
    requires
        inv(g, m, d, vis0, pred),
        n == g.len(),
        in_bounds(g, u),
        !vat(vis0, m, u),
        at(d, m, u) == du,
        du != usize::MAX,
        forall|y: (usize, usize)|
            in_bounds(g, y) && !(#[trigger] vat(vis0, m, y)) ==> at(d, m, y) >= du,
        forall|p: Seq<(usize, usize)>|
            #[trigger] path_from_to(g, p, (0usize, 0usize), u) ==> path_cost(g, p) >= du,
        forall|c: (usize, usize)|
            in_bounds(g, c) && #[trigger] adjacent(u, c) ==> at(d, m, c) as int <= du + cost_at(
                g,
                c,
            ),
    ensures
        inv(g, m, d, vis0.update(flat(m, u), true), pred),
        count_true(vis0.update(flat(m, u), true)) == count_true(vis0) + 1,
        forall|c: (usize, usize)|
            in_bounds(g, c) && c != u ==> #[trigger] vat(vis0.update(flat(m, u), true), m, c)
                == vat(vis0, m, c),
{
    let vis1 = vis0.update(flat(m, u), true);
    lemma_flat_bounds(n, m, u);
    lemma_count_true_update(vis0, flat(m, u));
    assert forall|c: (usize, usize)| in_bounds(g, c) && c != u implies #[trigger] vat(
        vis1,
        m,
        c,
    ) == vat(vis0, m, c) by {
        lemma_flat_bounds(n, m, c);
        if flat(m, c) == flat(m, u) {
            lemma_flat_inj(m, c, u);
        }
    }
    assert(vat(vis1, m, u));
    assert forall|x: (usize, usize), y: (usize, usize)|
        in_bounds(g, x) && in_bounds(g, y) && #[trigger] vat(vis1, m, x) && !(#[trigger] vat(
        vis1,
        m,
        y,
    )) implies at(d, m, x) <= at(d, m, y) by {
        assert(y != u);
        assert(!vat(vis0, m, y));
        if x != u {
            assert(vat(vis0, m, x));
        }
    }
    assert forall|c: (usize, usize), p: Seq<(usize, usize)>|
        in_bounds(g, c) && #[trigger] vat(vis1, m, c) && #[trigger] path_from_to(
        g,
        p,
        (0usize, 0usize),
        c,
    ) implies path_cost(g, p) >= at(d, m, c) by {
        if c != u {
            assert(vat(vis0, m, c));
        }
    }
    assert forall|x: (usize, usize), c: (usize, usize)|
        in_bounds(g, x) && in_bounds(g, c) && #[trigger] vat(vis1, m, x) && #[trigger] adjacent(
        x,
        c,
    ) implies at(d, m, c) as int <= at(d, m, x) + cost_at(g, c) by {
        if x != u {
            assert(vat(vis0, m, x));
        }
    }
    assert forall|c: (usize, usize)|
        in_bounds(g, c) && #[trigger] vat(vis1, m, c) implies at(d, m, c) != usize::MAX by {
        if c != u {
            assert(vat(vis0, m, c));
        }
    }
    assert(search_ok(g, m, d, vis1));
}

/// The flat index of cell `(i, j)`.
fn flat_idx(n: usize, m: usize, i: usize, j: usize) -> (r: usize)
    requires
        i < n,
        j < m,
        n * m <= MAX_CELLS,
    ensures
        r == flat(m, (i, j)),
        r < n * m,
{
    proof {
        lemma_flat_bounds(n, m, (i, j));
    }
    i * m + j
}

/// Scans for the unvisited cell with the least recorded distance, taking
/// the first in row-then-column order among equals.
fn pop_min(
    dist: &Vec<usize>,
    vis: &Vec<bool>,
    n: usize,
    m: usize,
    Ghost(g): Ghost<Seq<Seq<u8>>>,
) -> (r: (usize, usize))
    requires
        wf_grid(g),
        n == g.len(),
        m == g[0].len(),
        n * m <= MAX_CELLS,
        dist@.len() == n * m,
        vis@.len() == n * m,
        !vat(vis@, m, dest_of(g)),
    ensures
        in_bounds(g, r),
        !vat(vis@, m, r),
        forall|y: (usize, usize)|
            in_bounds(g, y) && !(#[trigger] vat(vis@, m, y)) ==> at(dist@, m, y) >= at(dist@, m, r),
{
    let mut found = false;
    let mut bi: usize = 0;
    let mut bj: usize = 0;
    let mut bd: usize = 0;
    let mut i: usize = 0;
    while i < n
        invariant
            wf_grid(g),
            n == g.len(),
            m == g[0].len(),
            n * m <= MAX_CELLS,
            dist@.len() == n * m,
            vis@.len() == n * m,
            i <= n,
            found ==> bi < n && bj < m && !vat(vis@, m, (bi, bj)) && bd == at(dist@, m, (bi, bj)),
            found ==> forall|y: (usize, usize)|
                in_bounds(g, y) && y.0 < i && !(#[trigger] vat(vis@, m, y)) ==> at(dist@, m, y)
                    >= bd,
            !found ==> forall|y: (usize, usize)|
                in_bounds(g, y) && y.0 < i ==> #[trigger] vat(vis@, m, y),
        decreases n - i,
    {
        let mut j: usize = 0;
        while j < m
            invariant
                wf_grid(g),
                n == g.len(),
                m == g[0].len(),
                n * m <= MAX_CELLS,
                dist@.len() == n * m,
                vis@.len() == n * m,
                i < n,
                j <= m,
                found ==> bi < n && bj < m && !vat(vis@, m, (bi, bj)) && bd == at(
                    dist@,
                    m,
                    (bi, bj),
                ),
                found ==> forall|y: (usize, usize)|
                    in_bounds(g, y) && (y.0 < i || (y.0 == i && y.1 < j)) && !(#[trigger] vat(
                        vis@,
                        m,
                        y,
                    )) ==> at(dist@, m, y) >= bd,
                !found ==> forall|y: (usize, usize)|
                    in_bounds(g, y) && (y.0 < i || (y.0 == i && y.1 < j)) ==> #[trigger] vat(
                        vis@,
                        m,
                        y,
                    ),
            decreases m - j,
        {
            let k = flat_idx(n, m, i, j);
            if !vis[k] {
                let dd = dist[k];
                if !found || dd < bd {
                    found = true;
                    bi = i;
                    bj = j;
                    bd = dd;
                }
            }
            j += 1;
        }
        i += 1;
    }
    proof {
        if !found {
            assert(in_bounds(g, dest_of(g)));
            assert(vat(vis@, m, dest_of(g)));
            assert(false);
        }
    }
    (bi, bj)
}

/// One relaxation step: if the unvisited neighbour `(ci, cj)` of the cell
/// being finalised can be reached more cheaply through it, record the
/// improved distance and the predecessor.  Distances never increase.
fn relax(
    cave: &Cave,
    dist: &mut Vec<usize>,
    pred: &mut Vec<Option<(usize, usize)>>,
    vis: &Vec<bool>,
    n: usize,
    m: usize,
    ui: usize,
    uj: usize,
    du: usize,
    ci: usize,
    cj: usize,
    Ghost(nvis): Ghost<int>,
)
    requires
        cave.wf(),
        n == cave@.len(),
        m == cave@[0].len(),
        inv(cave@, m, old(dist)@, vis@, old(pred)@),
        dbound(cave@, m, old(dist)@, 9 * (nvis + 2)),
        0 <= nvis <= n * m,
        ui < n,
        uj < m,
        !vat(vis@, m, (ui, uj)),
        at(old(dist)@, m, (ui, uj)) == du,
        du != usize::MAX,
        du as int + 9 <= 9 * (nvis + 2),
        forall|y: (usize, usize)|
            in_bounds(cave@, y) && !(#[trigger] vat(vis@, m, y)) ==> at(old(dist)@, m, y) >= du,
        ci < n,
        cj < m,
        adjacent((ui, uj), (ci, cj)),
    ensures
        inv(cave@, m, final(dist)@, vis@, final(pred)@),
        dbound(cave@, m, final(dist)@, 9 * (nvis + 2)),
        forall|c: (usize, usize)|
            in_bounds(cave@, c) ==> #[trigger] at(final(dist)@, m, c) <= at(old(dist)@, m, c),
        forall|c: (usize, usize)|
            in_bounds(cave@, c) && c != (ci, cj) ==> #[trigger] at(final(dist)@, m, c) == at(
                old(dist)@,
                m,
                c,
            ) && pat(final(pred)@, m, c) == pat(old(pred)@, m, c),
        !vat(vis@, m, (ci, cj)) ==> at(final(dist)@, m, (ci, cj)) as int <= du + cost_at(
            cave@,
            (ci, cj),
        ),
        at(final(dist)@, m, (ui, uj)) == du,
        forall|y: (usize, usize)|
            in_bounds(cave@, y) && !(#[trigger] vat(vis@, m, y)) ==> at(final(dist)@, m, y) >= du,
{
    let ghost g = cave@;
    let ghost d0 = dist@;
    let ghost p0 = pred@;
    let k = flat_idx(n, m, ci, cj);
    proof {
        lemma_flat_bounds(n, m, (ci, cj));
        assert((ui, uj) != (ci, cj));
    }
    if !vis[k] {
        let w = cave.get(ci, cj);
        proof {
            assert(1 <= w <= 9);
        }
        let cand = du + (w as usize);
        if cand < dist[k] {
            dist.set(k, cand);
            pred.set(k, Some((ui, uj)));
            proof {
                let c = (ci, cj);
                let u = (ui, uj);
                assert(at(dist@, m, c) == cand);
                assert(pat(pred@, m, c) == Some(u));
                assert forall|c2: (usize, usize)| in_bounds(g, c2) && c2 != c implies at(
                    dist@,
                    m,
                    c2,
                ) == at(d0, m, c2) && pat(pred@, m, c2) == pat(p0, m, c2) by {
                    lemma_flat_bounds(n, m, c2);
                    if flat(m, c2) == flat(m, c) {
                        lemma_flat_inj(m, c2, c);
                    }
                }
                assert(at(dist@, m, u) == du);
                // the origin keeps distance zero
                assert(c != (0usize, 0usize));
                assert(at(dist@, m, (0usize, 0usize)) == 0);
                // a path witnesses the new distance
                let pw = choose|p: Seq<(usize, usize)>|
                    path_from_to(g, p, (0usize, 0usize), u) && path_cost(g, p) == at(d0, m, u);
                lemma_path_push(g, pw, c);
                assert(path_from_to(g, pw.push(c), (0usize, 0usize), c) && path_cost(
                    g,
                    pw.push(c),
                ) == at(dist@, m, c));
                assert(witness_ok(g, m, dist@));
                // predecessor edges stay consistent
                assert forall|c2: (usize, usize)|
                    in_bounds(g, c2) && (#[trigger] pat(pred@, m, c2)) is Some implies pred_edge_ok(
                    g,
                    m,
                    dist@,
                    c2,
                    pat(pred@, m, c2)->0,
                ) by {
                    let x2 = pat(pred@, m, c2)->0;
                    if c2 == c {
                        assert(x2 == u);
                    } else {
                        assert(pat(p0, m, c2) is Some);
                        assert(pred_edge_ok(g, m, d0, c2, x2));
                        if x2 == c {
                            assert(at(dist@, m, x2) == cand);
                        }
                    }
                }
                // the search invariants survive the improvement
                assert forall|x: (usize, usize), y: (usize, usize)|
                    in_bounds(g, x) && in_bounds(g, y) && #[trigger] vat(vis@, m, x) && !(
                    #[trigger] vat(vis@, m, y)) implies at(dist@, m, x) <= at(dist@, m, y) by {
                    assert(at(d0, m, x) <= du);
                    if y == c {
                        assert(at(dist@, m, y) == cand);
                    } else {
                        assert(at(d0, m, x) <= at(d0, m, y));
                    }
                }
                assert forall|x: (usize, usize), c2: (usize, usize)|
                    in_bounds(g, x) && in_bounds(g, c2) && #[trigger] vat(vis@, m, x)
                        && #[trigger] adjacent(x, c2) implies at(dist@, m, c2) as int <= at(
                    dist@,
                    m,
                    x,
                ) + cost_at(g, c2) by {
                    assert(at(dist@, m, x) == at(d0, m, x));
                    assert(at(d0, m, c2) as int <= at(d0, m, x) + cost_at(g, c2));
                }
                assert(search_ok(g, m, dist@, vis@));
                assert(inv(g, m, dist@, vis@, pred@));
            }
        }
    }
}

/// Allocates the distance, visited and predecessor tables: every cell
/// starts unvisited, at infinite distance and without a predecessor,
/// except the origin, whose distance starts at zero.
fn init_tables(cave: &Cave, n: usize, m: usize) -> (r: (
    Vec<usize>,
    Vec<bool>,
    Vec<Option<(usize, usize)>>,
))
    requires
        cave.wf(),
        n == cave@.len(),
        m == cave@[0].len(),
        n * m <= MAX_CELLS,
    ensures
        inv(cave@, m, r.0@, r.1@, r.2@),
        count_true(r.1@) == 0,
        dbound(cave@, m, r.0@, 9),
        !vat(r.1@, m, dest_of(cave@)),
{
    let ghost g = cave@;
    let total = n * m;
    let mut dist: Vec<usize> = Vec::new();
    let mut vis: Vec<bool> = Vec::new();
    let mut pred: Vec<Option<(usize, usize)>> = Vec::new();
    let mut idx: usize = 0;
    while idx < total
        invariant
            total == n * m,
            idx <= total,
            dist@.len() == idx,
            vis@.len() == idx,
            pred@.len() == idx,
            forall|q: int| 0 <= q < idx ==> dist@[q] == usize::MAX,
            forall|q: int| 0 <= q < idx ==> !vis@[q],
            forall|q: int| 0 <= q < idx ==> pred@[q] is None,
        decreases total - idx,
    {
        dist.push(usize::MAX);
        vis.push(false);
        pred.push(None);
        idx += 1;
    }
    proof {
        assert(1 <= n * m) by (nonlinear_arith)
            requires
                n >= 1,
                m >= 1,
        ;
    }
    dist.set(0, 0);
    proof {
        lemma_count_false(vis@);
        let orig: (usize, usize) = (0usize, 0usize);
        assert(orig.0 == 0 && orig.1 == 0);
        assert(orig.0 * m == 0);
        assert(orig.0 * m + orig.1 == 0);
        assert(flat(m, orig) == 0);
        assert(at(dist@, m, orig) == 0);
        // initially the only finite cell is the origin
        assert forall|c: (usize, usize)|
            in_bounds(g, c) && #[trigger] at(dist@, m, c) != usize::MAX implies c == orig && at(
            dist@,
            m,
            c,
        ) == 0 by {
            lemma_flat_bounds(n, m, c);
            if flat(m, c) != 0 {
                assert(at(dist@, m, c) == usize::MAX);
            } else {
                lemma_flat_inj(m, c, orig);
            }
        }
        let pw = seq![orig];
        assert(is_path(g, pw));
        assert(path_from_to(g, pw, orig, orig) && path_cost(g, pw) == 0);
        assert(witness_ok(g, m, dist@));
        // no cell is visited and none has a predecessor yet
        assert forall|c: (usize, usize)| in_bounds(g, c) implies !(#[trigger] vat(vis@, m, c))
            && pat(pred@, m, c) is None by {
            lemma_flat_bounds(n, m, c);
        }
        assert forall|c: (usize, usize)| in_bounds(g, c) implies (#[trigger] pat(
            pred@,
            m,
            c,
        )) is None by {
            lemma_flat_bounds(n, m, c);
        }
        assert(tables_ok(g, m, dist@, pred@));
        assert(pred_ok(g, m, dist@, pred@));
        assert(search_ok(g, m, dist@, vis@));
        assert(inv(g, m, dist@, vis@, pred@));
        lemma_flat_bounds(n, m, dest_of(g));
        assert(!vat(vis@, m, dest_of(g)));
    }
    (dist, vis, pred)
}

/// The neighbour `c` of the cell being finalised needs no further
/// relaxation: it is already visited, or its recorded distance is at most
/// the finalised distance `du` plus its own cost.
pub open spec fn neighbor_settled(
    g: Seq<Seq<u8>>,
    m: usize,
    d: Seq<usize>,
    vis: Seq<bool>,
    du: usize,
    c: (usize, usize),
) -> bool {
    vat(vis, m, c) || at(d, m, c) as int <= du + cost_at(g, c)
}

/// Once all four potential neighbours are settled, every on-grid
/// neighbour's distance is at most `du` plus that neighbour's cost.
proof fn lemma_all_neighbors(
    g: Seq<Seq<u8>>,
    n: usize,
    m: usize,
    d: Seq<usize>,
    vis: Seq<bool>,
    ui: usize,
    uj: usize,
    du: usize,
)
    requires
        wf_grid(g),
        n == g.len(),
        m == g[0].len(),
        ui < n,
        uj < m,
        !vat(vis, m, (ui, uj)),
        at(d, m, (ui, uj)) == du,
        forall|x: (usize, usize), y: (usize, usize)|
            in_bounds(g, x) && in_bounds(g, y) && #[trigger] vat(vis, m, x) && !(#[trigger] vat(
                vis,
                m,
                y,
            )) ==> at(d, m, x) <= at(d, m, y),
        ui + 1 < n ==> neighbor_settled(g, m, d, vis, du, (((ui + 1) as usize), uj)),
        ui > 0 ==> neighbor_settled(g, m, d, vis, du, (((ui - 1) as usize), uj)),
        uj + 1 < m ==> neighbor_settled(g, m, d, vis, du, (ui, ((uj + 1) as usize))),
        uj > 0 ==> neighbor_settled(g, m, d, vis, du, (ui, ((uj - 1) as usize))),
    ensures
        forall|c: (usize, usize)|
            in_bounds(g, c) && #[trigger] adjacent((ui, uj), c) ==> at(d, m, c) as int <= du
                + cost_at(g, c),
{
    assert forall|c: (usize, usize)|
        in_bounds(g, c) && #[trigger] adjacent((ui, uj), c) implies at(d, m, c) as int <= du
        + cost_at(g, c) by {
        assert(1 <= g[c.0 as int][c.1 as int] <= 9);
        if vat(vis, m, c) {
            assert(at(d, m, c) <= at(d, m, (ui, uj)));
        } else {
            assert(c == (((ui + 1) as usize), uj) || c == (((ui - 1) as usize), uj) || c == (
                ui,
                ((uj + 1) as usize),
            ) || c == (ui, ((uj - 1) as usize)));
            assert(neighbor_settled(g, m, d, vis, du, c));
        }
    }
}

/// Relaxes the edges to the two potential neighbours in the rows above
/// and below the cell being finalised.
#[verifier::rlimit(100)]
fn relax_rows(
    cave: &Cave,
    dist: &mut Vec<usize>,
    pred: &mut Vec<Option<(usize, usize)>>,
    vis: &Vec<bool>,
    n: usize,
    m: usize,
    ui: usize,
    uj: usize,
    du: usize,
    Ghost(nvis): Ghost<int>,
)
    requires
        cave.wf(),
        n == cave@.len(),
        m == cave@[0].len(),
        inv(cave@, m, old(dist)@, vis@, old(pred)@),
        dbound(cave@, m, old(dist)@, 9 * (nvis + 2)),
        0 <= nvis <= n * m,
        ui < n,
        uj < m,
        !vat(vis@, m, (ui, uj)),
        at(old(dist)@, m, (ui, uj)) == du,
        du != usize::MAX,
        du as int + 9 <= 9 * (nvis + 2),
        forall|y: (usize, usize)|
            in_bounds(cave@, y) && !(#[trigger] vat(vis@, m, y)) ==> at(old(dist)@, m, y) >= du,
    ensures
        inv(cave@, m, final(dist)@, vis@, final(pred)@),
        dbound(cave@, m, final(dist)@, 9 * (nvis + 2)),
        at(final(dist)@, m, (ui, uj)) == du,
        forall|y: (usize, usize)|
            in_bounds(cave@, y) && !(#[trigger] vat(vis@, m, y)) ==> at(final(dist)@, m, y) >= du,
        forall|c: (usize, usize)|
            in_bounds(cave@, c) ==> #[trigger] at(final(dist)@, m, c) <= at(old(dist)@, m, c),
        ui + 1 < n ==> neighbor_settled(cave@, m, final(dist)@, vis@, du, (((ui + 1) as usize), uj)),
        ui > 0 ==> neighbor_settled(cave@, m, final(dist)@, vis@, du, (((ui - 1) as usize), uj)),
{
    let ghost g = cave@;
    if ui + 1 < n {
        relax(cave, dist, pred, vis, n, m, ui, uj, du, ui + 1, uj, Ghost(nvis));
    }
    let ghost d1 = dist@;
    if ui > 0 {
        relax(cave, dist, pred, vis, n, m, ui, uj, du, ui - 1, uj, Ghost(nvis));
    }
    proof {
        if ui + 1 < n {
            assert(at(dist@, m, (((ui + 1) as usize), uj)) <= at(d1, m, (((ui + 1) as usize), uj)));
            assert(neighbor_settled(g, m, dist@, vis@, du, (((ui + 1) as usize), uj)));
        }
    }
}

/// Relaxes the edges to the two potential neighbours in the columns to
/// the left and to the right of the cell being finalised.
#[verifier::rlimit(100)]
fn relax_cols(
    cave: &Cave,
    dist: &mut Vec<usize>,
    pred: &mut Vec<Option<(usize, usize)>>,
    vis: &Vec<bool>,
    n: usize,
    m: usize,
    ui: usize,
    uj: usize,
    du: usize,
    Ghost(nvis): Ghost<int>,
)
    requires
        cave.wf(),
        n == cave@.len(),
        m == cave@[0].len(),
        inv(cave@, m, old(dist)@, vis@, old(pred)@),
        dbound(cave@, m, old(dist)@, 9 * (nvis + 2)),
        0 <= nvis <= n * m,
        ui < n,
        uj < m,
        !vat(vis@, m, (ui, uj)),
        at(old(dist)@, m, (ui, uj)) == du,
        du != usize::MAX,
        du as int + 9 <= 9 * (nvis + 2),
        forall|y: (usize, usize)|
            in_bounds(cave@, y) && !(#[trigger] vat(vis@, m, y)) ==> at(old(dist)@, m, y) >= du,
    ensures
        inv(cave@, m, final(dist)@, vis@, final(pred)@),
        dbound(cave@, m, final(dist)@, 9 * (nvis + 2)),
        at(final(dist)@, m, (ui, uj)) == du,
        forall|y: (usize, usize)|
            in_bounds(cave@, y) && !(#[trigger] vat(vis@, m, y)) ==> at(final(dist)@, m, y) >= du,
        forall|c: (usize, usize)|
            in_bounds(cave@, c) ==> #[trigger] at(final(dist)@, m, c) <= at(old(dist)@, m, c),
        uj + 1 < m ==> neighbor_settled(cave@, m, final(dist)@, vis@, du, (ui, ((uj + 1) as usize))),
        uj > 0 ==> neighbor_settled(cave@, m, final(dist)@, vis@, du, (ui, ((uj - 1) as usize))),
{
    let ghost g = cave@;
    if uj + 1 < m {
        relax(cave, dist, pred, vis, n, m, ui, uj, du, ui, uj + 1, Ghost(nvis));
    }
    let ghost d1 = dist@;
    if uj > 0 {
        relax(cave, dist, pred, vis, n, m, ui, uj, du, ui, uj - 1, Ghost(nvis));
    }
    proof {
        if uj + 1 < m {
            assert(at(dist@, m, (ui, ((uj + 1) as usize))) <= at(d1, m, (ui, ((uj + 1) as usize))));
            assert(neighbor_settled(g, m, dist@, vis@, du, (ui, ((uj + 1) as usize))));
        }
    }
}

/// Finalises the popped cell: relaxes the edges to its four neighbours,
/// then marks it visited.  Recorded distances never increase.
fn process_cell(
    cave: &Cave,
    dist: &mut Vec<usize>,
    pred: &mut Vec<Option<(usize, usize)>>,
    vis: &mut Vec<bool>,
    n: usize,
    m: usize,
    ui: usize,
    uj: usize,
    du: usize,
    Ghost(nvis): Ghost<int>,
)
    requires
        cave.wf(),
        n == cave@.len(),
        m == cave@[0].len(),
        inv(cave@, m, old(dist)@, old(vis)@, old(pred)@),
        dbound(cave@, m, old(dist)@, 9 * (nvis + 1)),
        nvis == count_true(old(vis)@),
        0 <= nvis <= n * m,
        ui < n,
        uj < m,
        !vat(old(vis)@, m, (ui, uj)),
        at(old(dist)@, m, (ui, uj)) == du,
        du != usize::MAX,
        forall|y: (usize, usize)|
            in_bounds(cave@, y) && !(#[trigger] vat(old(vis)@, m, y)) ==> at(old(dist)@, m, y)
                >= du,
        forall|p: Seq<(usize, usize)>|
            #[trigger] path_from_to(cave@, p, (0usize, 0usize), (ui, uj)) ==> path_cost(cave@, p)
                >= du,
        (ui, uj) != dest_of(cave@),
        !vat(old(vis)@, m, dest_of(cave@)),
    ensures
        inv(cave@, m, final(dist)@, final(vis)@, final(pred)@),
        count_true(final(vis)@) == nvis + 1,
        dbound(cave@, m, final(dist)@, 9 * (nvis + 2)),
        !vat(final(vis)@, m, dest_of(cave@)),
{
    let ghost g = cave@;
    proof {
        assert(du as int <= 9 * (nvis + 1));
        assert(dbound(g, m, dist@, 9 * (nvis + 2)));
    }
    relax_rows(cave, dist, pred, vis, n, m, ui, uj, du, Ghost(nvis));
    let ghost d1 = dist@;
    relax_cols(cave, dist, pred, vis, n, m, ui, uj, du, Ghost(nvis));
    proof {
        if ui + 1 < n {
            assert(at(dist@, m, (((ui + 1) as usize), uj)) <= at(d1, m, (((ui + 1) as usize), uj)));
            assert(neighbor_settled(g, m, dist@, vis@, du, (((ui + 1) as usize), uj)));
        }
        if ui > 0 {
            assert(at(dist@, m, (((ui - 1) as usize), uj)) <= at(d1, m, (((ui - 1) as usize), uj)));
            assert(neighbor_settled(g, m, dist@, vis@, du, (((ui - 1) as usize), uj)));
        }
        lemma_all_neighbors(g, n, m, dist@, vis@, ui, uj, du);
    }
    let ku = flat_idx(n, m, ui, uj);
    let ghost vis0 = vis@;
    proof {
        assert(at(dist@, m, (ui, uj)) == du);
        lemma_mark_visited(g, n, m, dist@, vis0, pred@, (ui, uj), du);
    }
    vis.set(ku, true);
    proof {
        assert(vis@ =~= vis0.update(flat(m, (ui, uj)), true));
        assert(inv(g, m, dist@, vis@, pred@));
        assert((ui, uj) != dest_of(g));
        assert(!vat(vis@, m, dest_of(g)));
    }
}

/// Runs the search to the destination cell.  The search finalises one
/// cell per round, always the unvisited cell of least recorded distance,
/// and stops as soon as that cell is the destination (the rest of the
/// grid is never finalised); the destination's recorded distance is then
/// the least cost of any path to it.
fn dijkstra(cave: &Cave, n: usize, m: usize) -> (r: (Vec<usize>, Vec<Option<(usize, usize)>>, usize))
    requires
        cave.wf(),
        n == cave@.len(),
        m == cave@[0].len(),
        n * m <= MAX_CELLS,
    ensures
        tables_ok(cave@, m, r.0@, r.1@),
        pred_ok(cave@, m, r.0@, r.1@),
        dbound(cave@, m, r.0@, 9 * (n * m + 1)),
        r.2 == at(r.0@, m, dest_of(cave@)),
        r.2 != usize::MAX,
        is_min_cost(cave@, (0usize, 0usize), dest_of(cave@), r.2 as int),
{
    let ghost g = cave@;
    let (mut dist, mut vis, mut pred) = init_tables(cave, n, m);
    let ghost mut nvis: int = 0;
    let mut ans: usize = 0;
    loop
        invariant
            cave.wf(),
            g == cave@,
            n == g.len(),
            m == g[0].len(),
            n * m <= MAX_CELLS,
            inv(g, m, dist@, vis@, pred@),
            nvis == count_true(vis@),
            0 <= nvis <= n * m,
            dbound(g, m, dist@, 9 * (nvis + 1)),
            !vat(vis@, m, dest_of(g)),
        ensures
            inv(g, m, dist@, vis@, pred@),
            dbound(g, m, dist@, 9 * (n * m + 1)),
            ans == at(dist@, m, dest_of(g)),
            ans != usize::MAX,
            forall|p: Seq<(usize, usize)>|
                #[trigger] path_from_to(g, p, (0usize, 0usize), dest_of(g)) ==> path_cost(g, p)
                    >= ans,
        decreases n * m - nvis,
    {
        proof {
            lemma_frontier_nonempty(g, n, m, dist@, vis@, pred@, 9 * (nvis + 1));
        }
        let (ui, uj) = pop_min(&dist, &vis, n, m, Ghost(g));
        let ku = flat_idx(n, m, ui, uj);
        let du = dist[ku];
        proof {
            assert(at(dist@, m, (ui, uj)) == du);
            let y = choose|y: (usize, usize)|
                in_bounds(g, y) && !(#[trigger] vat(vis@, m, y)) && at(dist@, m, y) != usize::MAX;
            assert(at(dist@, m, y) >= du);
            assert(at(dist@, m, y) <= 9 * (nvis + 1));
            assert(du != usize::MAX);
            lemma_pop_lower_bound(g, m, dist@, vis@, pred@, (ui, uj), 9 * (nvis + 1));
        }
        if ui == n - 1 && uj == m - 1 {
            ans = du;
            proof {
                assert((ui, uj) == dest_of(g));
                assert(dbound(g, m, dist@, 9 * (n * m + 1)));
            }
            break;
        }
        proof {
            assert((ui, uj) != dest_of(g));
        }
        process_cell(cave, &mut dist, &mut pred, &mut vis, n, m, ui, uj, du, Ghost(nvis));
        proof {
            nvis = nvis + 1;
            lemma_count_true_le(vis@);
        }
    }
    proof {
        // the destination's distance is achieved by a real path
        assert(at(dist@, m, dest_of(g)) != usize::MAX);
        assert(in_bounds(g, dest_of(g)));
    }
    (dist, pred, ans)
}

/// The least total risk of any path from the top-left to the bottom-right
/// cell of the grid, where a path pays the cost of every cell it enters
/// and nothing for the cell it starts on.
pub fn best_path_through(cave: &Cave) -> (r: usize)
    requires
        cave.wf(),
        cave@.len() * cave@[0].len() <= MAX_CELLS,
    ensures
        is_min_cost(cave@, (0usize, 0usize), dest_of(cave@), r as int),
{
    let n = cave.rows();
    let m = cave.cols();
    let (_dist, _pred, ans) = dijkstra(cave, n, m);
    ans
}

/// Like [`best_path_through`], but also reconstructs one cheapest path,
/// from the origin to the destination, by walking the predecessor table
/// backwards.  The returned cost is the least possible, and the returned
/// path is a real path achieving exactly that cost.
pub fn solve_with_path(cave: &Cave) -> (r: (usize, Vec<(usize, usize)>))
    requires
        cave.wf(),
        cave@.len() * cave@[0].len() <= MAX_CELLS,
    ensures
        is_min_cost(cave@, (0usize, 0usize), dest_of(cave@), r.0 as int),
        path_from_to(cave@, r.1@, (0usize, 0usize), dest_of(cave@)),
        path_cost(cave@, r.1@) == r.0 as int,
{
    let ghost g = cave@;
    let n = cave.rows();
    let m = cave.cols();
    let (dist, pred, ans) = dijkstra(cave, n, m);
    let mut ci = n - 1;
    let mut cj = m - 1;
    let mut total: usize = 0;
    let mut rev: Vec<(usize, usize)> = Vec::new();
    rev.push((ci, cj));
    let ghost mut gpath: Seq<(usize, usize)> = seq![(ci, cj)];
    proof {
        assert((ci, cj) == dest_of(g));
        assert(is_path(g, gpath));
        assert(path_from_to(g, gpath, (ci, cj), dest_of(g)));
        assert(path_cost(g, gpath) == 0);
        assert(rev@ =~= gpath.reverse());
    }
    while !(ci == 0 && cj == 0)
        invariant
            cave.wf(),
            g == cave@,
            n == g.len(),
            m == g[0].len(),
            n * m <= MAX_CELLS,
            tables_ok(g, m, dist@, pred@),
            pred_ok(g, m, dist@, pred@),
            dbound(g, m, dist@, 9 * (n * m + 1)),
            ans == at(dist@, m, dest_of(g)),
            ans != usize::MAX,
            ci < n,
            cj < m,
            at(dist@, m, (ci, cj)) != usize::MAX,
            path_from_to(g, gpath, (ci, cj), dest_of(g)),
            path_cost(g, gpath) == total,
            total + at(dist@, m, (ci, cj)) <= ans,
            rev@ == gpath.reverse(),
        decreases at(dist@, m, (ci, cj)),
    {
        let k = flat_idx(n, m, ci, cj);
        match pred[k] {
            Some(xp) => {
                let (xi, xj) = xp;
                proof {
                    assert(pat(pred@, m, (ci, cj)) == Some((xi, xj)));
                    assert(pred_edge_ok(g, m, dist@, (ci, cj), (xi, xj)));
                }
                let w = cave.get(ci, cj);
                proof {
                    assert(w as int == cost_at(g, (ci, cj)));
                    assert(at(dist@, m, (xi, xj)) + w <= at(dist@, m, (ci, cj)) as int);
                    assert(total + w + at(dist@, m, (xi, xj)) <= ans);
                    lemma_path_prepend(g, (xi, xj), gpath);
                }
                total = total + (w as usize);
                rev.push((xi, xj));
                proof {
                    gpath = seq![(xi, xj)] + gpath;
                    assert(gpath.first() == (xi, xj));
                    assert(rev@ =~= gpath.reverse());
                }
                ci = xi;
                cj = xj;
            },
            None => {
                proof {
                    assert((ci, cj) == (0usize, 0usize));
                    assert(false);
                }
            },
        }
    }
    proof {
        assert(gpath.first() == (0usize, 0usize));
        assert(total <= ans);
        assert(path_from_to(g, gpath, (0usize, 0usize), dest_of(g)));
        assert(path_cost(g, gpath) >= ans);
        assert(total == ans);
    }
    // turn the backwards walk into the forward path
    let mut out: Vec<(usize, usize)> = Vec::new();
    let mut idx = rev.len();
    proof {
        assert(rev@.len() == gpath.len());
    }
    while idx > 0
        invariant
            idx <= rev@.len(),
            rev@.len() == gpath.len(),
            rev@ == gpath.reverse(),
            out@ =~= gpath.subrange(0, rev@.len() - idx),
        decreases idx,
    {
        let cell = rev[idx - 1];
        proof {
            assert(rev@[idx - 1] == gpath.reverse()[idx - 1]);
            assert(gpath.reverse()[idx - 1] == gpath[gpath.len() - idx]);
        }
        out.push(cell);
        idx -= 1;
        proof {
            assert(out@ =~= gpath.subrange(0, rev@.len() - idx));
        }
    }
    proof {
        assert(out@ =~= gpath);
    }
    (total, out)
}

} // verus!
