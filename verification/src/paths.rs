//! The mathematical model of grid paths and their costs.

use vstd::prelude::*;
use crate::grid::wf_grid;

verus! {

/// The cell lies on the grid.
pub open spec fn in_bounds(g: Seq<Seq<u8>>, c: (usize, usize)) -> bool {
    c.0 < g.len() && c.1 < g[0].len()
}

/// The two cells are orthogonal neighbours.
pub open spec fn adjacent(a: (usize, usize), b: (usize, usize)) -> bool {
    ||| a.0 == b.0 && a.1 + 1 == b.1
    ||| a.0 == b.0 && b.1 + 1 == a.1
    ||| a.1 == b.1 && a.0 + 1 == b.0
    ||| a.1 == b.1 && b.0 + 1 == a.0
}

/// A path: a non-empty sequence of on-grid cells, each consecutive pair
/// orthogonally adjacent.
pub open spec fn is_path(g: Seq<Seq<u8>>, p: Seq<(usize, usize)>) -> bool {
    &&& p.len() >= 1
    &&& forall|k: int| 0 <= k < p.len() ==> in_bounds(g, #[trigger] p[k])
    &&& forall|k: int| 1 <= k < p.len() ==> adjacent(p[k - 1], #[trigger] p[k])
}

/// The cost of the cell `c`.
pub open spec fn cost_at(g: Seq<Seq<u8>>, c: (usize, usize)) -> int {
    g[c.0 as int][c.1 as int] as int
}

/// The cost of a path: the sum of the costs of every cell entered after
/// the starting cell (whose own cost is not counted).
pub open spec fn path_cost(g: Seq<Seq<u8>>, p: Seq<(usize, usize)>) -> int
    decreases p.len(),
{
    if p.len() <= 1 {
        0
    } else {
        path_cost(g, p.drop_last()) + cost_at(g, p.last())
    }
}

/// A path leading from cell `a` to cell `b`.
pub open spec fn path_from_to(
    g: Seq<Seq<u8>>,
    p: Seq<(usize, usize)>,
    a: (usize, usize),
    b: (usize, usize),
) -> bool {
    &&& is_path(g, p)
    &&& p.first() == a
    &&& p.last() == b
}

/// The destination cell: bottom right.
pub open spec fn dest_of(g: Seq<Seq<u8>>) -> (usize, usize) {
    (((g.len() - 1) as usize), ((g[0].len() - 1) as usize))
}

/// `d` is the least cost of any path from `a` to `b`: some such path
/// costs exactly `d`, and no such path costs less.
pub open spec fn is_min_cost(
    g: Seq<Seq<u8>>,
    a: (usize, usize),
    b: (usize, usize),
    d: int,
) -> bool {
    &&& exists|p: Seq<(usize, usize)>| path_from_to(g, p, a, b) && path_cost(g, p) == d
    &&& forall|p: Seq<(usize, usize)>| path_from_to(g, p, a, b) ==> path_cost(g, p) >= d
}

/// Dropping the last cell of a path of two or more cells leaves a path.
pub proof fn lemma_drop_last_is_path(g: Seq<Seq<u8>>, p: Seq<(usize, usize)>)
    requires
        is_path(g, p),
        p.len() >= 2,
    ensures
        is_path(g, p.drop_last()),
        p.drop_last().first() == p.first(),
        p.drop_last().last() == p[p.len() - 2],
        path_cost(g, p) == path_cost(g, p.drop_last()) + cost_at(g, p.last()),
{
}

/// Every cell of a well-formed grid costs between 1 and 9, so path costs
/// are never negative.
pub proof fn lemma_path_cost_nonneg(g: Seq<Seq<u8>>, p: Seq<(usize, usize)>)
    requires
        wf_grid(g),
        is_path(g, p),
    ensures
        path_cost(g, p) >= 0,
    decreases p.len(),
{
    if p.len() >= 2 {
        lemma_drop_last_is_path(g, p);
        lemma_path_cost_nonneg(g, p.drop_last());
        assert(in_bounds(g, p.last()));
        assert(cost_at(g, p.last()) >= 1);
    }
}

/// Extending a path by one adjacent on-grid cell keeps it a path and adds
/// that cell's cost.
pub proof fn lemma_path_push(g: Seq<Seq<u8>>, p: Seq<(usize, usize)>, c: (usize, usize))
    requires
        is_path(g, p),
        in_bounds(g, c),
        adjacent(p.last(), c),
    ensures
        is_path(g, p.push(c)),
        p.push(c).first() == p.first(),
        p.push(c).last() == c,
        path_cost(g, p.push(c)) == path_cost(g, p) + cost_at(g, c),
{
    let q = p.push(c);
    assert(q.drop_last() =~= p);
    assert forall|k: int| 1 <= k < q.len() implies adjacent(q[k - 1], #[trigger] q[k]) by {
        if k < q.len() - 1 {
            assert(adjacent(p[k - 1], p[k]));
        }
    }
}

/// Putting one adjacent on-grid cell in front of a path keeps it a path
/// and adds the cost of the path's old first cell.
pub proof fn lemma_path_prepend(g: Seq<Seq<u8>>, x: (usize, usize), p: Seq<(usize, usize)>)
    requires
        is_path(g, p),
        in_bounds(g, x),
        adjacent(x, p.first()),
    ensures
        is_path(g, seq![x] + p),
        (seq![x] + p).first() == x,
        (seq![x] + p).last() == p.last(),
        path_cost(g, seq![x] + p) == path_cost(g, p) + cost_at(g, p.first()),
    decreases p.len(),
{
    let q = seq![x] + p;
    assert forall|k: int| 1 <= k < q.len() implies adjacent(q[k - 1], #[trigger] q[k]) by {
        if k >= 2 {
            assert(adjacent(p[k - 2], p[k - 1]));
        }
    }
    if p.len() == 1 {
        assert(q.drop_last() =~= seq![x]);
        assert(q.last() == p.first());
        assert(path_cost(g, seq![x]) == 0);
        assert(path_cost(g, q) == path_cost(g, q.drop_last()) + cost_at(g, q.last()));
    } else {
        lemma_drop_last_is_path(g, p);
        lemma_path_prepend(g, x, p.drop_last());
        assert(q.drop_last() =~= seq![x] + p.drop_last());
        assert(q.last() == p.last());
        assert(p.drop_last().first() == p.first());
        assert(path_cost(g, q) == path_cost(g, q.drop_last()) + cost_at(g, q.last()));
        assert(path_cost(g, q.drop_last()) == path_cost(g, p.drop_last()) + cost_at(
            g,
            p.first(),
        ));
    }
}

/// A prefix of a path is a path, costing no more than the whole.
pub proof fn lemma_prefix_cost(g: Seq<Seq<u8>>, p: Seq<(usize, usize)>, k: int)
    requires
        wf_grid(g),
        is_path(g, p),
        0 <= k < p.len(),
    ensures
        is_path(g, p.subrange(0, k + 1)),
        p.subrange(0, k + 1).first() == p.first(),
        p.subrange(0, k + 1).last() == p[k],
        path_cost(g, p.subrange(0, k + 1)) <= path_cost(g, p),
    decreases p.len(),
{
    if k == p.len() - 1 {
        assert(p.subrange(0, k + 1) =~= p);
    } else {
        lemma_drop_last_is_path(g, p);
        lemma_prefix_cost(g, p.drop_last(), k);
        assert(p.drop_last().subrange(0, k + 1) =~= p.subrange(0, k + 1));
        assert(in_bounds(g, p.last()));
        assert(cost_at(g, p.last()) >= 1);
    }
}

/// The staircase path that runs along the first row and then down the
/// last column; it shows every grid has a path from corner to corner.
pub open spec fn snake(n: usize, m: usize) -> Seq<(usize, usize)> {
    Seq::new(
        (n + m - 1) as nat,
        |k: int|
            if k < m {
                (0usize, k as usize)
            } else {
                ((k - m + 1) as usize, (m - 1) as usize)
            },
    )
}

/// On every well-formed grid the staircase path joins the origin to the
/// destination.
pub proof fn lemma_snake_path(g: Seq<Seq<u8>>, n: usize, m: usize)
    requires
        wf_grid(g),
        n == g.len(),
        m == g[0].len(),
    ensures
        path_from_to(g, snake(n, m), (0usize, 0usize), dest_of(g)),
{
    let p = snake(n, m);
    assert(p.len() == n + m - 1);
    assert forall|k: int| 0 <= k < p.len() implies in_bounds(g, #[trigger] p[k]) by {
        if k >= m {
            assert(p[k] == (((k - m + 1) as usize), ((m - 1) as usize)));
            assert(k - m + 1 < n);
        }
    }
    assert forall|k: int| 1 <= k < p.len() implies adjacent(p[k - 1], #[trigger] p[k]) by {
        if k < m {
            assert(p[k - 1] == (0usize, (k - 1) as usize));
            assert(p[k] == (0usize, k as usize));
        } else if k == m {
            assert(p[k - 1] == (0usize, (m - 1) as usize));
            assert(p[k] == (1usize, (m - 1) as usize));
        } else {
            assert(p[k - 1] == (((k - m) as usize), (m - 1) as usize));
            assert(p[k] == (((k - m + 1) as usize), (m - 1) as usize));
        }
    }
    assert(p.first() == (0usize, 0usize));
    if n == 1 {
        assert(p.last() == (0usize, ((m - 1) as usize)));
    } else {
        assert(p.last() == (((n - 1) as usize), ((m - 1) as usize)));
    }
}

} // verus!
