//! Laws the library obeys, stated and proved over its public contracts.

use vstd::prelude::*;
use vstd::arithmetic::div_mod::{lemma_mod_bound, lemma_mod_multiples_vanish};
use crate::grid::{expand_spec, wf_grid, wrap_spec};
use crate::paths::{
    dest_of, is_min_cost, is_path, lemma_drop_last_is_path, lemma_path_cost_nonneg, path_cost,
    path_from_to,
};

verus! {

/// The wrap law: on any argument at least 1, the wrapped value lies in
/// 1..=9, and wrapping is periodic with period 9.
pub proof fn lemma_wrap_law(x: int)
    requires
        x >= 1,
    ensures
        1 <= wrap_spec(x) <= 9,
        wrap_spec(x + 9) == wrap_spec(x),
{
    lemma_mod_bound(x - 1, 9);
    lemma_mod_multiples_vanish(1, x - 1, 9);
}

/// The least path cost is never negative, and it is zero exactly when the
/// grid has a single cell, so that the origin already is the destination.
pub proof fn lemma_min_cost_zero_iff_single_cell(g: Seq<Seq<u8>>, d: int)
    requires
        wf_grid(g),
        g.len() <= usize::MAX,
        g[0].len() <= usize::MAX,
        is_min_cost(g, (0usize, 0usize), dest_of(g), d),
    ensures
        d >= 0,
        d == 0 <==> (g.len() == 1 && g[0].len() == 1),
{
    let p = choose|p: Seq<(usize, usize)>|
        path_from_to(g, p, (0usize, 0usize), dest_of(g)) && path_cost(g, p) == d;
    lemma_path_cost_nonneg(g, p);
    if g.len() == 1 && g[0].len() == 1 {
        let single = seq![(0usize, 0usize)];
        assert(is_path(g, single));
        assert(dest_of(g) == (0usize, 0usize));
        assert(path_from_to(g, single, (0usize, 0usize), dest_of(g)));
        assert(path_cost(g, single) == 0);
        assert(d <= 0);
    } else {
        assert(dest_of(g) != (0usize, 0usize));
        assert(p.len() >= 2);
        lemma_drop_last_is_path(g, p);
        lemma_path_cost_nonneg(g, p.drop_last());
        assert(1 <= g[p.last().0 as int][p.last().1 as int] <= 9);
        assert(d >= 1);
    }
}

/// Between two fixed cells the least path cost is one number: any two
/// values that both satisfy its definition are equal.
pub proof fn lemma_min_cost_unique(
    g: Seq<Seq<u8>>,
    a: (usize, usize),
    b: (usize, usize),
    d1: int,
    d2: int,
)
    requires
        is_min_cost(g, a, b, d1),
        is_min_cost(g, a, b, d2),
    ensures
        d1 == d2,
{
    let p1 = choose|p: Seq<(usize, usize)>| path_from_to(g, p, a, b) && path_cost(g, p) == d1;
    let p2 = choose|p: Seq<(usize, usize)>| path_from_to(g, p, a, b) && path_cost(g, p) == d2;
    assert(path_cost(g, p1) >= d2);
    assert(path_cost(g, p2) >= d1);
}

/// The expansion transform is deterministic: it is a function of the grid
/// alone, so equal grids expand to equal grids.  (The executable
/// transform is pinned to this function by its contract.)
pub proof fn lemma_expand_deterministic(g1: Seq<Seq<u8>>, g2: Seq<Seq<u8>>)
    requires
        g1 == g2,
    ensures
        expand_spec(g1) == expand_spec(g2),
{
}

} // verus!
