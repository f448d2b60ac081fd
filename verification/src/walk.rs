//! Walks over the grid and what they cost: the vocabulary in which the
//! shortest-path search states its results.

use crate::grid::{
    adjacent, all_on_grid, is_square, manhattan_spec, neighbor_spec, on_grid, Cell,
};
use vstd::prelude::*;

verus! {

/// The label of a cell that the search has not reached.
pub const UNREACHED: i64 = 0x7fff_ffff_ffff_ffff;

/// The largest cost of entering a cell that the search accepts.
pub const COST_LIMIT: i64 = 0x2_0000_0000;

/// The side of the grid stays below this, so that no distance overflows.
pub const SIDE_LIMIT: usize = 0x8000;

/// The entry of `g` at `p`.
pub open spec fn at(g: Seq<Vec<i64>>, p: Cell) -> int {
    g[p.0 as int]@[p.1 as int] as int
}

/// Whether `cost` gives every cell of the `n` by `n` grid a cost of entering
/// it, at least 1 and at most [`COST_LIMIT`].
pub open spec fn valid_costs(costs: Seq<Vec<i64>>, n: usize) -> bool {
    &&& n < SIDE_LIMIT
    &&& is_square(costs, n)
    &&& forall|y: int, x: int|
        0 <= y < n && 0 <= x < n ==> 1 <= #[trigger] costs[y]@[x] <= COST_LIMIT
}

/// Whether `cost` prices the entering of every cell of the grid at least at 1
/// and at most at [`COST_LIMIT`].
pub open spec fn priced(cost: spec_fn(Cell) -> int, n: usize) -> bool {
    forall|p: Cell| on_grid(p, n) ==> 1 <= #[trigger] cost(p) <= COST_LIMIT
}

/// Whether `w` is a walk on the grid: at least one cell, each next to the one
/// before it.
pub open spec fn is_walk(w: Seq<Cell>, n: usize) -> bool {
    &&& w.len() >= 1
    &&& all_on_grid(w, n)
    &&& forall|i: int| 0 <= i < w.len() - 1 ==> adjacent(#[trigger] w[i], w[i + 1])
}

/// Whether `w` is a walk from `s` to `t`.
pub open spec fn joins(w: Seq<Cell>, s: Cell, t: Cell, n: usize) -> bool {
    is_walk(w, n) && w.first() == s && w.last() == t
}

/// What the walk `w` cost: the cost of every cell it enters. The cell it
/// starts from cost nothing.
pub open spec fn walk_cost(cost: spec_fn(Cell) -> int, w: Seq<Cell>) -> int
    decreases w.len(),
{
    if w.len() <= 1 {
        0
    } else {
        walk_cost(cost, w.drop_last()) + cost(w.last())
    }
}

/// What a path cost that is listed from its target back to its source:
/// the cost of every cell but the last, which is the source.
pub open spec fn trail_cost(cost: spec_fn(Cell) -> int, p: Seq<Cell>) -> int
    decreases p.len(),
{
    if p.len() <= 1 {
        0
    } else {
        trail_cost(cost, p.drop_last()) + cost(p[p.len() - 2])
    }
}

/// Whether some walk from `s` to `t` cost exactly `d`.
pub open spec fn reach_at(cost: spec_fn(Cell) -> int, n: usize, s: Cell, t: Cell, d: int) -> bool {
    exists|w: Seq<Cell>| joins(w, s, t, n) && walk_cost(cost, w) == d
}

/// Whether `d` is the least cost of a walk from `s` to `t`.
pub open spec fn is_distance(cost: spec_fn(Cell) -> int, n: usize, s: Cell, t: Cell, d: int) -> bool {
    &&& reach_at(cost, n, s, t, d)
    &&& forall|w: Seq<Cell>| joins(w, s, t, n) ==> d <= walk_cost(cost, w)
}

/// The least cost of a walk from `s` to `t`.
pub open spec fn distance(cost: spec_fn(Cell) -> int, n: usize, s: Cell, t: Cell) -> int {
    choose|d: int| is_distance(cost, n, s, t, d)
}

/// Whether a shortest walk from `s` to `c` can enter `c` from its neighbour
/// in direction `dir`.
pub open spec fn comes_from(cost: spec_fn(Cell) -> int, n: usize, s: Cell, c: Cell, dir: int) -> bool {
    match neighbor_spec(c, dir, n) {
        Some(q) => reach_at(cost, n, s, q, distance(cost, n, s, c) - cost(c)),
        None => false,
    }
}

/// The cell before `c` on the shortest walk from `s` that the search
/// reports: the first neighbour of `c`, in the order up, down, left, right,
/// from which a shortest walk can enter `c`.
pub open spec fn step_back(cost: spec_fn(Cell) -> int, n: usize, s: Cell, c: Cell) -> Option<Cell> {
    if comes_from(cost, n, s, c, 0) {
        neighbor_spec(c, 0, n)
    } else if comes_from(cost, n, s, c, 1) {
        neighbor_spec(c, 1, n)
    } else if comes_from(cost, n, s, c, 2) {
        neighbor_spec(c, 2, n)
    } else if comes_from(cost, n, s, c, 3) {
        neighbor_spec(c, 3, n)
    } else {
        None
    }
}

/// Whether `path` lists a reported shortest walk from `s` to `t` backwards:
/// it starts at `t`, ends at `s`, and each cell is followed by the cell
/// before it on the walk.
pub open spec fn is_trail(cost: spec_fn(Cell) -> int, n: usize, s: Cell, t: Cell, path: Seq<Cell>) -> bool {
    &&& path.len() >= 1
    &&& path.first() == t
    &&& path.last() == s
    &&& all_on_grid(path, n)
    &&& forall|i: int|
        0 <= i < path.len() - 1 ==> path[i] != s && step_back(cost, n, s, #[trigger] path[i])
            == Some(path[i + 1])
}

/// Entering one more cell adds its cost.
pub proof fn lemma_walk_push(cost: spec_fn(Cell) -> int, n: usize, w: Seq<Cell>, c: Cell)
    requires
        is_walk(w, n),
        on_grid(c, n),
        adjacent(w.last(), c),
    ensures
        is_walk(w.push(c), n),
        walk_cost(cost, w.push(c)) == walk_cost(cost, w) + cost(c),
        w.push(c).first() == w.first(),
        w.push(c).last() == c,
{
    assert(w.push(c).drop_last() =~= w);
}

/// A walk without its last cell is a walk, unless it was a single cell.
pub proof fn lemma_walk_drop(cost: spec_fn(Cell) -> int, n: usize, w: Seq<Cell>)
    requires
        is_walk(w, n),
        w.len() >= 2,
    ensures
        is_walk(w.drop_last(), n),
        w.drop_last().first() == w.first(),
        adjacent(w.drop_last().last(), w.last()),
        on_grid(w.last(), n),
        on_grid(w.drop_last().last(), n),
        walk_cost(cost, w) == walk_cost(cost, w.drop_last()) + cost(w.last()),
{
    let v = w.drop_last();
    assert forall|i: int| 0 <= i < v.len() - 1 implies adjacent(#[trigger] v[i], v[i + 1]) by {
        assert(v[i] == w[i] && v[i + 1] == w[i + 1]);
    }
    assert(v.last() == w[w.len() - 2]);
    assert(on_grid(w[w.len() - 1], n));
    assert(on_grid(w[w.len() - 2], n));
}

/// A walk cost at least 1 and at most [`COST_LIMIT`] for every cell it
/// enters.
pub proof fn lemma_walk_cost_bounds(cost: spec_fn(Cell) -> int, n: usize, w: Seq<Cell>)
    requires
        priced(cost, n),
        is_walk(w, n),
    ensures
        w.len() - 1 <= walk_cost(cost, w) <= (w.len() - 1) * COST_LIMIT,
    decreases w.len(),
{
    if w.len() >= 2 {
        lemma_walk_drop(cost, n, w);
        lemma_walk_cost_bounds(cost, n, w.drop_last());
    }
}

/// The least cost of a walk between two cells is one number.
pub proof fn lemma_distance_unique(cost: spec_fn(Cell) -> int, n: usize, s: Cell, t: Cell, d: int)
    requires
        is_distance(cost, n, s, t, d),
    ensures
        distance(cost, n, s, t) == d,
{
    let e = distance(cost, n, s, t);
    assert(is_distance(cost, n, s, t, e));
    let w1 = choose|w: Seq<Cell>| joins(w, s, t, n) && walk_cost(cost, w) == d;
    let w2 = choose|w: Seq<Cell>| joins(w, s, t, n) && walk_cost(cost, w) == e;
    assert(e <= walk_cost(cost, w1));
    assert(d <= walk_cost(cost, w2));
}

/// The cell next to `q` that is one step nearer to `s`, rows first.
pub open spec fn toward(s: Cell, q: Cell) -> Cell {
    if q.0 > s.0 {
        ((q.0 - 1) as usize, q.1)
    } else if q.0 < s.0 {
        ((q.0 + 1) as usize, q.1)
    } else if q.1 > s.1 {
        (q.0, (q.1 - 1) as usize)
    } else {
        (q.0, (q.1 + 1) as usize)
    }
}

/// A walk from `s` to `q` that first follows the column of `s` and then the
/// row of `q`.
pub open spec fn corner_walk(s: Cell, q: Cell) -> Seq<Cell>
    decreases manhattan_spec(s, q),
{
    if q == s {
        seq![s]
    } else {
        corner_walk(s, toward(s, q)).push(q)
    }
}

/// Any two cells of the grid are joined by a walk of as many steps as they
/// are apart.
pub proof fn lemma_corner_walk(n: usize, s: Cell, q: Cell)
    requires
        on_grid(s, n),
        on_grid(q, n),
    ensures
        joins(corner_walk(s, q), s, q, n),
        corner_walk(s, q).len() == manhattan_spec(s, q) + 1,
    decreases manhattan_spec(s, q),
{
    if q != s {
        let p = toward(s, q);
        lemma_corner_walk(n, s, p);
        lemma_walk_push(|c: Cell| 0int, n, corner_walk(s, p), q);
    }
}

/// A walk has at least as many steps as its two ends are apart.
pub proof fn lemma_walk_spans(w: Seq<Cell>, n: usize)
    requires
        is_walk(w, n),
    ensures
        manhattan_spec(w.first(), w.last()) <= w.len() - 1,
    decreases w.len(),
{
    if w.len() >= 2 {
        lemma_walk_drop(|c: Cell| 0int, n, w);
        lemma_walk_spans(w.drop_last(), n);
    }
}

} // verus!
