//! A plan as a set of cells: the cells to be broken are marked on the grid,
//! first along the paths of a network between the houses and the sources.

use crate::estimate::cells_of;
use crate::field::{Field, Leg};
use crate::flood::{flood, linked, marked, marks_of};
use crate::grid::{all_on_grid, contains_cell, is_square, on_grid, Cell};
use crate::network::{build_network, covers, made_of, Edge};
use crate::search::rand;
use crate::sums::sum;
use crate::walk::{is_distance, is_trail, SIDE_LIMIT};
use vstd::prelude::*;

verus! {

/// A plan: the cells to be broken, marked on the grid.
pub struct State {
    /// The cells of the sources.
    pub sources: Vec<Cell>,
    /// The cells of the houses.
    pub houses: Vec<Cell>,
    /// Whether each cell is to be broken.
    pub destructive: Vec<Vec<bool>>,
    /// The summed estimate of the marked cells, once it has been computed.
    pub score: Option<i64>,
}

/// The ids `0..n`.
pub open spec fn ids(n: nat) -> Seq<usize> {
    Seq::new(n, |i: int| i as usize)
}

/// The ids `from..from + n`.
pub open spec fn ids_from(from: nat, n: nat) -> Seq<usize> {
    Seq::new(n, |i: int| (from + i) as usize)
}

/// Whether `legs` holds, for every pair of `nodes`, their distance over the
/// plain estimates of `field` and the reported shortest path between them.
pub open spec fn legs_between(field: &Field, nodes: Seq<Cell>, legs: Seq<Vec<Leg>>) -> bool {
    &&& covers(legs, nodes.len())
    &&& forall|u: int, v: int|
        0 <= u < nodes.len() && 0 <= v < nodes.len() ==> {
            &&& is_distance(
                field.raw_cost(),
                field.n,
                nodes[u],
                nodes[v],
                (#[trigger] legs[u]@[v]).0 as int,
            )
            &&& is_trail(field.raw_cost(), field.n, nodes[u], nodes[v], legs[u]@[v].1@)
        }
}

/// The summed estimates of the cells of row `y` that are marked.
pub open spec fn row_score(marks: Seq<bool>, row: Seq<i32>, x: int) -> int {
    sum(
        Seq::new(
            x as nat,
            |i: int|
                if marks[i] {
                    row[i] as int
                } else {
                    0
                },
        ),
    )
}

/// The summed estimates of the marked cells in the first `y` rows.
pub open spec fn grid_score(marks: Seq<Vec<bool>>, g: Seq<Vec<i32>>, n: usize, y: int) -> int {
    sum(Seq::new(y as nat, |j: int| row_score(marks[j]@, g[j]@, n as int)))
}

/// The ids `from..from + n`.
fn count_from(from: usize, n: usize) -> (r: Vec<usize>)
    requires
        from + n <= usize::MAX,
    ensures
        r@ == ids_from(from as nat, n as nat),
{
    let mut r: Vec<usize> = Vec::new();
    let mut i: usize = 0;
    while i < n
        invariant
            from + n <= usize::MAX,
            i <= n,
            r@ == ids_from(from as nat, i as nat),
        decreases n - i,
    {
        r.push(from + i);
        assert(r@ =~= ids_from(from as nat, (i + 1) as nat));
        i += 1;
    }
    r
}

fn copy_marks(g: &Vec<Vec<bool>>) -> (r: Vec<Vec<bool>>)
    ensures
        r@.len() == g@.len(),
        forall|y: int| 0 <= y < g@.len() ==> (#[trigger] r@[y])@ == g@[y]@,
{
    let mut r: Vec<Vec<bool>> = Vec::new();
    let mut y: usize = 0;
    while y < g.len()
        invariant
            y <= g@.len(),
            r@.len() == y,
            forall|j: int| 0 <= j < y ==> (#[trigger] r@[j])@ == g@[j]@,
        decreases g@.len() - y,
    {
        let mut row: Vec<bool> = Vec::new();
        let mut x: usize = 0;
        while x < g[y].len()
            invariant
                y < g@.len(),
                x <= g@[y as int]@.len(),
                row@ == g@[y as int]@.subrange(0, x as int),
            decreases g@[y as int]@.len() - x,
        {
            row.push(g[y][x]);
            assert(row@ =~= g@[y as int]@.subrange(0, x + 1));
            x += 1;
        }
        assert(row@ =~= g@[y as int]@);
        r.push(row);
        y += 1;
    }
    r
}

impl State {
    /// The marks cover the grid of side `n`, on which the sources and the
    /// houses lie.
    pub open spec fn wf(&self, n: usize) -> bool {
        &&& is_square(self.destructive@, n)
        &&& all_on_grid(self.sources@, n)
        &&& all_on_grid(self.houses@, n)
    }

    /// Whether `p` is the cell of a house or of a source.
    pub open spec fn terminal(&self, p: Cell) -> bool {
        self.houses@.contains(p) || self.sources@.contains(p)
    }

    /// The houses followed by the sources.
    pub open spec fn nodes(&self) -> Seq<Cell> {
        self.houses@ + self.sources@
    }

    /// The marked cells that are neither a house nor a source.
    pub open spec fn soft(&self, n: usize) -> spec_fn(Cell) -> bool {
        |p: Cell| on_grid(p, n) && marked(self.destructive@, p) && !self.terminal(p)
    }

    /// Whether `other` has the same sources, houses and score.
    pub open spec fn same_ends(&self, other: &State) -> bool {
        &&& self.sources == other.sources
        &&& self.houses == other.houses
        &&& self.score == other.score
    }

    /// The plan for `field` in which no cell is marked yet.
    pub fn new(sources: &Vec<Cell>, houses: &Vec<Cell>, field: &Field) -> (s: Self)
        ensures
            s.sources@ == sources@,
            s.houses@ == houses@,
            s.score is None,
            is_square(s.destructive@, field.n),
            forall|p: Cell| on_grid(p, field.n) ==> !marked(s.destructive@, p),
    {
        State {
            sources: crate::grid::copy_cells(sources),
            houses: crate::grid::copy_cells(houses),
            destructive: vec![vec![false; field.n]; field.n],
            score: None,
        }
    }

    /// A copy of this plan that is not yet scored.
    pub fn clone(&self) -> (s: Self)
        ensures
            s.sources@ == self.sources@,
            s.houses@ == self.houses@,
            s.score is None,
            s.destructive@.len() == self.destructive@.len(),
            forall|y: int|
                0 <= y < self.destructive@.len() ==> (#[trigger] s.destructive@[y])@
                    == self.destructive@[y]@,
    {
        State {
            sources: crate::grid::copy_cells(&self.sources),
            houses: crate::grid::copy_cells(&self.houses),
            destructive: copy_marks(&self.destructive),
            score: None,
        }
    }

    /// Whether `(y, x)` is the cell of a house or of a source.
    pub fn is_house_or_source(&self, y: usize, x: usize) -> (b: bool)
        ensures
            b == self.terminal((y, x)),
    {
        contains_cell(&self.houses, (y, x)) || contains_cell(&self.sources, (y, x))
    }

    /// Marks the cells of `cells`.
    fn mark_all(&mut self, cells: &Vec<Cell>, n: usize)
        requires
            old(self).wf(n),
            all_on_grid(cells@, n),
        ensures
            final(self).wf(n),
            final(self).same_ends(old(self)),
            forall|p: Cell|
                on_grid(p, n) ==> marked(final(self).destructive@, p) == (marked(
                    old(self).destructive@,
                    p,
                ) || cells@.contains(p)),
    {
        let mut i: usize = 0;
        while i < cells.len()
            invariant
                self.wf(n),
                self.same_ends(old(self)),
                all_on_grid(cells@, n),
                i <= cells@.len(),
                forall|p: Cell|
                    on_grid(p, n) ==> marked(self.destructive@, p) == (marked(
                        old(self).destructive@,
                        p,
                    ) || cells@.subrange(0, i as int).contains(p)),
            decreases cells@.len() - i,
        {
            let c: Cell = cells[i];
            assert(on_grid(cells@[i as int], n));
            let ghost before = self.destructive@;
            self.destructive[c.0][c.1] = true;
            proof {
                lemma_mark_changed(before, self.destructive@, n, c, true);
                let done = cells@.subrange(0, i as int);
                let more = cells@.subrange(0, i + 1);
                assert forall|p: Cell| on_grid(p, n) implies marked(self.destructive@, p) == (
                marked(old(self).destructive@, p) || more.contains(p)) by {
                    if p == c {
                        assert(more[i as int] == c);
                    } else {
                        if done.contains(p) {
                            let j = choose|j: int| 0 <= j < done.len() && done[j] == p;
                            assert(more[j] == p);
                        }
                        if more.contains(p) {
                            let j = choose|j: int| 0 <= j < more.len() && more[j] == p;
                            assert(done[j] == p);
                        }
                    }
                }
            }
            i += 1;
        }
        assert(cells@.subrange(0, i as int) =~= cells@);
    }

    /// Marks the cells of a network between the houses and the sources: for
    /// every pair of them the shortest path over the plain estimates of
    /// `field` is found, the pairs are taken from the nearest on unless the
    /// two are connected already or each is connected to a source, and the
    /// cells on the paths of the pairs taken are marked.
    pub fn init_state(&mut self, field: &Field)
        requires
            old(self).wf(field.n),
            field.wf(),
        ensures
            final(self).wf(field.n),
            final(self).same_ends(old(self)),
            exists|legs: Seq<Vec<Leg>>, edges: Seq<Edge>|
                {
                    &&& #[trigger] legs_between(field, old(self).nodes(), legs)
                    &&& #[trigger] made_of(
                        legs,
                        ids(old(self).nodes().len()),
                        ids_from(old(self).houses@.len(), old(self).sources@.len()),
                        old(self).nodes().len(),
                        edges,
                    )
                    &&& forall|p: Cell|
                        on_grid(p, field.n) ==> marked(final(self).destructive@, p) == (marked(
                            old(self).destructive@,
                            p,
                        ) || cells_of(legs, edges).contains(p))
                },
    {
        let n: usize = field.n;
        let mut nodes: Vec<Cell> = crate::grid::copy_cells(&self.houses);
        let mut i: usize = 0;
        while i < self.sources.len()
            invariant
                self.wf(n),
                *self == *old(self),
                i <= self.sources@.len(),
                nodes@ == self.houses@ + self.sources@.subrange(0, i as int),
            decreases self.sources@.len() - i,
        {
            nodes.push(self.sources[i]);
            assert(nodes@ =~= self.houses@ + self.sources@.subrange(0, i + 1));
            i += 1;
        }
        assert(self.sources@.subrange(0, i as int) =~= self.sources@);
        let total: usize = nodes.len();
        proof {
            assert forall|a: int| 0 <= a < nodes@.len() implies on_grid(#[trigger] nodes@[a], n) by {
                if a < self.houses@.len() {
                    assert(nodes@[a] == self.houses@[a]);
                } else {
                    assert(nodes@[a] == self.sources@[a - self.houses@.len()]);
                }
            }
        }
        let mut legs: Vec<Vec<Leg>> = Vec::new();
        let mut u: usize = 0;
        while u < total
            invariant
                field.wf(),
                n == field.n,
                total == nodes@.len(),
                all_on_grid(nodes@, n),
                u <= total,
                legs@.len() == u,
                forall|a: int| 0 <= a < u ==> (#[trigger] legs@[a])@.len() == total,
                forall|a: int, b: int|
                    0 <= a < u && 0 <= b < total ==> {
                        &&& is_distance(
                            field.raw_cost(),
                            n,
                            nodes@[a],
                            nodes@[b],
                            (#[trigger] legs@[a]@[b]).0 as int,
                        )
                        &&& is_trail(field.raw_cost(), n, nodes@[a], nodes@[b], legs@[a]@[b].1@)
                    },
            decreases total - u,
        {
            let mut row: Vec<Leg> = Vec::new();
            let mut v: usize = 0;
            while v < total
                invariant
                    field.wf(),
                    n == field.n,
                    total == nodes@.len(),
                    all_on_grid(nodes@, n),
                    u < total,
                    v <= total,
                    row@.len() == v,
                    forall|b: int|
                        0 <= b < v ==> {
                            &&& is_distance(
                                field.raw_cost(),
                                n,
                                nodes@[u as int],
                                nodes@[b],
                                (#[trigger] row@[b]).0 as int,
                            )
                            &&& is_trail(
                                field.raw_cost(),
                                n,
                                nodes@[u as int],
                                nodes@[b],
                                row@[b].1@,
                            )
                        },
                decreases total - v,
            {
                assert(on_grid(nodes@[u as int], n) && on_grid(nodes@[v as int], n));
                let leg: Leg = field.dijkstra(nodes[u], nodes[v]);
                row.push(leg);
                v += 1;
            }
            legs.push(row);
            u += 1;
        }
        let keys: Vec<usize> = count_from(0, total);
        let water: Vec<usize> = count_from(self.houses.len(), self.sources.len());
        proof {
            assert(keys@ =~= ids(total as nat));
        }
        let edges: Vec<Edge> = build_network(&legs, &keys, &water, total);
        let mut cells: Vec<Cell> = Vec::new();
        let mut e: usize = 0;
        while e < edges.len()
            invariant
                covers(legs@, total as nat),
                crate::union_find::Partition::edges_within(edges@, total as nat),
                forall|a: int, b: int|
                    0 <= a < total && 0 <= b < total ==> all_on_grid(
                        (#[trigger] legs@[a]@[b]).1@,
                        n,
                    ),
                e <= edges@.len(),
                cells@ == cells_of(legs@, edges@.subrange(0, e as int)),
                all_on_grid(cells@, n),
            decreases edges@.len() - e,
        {
            let edge: Edge = edges[e];
            assert(edges@.subrange(0, e + 1).drop_last() =~= edges@.subrange(0, e as int));
            let ghost before = cells@;
            let ghost path = legs@[edge.0 as int]@[edge.1 as int].1@;
            assert(all_on_grid(path, n));
            let mut j: usize = 0;
            while j < legs[edge.0][edge.1].1.len()
                invariant
                    covers(legs@, total as nat),
                    edge.0 < total,
                    edge.1 < total,
                    path == legs@[edge.0 as int]@[edge.1 as int].1@,
                    all_on_grid(path, n),
                    j <= path.len(),
                    cells@ == before + path.subrange(0, j as int),
                    all_on_grid(cells@, n),
                decreases path.len() - j,
            {
                let c: Cell = legs[edge.0][edge.1].1[j];
                cells.push(c);
                assert(cells@ =~= before + path.subrange(0, j + 1));
                assert(on_grid(path[j as int], n));
                j += 1;
            }
            assert(path.subrange(0, j as int) =~= path);
            e += 1;
        }
        assert(edges@.subrange(0, e as int) =~= edges@);
        self.mark_all(&cells, n);
        proof {
            assert(legs_between(field, old(self).nodes(), legs@));
            assert(made_of(
                legs@,
                ids(old(self).nodes().len()),
                ids_from(old(self).houses@.len(), old(self).sources@.len()),
                old(self).nodes().len(),
                edges@,
            ));
        }
    }

    /// The summed estimate of the marked cells, computed on the first call
    /// and kept in the plan for the next.
    pub fn score(&mut self, field: &Field) -> (v: i64)
        requires
            old(self).wf(field.n),
            field.wf(),
        ensures
            v == (match old(self).score {
                Some(kept) => kept as int,
                None => grid_score(
                    old(self).destructive@,
                    field.guess@,
                    field.n,
                    field.n as int,
                ),
            }),
            final(self).score == Some(v),
            final(self).sources == old(self).sources,
            final(self).houses == old(self).houses,
            final(self).destructive == old(self).destructive,
    {
        match self.score {
            Some(v) => {
                return v;
            },
            None => {},
        }
        let n: usize = field.n;
        let mut res: i64 = 0;
        let mut y: usize = 0;
        while y < n
            invariant
                self.wf(n),
                field.wf(),
                n == field.n,
                *self == *old(self),
                y <= n,
                res == grid_score(self.destructive@, field.guess@, n, y as int),
                0 <= res <= y * 0x4000_0000_0000,
            decreases n - y,
        {
            let mut row: i64 = 0;
            let mut x: usize = 0;
            while x < n
                invariant
                    self.wf(n),
                    field.wf(),
                    n == field.n,
                    y < n,
                    x <= n,
                    row == row_score(self.destructive@[y as int]@, field.guess@[y as int]@, x as int),
                    0 <= row <= x * 0x8000_0000,
                decreases n - x,
            {
                let ghost before = Seq::new(
                    x as nat,
                    |i: int|
                        if self.destructive@[y as int]@[i] {
                            field.guess@[y as int]@[i] as int
                        } else {
                            0
                        },
                );
                let ghost after = Seq::new(
                    (x + 1) as nat,
                    |i: int|
                        if self.destructive@[y as int]@[i] {
                            field.guess@[y as int]@[i] as int
                        } else {
                            0
                        },
                );
                assert(after.drop_last() =~= before);
                assert(0 <= field.guess@[y as int]@[x as int]);
                if self.destructive[y][x] {
                    row = row + field.guess[y][x] as i64;
                }
                x += 1;
            }
            let ghost before = Seq::new(
                y as nat,
                |j: int| row_score(self.destructive@[j]@, field.guess@[j]@, n as int),
            );
            let ghost after = Seq::new(
                (y + 1) as nat,
                |j: int| row_score(self.destructive@[j]@, field.guess@[j]@, n as int),
            );
            assert(after.drop_last() =~= before);
            res = res + row;
            y += 1;
        }
        self.score = Some(res);
        res
    }

    /// The marked cells, each once: the grid is gone through row by row, and
    /// with every marked cell not yet listed come the marked cells that can
    /// be reached from it over marked cells.
    pub fn done(&self, field: &Field) -> (out: Vec<Cell>)
        requires
            self.wf(field.n),
        ensures
            all_on_grid(out@, field.n),
            out@.no_duplicates(),
            forall|p: Cell| on_grid(p, field.n) ==> (out@.contains(p) <==> marked(self.destructive@, p)),
    {
        let n: usize = field.n;
        let mut seen: Vec<Vec<bool>> = vec![vec![false; n]; n];
        let mut out: Vec<Cell> = Vec::new();
        let mut y: usize = 0;
        while y < n
            invariant
                self.wf(n),
                is_square(seen@, n),
                all_on_grid(out@, n),
                out@.no_duplicates(),
                y <= n,
                forall|p: Cell| on_grid(p, n) ==> (#[trigger] marked(seen@, p) <==> out@.contains(p)),
                forall|p: Cell| out@.contains(p) ==> marked(self.destructive@, p),
                forall|p: Cell|
                    on_grid(p, n) && p.0 < y && marked(self.destructive@, p) ==> out@.contains(p),
            decreases n - y,
        {
            let mut x: usize = 0;
            while x < n
                invariant
                    self.wf(n),
                    is_square(seen@, n),
                    all_on_grid(out@, n),
                    out@.no_duplicates(),
                    y < n,
                    x <= n,
                    forall|p: Cell|
                        on_grid(p, n) ==> (#[trigger] marked(seen@, p) <==> out@.contains(p)),
                    forall|p: Cell| out@.contains(p) ==> marked(self.destructive@, p),
                    forall|p: Cell|
                        on_grid(p, n) && (p.0 < y || (p.0 == y && p.1 < x)) && marked(
                            self.destructive@,
                            p,
                        ) ==> out@.contains(p),
                decreases n - x,
            {
                if self.destructive[y][x] && !seen[y][x] {
                    let part: Vec<Cell> = flood(&self.destructive, n, (y, x));
                    let ghost listed = out@;
                    let mut i: usize = 0;
                    while i < part.len()
                        invariant
                            self.wf(n),
                            is_square(seen@, n),
                            all_on_grid(out@, n),
                            all_on_grid(part@, n),
                            out@.no_duplicates(),
                            i <= part@.len(),
                            forall|p: Cell|
                                on_grid(p, n) ==> (#[trigger] marked(seen@, p) <==> out@.contains(
                                    p,
                                )),
                            forall|p: Cell| out@.contains(p) ==> marked(self.destructive@, p),
                            forall|p: Cell| listed.contains(p) ==> out@.contains(p),
                            forall|p: Cell|
                                part@.subrange(0, i as int).contains(p) ==> out@.contains(p),
                            forall|p: Cell|
                                on_grid(p, n) && part@.contains(p) ==> linked(
                                    marks_of(self.destructive@, n),
                                    n,
                                    (y, x),
                                    p,
                                ),
                        decreases part@.len() - i,
                    {
                        let c: Cell = part[i];
                        assert(on_grid(part@[i as int], n));
                        assert(part@.contains(c));
                        let ghost done = part@.subrange(0, i as int);
                        let ghost more = part@.subrange(0, i + 1);
                        let ghost before = out@;
                        assert(marked(seen@, c) <==> out@.contains(c));
                        if !seen[c.0][c.1] {
                            let ghost marks = seen@;
                            seen[c.0][c.1] = true;
                            out.push(c);
                            proof {
                                lemma_mark_changed(marks, seen@, n, c, true);
                                lemma_in_walk(marks_of(self.destructive@, n), n, (y, x), c);
                                lemma_listed(before, out@, c);
                                assert forall|p: Cell| on_grid(p, n) implies (#[trigger] marked(
                                    seen@,
                                    p,
                                ) <==> out@.contains(p)) by {
                                    if p != c {
                                        assert(marked(seen@, p) == marked(marks, p));
                                        assert(marked(marks, p) <==> before.contains(p));
                                    }
                                }
                            }
                        }
                        proof {
                            assert(out@.contains(c));
                            assert forall|p: Cell| before.contains(p) implies out@.contains(p) by {
                                let j = choose|j: int| 0 <= j < before.len() && before[j] == p;
                                assert(out@[j] == p);
                            }
                            assert forall|p: Cell| more.contains(p) implies out@.contains(p) by {
                                let j = choose|j: int| 0 <= j < more.len() && more[j] == p;
                                if j < i {
                                    assert(done[j] == p);
                                    assert(done.contains(p));
                                } else {
                                    assert(p == c);
                                }
                            }
                        }
                        i += 1;
                    }
                    proof {
                        assert(part@.subrange(0, i as int) =~= part@);
                        assert(part@[0] == (y, x));
                        assert(part@.contains((y, x)));
                        assert(out@.contains((y, x)));
                    }
                }
                proof {
                    assert(marked(seen@, (y, x)) <==> out@.contains((y, x)));
                    assert forall|p: Cell|
                        on_grid(p, n) && (p.0 < y || (p.0 == y && p.1 < x + 1)) && marked(
                            self.destructive@,
                            p,
                        ) implies out@.contains(p) by {
                        if p == (y, x) {
                            assert(out@.contains((y, x)));
                        }
                    }
                }
                x += 1;
            }
            y += 1;
        }
        out
    }

    /// Takes the marks off the marked cells that can be reached from `start`
    /// over marked cells that are neither a house nor a source: a whole
    /// piece of the plan between such cells is given up.
    pub fn clear_from(&mut self, start: Cell)
        requires
            old(self).wf(old(self).destructive@.len() as usize),
            old(self).destructive@.len() < SIDE_LIMIT,
            old(self).soft(old(self).destructive@.len() as usize)(start),
        ensures
            final(self).wf(old(self).destructive@.len() as usize),
            final(self).same_ends(old(self)),
            forall|p: Cell|
                on_grid(p, old(self).destructive@.len() as usize) ==> marked(
                    final(self).destructive@,
                    p,
                ) == (marked(old(self).destructive@, p) && !linked(
                    old(self).soft(old(self).destructive@.len() as usize),
                    old(self).destructive@.len() as usize,
                    start,
                    p,
                )),
    {
        let n: usize = self.destructive.len();
        let mut open: Vec<Vec<bool>> = Vec::new();
        let mut y: usize = 0;
        while y < n
            invariant
                self.wf(n),
                *self == *old(self),
                y <= n,
                open@.len() == y,
                forall|j: int| 0 <= j < y ==> (#[trigger] open@[j])@.len() == n,
                forall|j: int, i: int|
                    0 <= j < y && 0 <= i < n ==> #[trigger] open@[j]@[i] == self.soft(n)(
                        (j as usize, i as usize),
                    ),
            decreases n - y,
        {
            let mut row: Vec<bool> = Vec::new();
            let mut x: usize = 0;
            while x < n
                invariant
                    self.wf(n),
                    y < n,
                    x <= n,
                    row@.len() == x,
                    forall|i: int|
                        0 <= i < x ==> #[trigger] row@[i] == self.soft(n)((y, i as usize)),
                decreases n - x,
            {
                let soft: bool = self.destructive[y][x] && !self.is_house_or_source(y, x);
                row.push(soft);
                x += 1;
            }
            open.push(row);
            y += 1;
        }
        proof {
            assert forall|p: Cell| #[trigger] marks_of(open@, n)(p) == self.soft(n)(p) by {
                if on_grid(p, n) {
                    assert(open@[p.0 as int]@[p.1 as int] == self.soft(n)(
                        (p.0 as usize, p.1 as usize),
                    ));
                }
            }
            assert(marks_of(open@, n) =~= self.soft(n));
        }
        let part: Vec<Cell> = flood(&open, n, start);
        let ghost soft = old(self).soft(n);
        let mut i: usize = 0;
        while i < part.len()
            invariant
                self.wf(n),
                self.same_ends(old(self)),
                all_on_grid(part@, n),
                i <= part@.len(),
                forall|p: Cell|
                    on_grid(p, n) ==> marked(self.destructive@, p) == (marked(
                        old(self).destructive@,
                        p,
                    ) && !part@.subrange(0, i as int).contains(p)),
            decreases part@.len() - i,
        {
            let c: Cell = part[i];
            assert(on_grid(part@[i as int], n));
            let ghost before = self.destructive@;
            self.destructive[c.0][c.1] = false;
            proof {
                lemma_mark_changed(before, self.destructive@, n, c, false);
                let done = part@.subrange(0, i as int);
                let more = part@.subrange(0, i + 1);
                assert forall|p: Cell| on_grid(p, n) implies marked(self.destructive@, p) == (
                marked(old(self).destructive@, p) && !more.contains(p)) by {
                    if p == c {
                        assert(more[i as int] == c);
                    } else {
                        if done.contains(p) {
                            let j = choose|j: int| 0 <= j < done.len() && done[j] == p;
                            assert(more[j] == p);
                        }
                        if more.contains(p) {
                            let j = choose|j: int| 0 <= j < more.len() && more[j] == p;
                            assert(done[j] == p);
                        }
                    }
                }
            }
            i += 1;
        }
        assert(part@.subrange(0, i as int) =~= part@);
    }

    /// The marked cells that are neither a house nor a source, row by row.
    pub fn soft_cells(&self) -> (cells: Vec<Cell>)
        requires
            self.wf(self.destructive@.len() as usize),
        ensures
            forall|p: Cell| cells@.contains(p) <==> self.soft(self.destructive@.len() as usize)(p),
    {
        let n: usize = self.destructive.len();
        let mut cells: Vec<Cell> = Vec::new();
        let mut y: usize = 0;
        while y < n
            invariant
                self.wf(n),
                y <= n,
                forall|p: Cell| cells@.contains(p) ==> self.soft(n)(p),
                forall|p: Cell| self.soft(n)(p) && p.0 < y ==> cells@.contains(p),
            decreases n - y,
        {
            let mut x: usize = 0;
            while x < n
                invariant
                    self.wf(n),
                    y < n,
                    x <= n,
                    forall|p: Cell| cells@.contains(p) ==> self.soft(n)(p),
                    forall|p: Cell|
                        self.soft(n)(p) && (p.0 < y || (p.0 == y && p.1 < x)) ==> cells@.contains(
                            p,
                        ),
                decreases n - x,
            {
                if self.destructive[y][x] && !self.is_house_or_source(y, x) {
                    let ghost before = cells@;
                    cells.push((y, x));
                    proof {
                        lemma_listed(before, cells@, (y, x));
                    }
                }
                x += 1;
            }
            y += 1;
        }
        cells
    }

    /// Gives up a piece of the plan chosen at random: one of the marked
    /// cells that are neither a house nor a source is picked, and the marks
    /// are taken off all such cells that can be reached from it over such
    /// cells.
    pub fn destruct(&mut self)
        requires
            old(self).wf(old(self).destructive@.len() as usize),
            old(self).destructive@.len() < SIDE_LIMIT,
            exists|p: Cell| #[trigger] old(self).soft(old(self).destructive@.len() as usize)(p),
        ensures
            final(self).wf(old(self).destructive@.len() as usize),
            final(self).same_ends(old(self)),
            exists|start: Cell|
                {
                    &&& #[trigger] old(self).soft(old(self).destructive@.len() as usize)(start)
                    &&& forall|p: Cell|
                        on_grid(p, old(self).destructive@.len() as usize) ==> marked(
                            final(self).destructive@,
                            p,
                        ) == (marked(old(self).destructive@, p) && !linked(
                            old(self).soft(old(self).destructive@.len() as usize),
                            old(self).destructive@.len() as usize,
                            start,
                            p,
                        ))
                },
    {
        let cells: Vec<Cell> = self.soft_cells();
        proof {
            let p = choose|p: Cell| #[trigger]
                old(self).soft(old(self).destructive@.len() as usize)(p);
            assert(cells@.contains(p));
        }
        let at: usize = rand(0, cells.len());
        let start: Cell = cells[at];
        assert(cells@.contains(start));
        self.clear_from(start);
    }

    /// Changes the plan at random: a piece of it is given up.
    pub fn claim(&mut self, field: &Field)
        requires
            old(self).wf(old(self).destructive@.len() as usize),
            old(self).destructive@.len() < SIDE_LIMIT,
            exists|p: Cell| #[trigger] old(self).soft(old(self).destructive@.len() as usize)(p),
        ensures
            final(self).wf(old(self).destructive@.len() as usize),
            final(self).same_ends(old(self)),
            exists|start: Cell|
                {
                    &&& #[trigger] old(self).soft(old(self).destructive@.len() as usize)(start)
                    &&& forall|p: Cell|
                        on_grid(p, old(self).destructive@.len() as usize) ==> marked(
                            final(self).destructive@,
                            p,
                        ) == (marked(old(self).destructive@, p) && !linked(
                            old(self).soft(old(self).destructive@.len() as usize),
                            old(self).destructive@.len() as usize,
                            start,
                            p,
                        ))
                },
    {
        self.destruct();
    }

    /// Leaves the plan as it is.
    pub fn construct(&mut self, field: &Field)
        ensures
            *final(self) == *old(self),
    {
    }
}

/// Whether `after` is `before` with the mark of `q` set to `to`.
spec fn mark_changed(before: Seq<Vec<bool>>, after: Seq<Vec<bool>>, q: Cell, to: bool) -> bool {
    &&& after.len() == before.len()
    &&& forall|j: int| 0 <= j < before.len() && j != q.0 ==> (#[trigger] after[j])@ == before[j]@
    &&& after[q.0 as int]@ == before[q.0 as int]@.update(q.1 as int, to)
}

proof fn lemma_mark_changed(
    before: Seq<Vec<bool>>,
    after: Seq<Vec<bool>>,
    n: usize,
    q: Cell,
    to: bool,
)
    requires
        is_square(before, n),
        on_grid(q, n),
        mark_changed(before, after, q, to),
    ensures
        is_square(after, n),
        marked(after, q) == to,
        forall|p: Cell| on_grid(p, n) && p != q ==> marked(after, p) == marked(before, p),
{
    assert forall|y: int| 0 <= y < n implies (#[trigger] after[y]).len() == n by {
        if y != q.0 {
            assert(after[y]@ == before[y]@);
        }
    }
    assert forall|p: Cell| on_grid(p, n) && p != q implies marked(after, p) == marked(
        before,
        p,
    ) by {
        if p.0 != q.0 {
            assert(after[p.0 as int]@ == before[p.0 as int]@);
        }
    }
}

/// A list with one more cell holds what it held and that cell; it has no
/// cell twice if it had none twice and did not hold that cell.
proof fn lemma_listed(before: Seq<Cell>, after: Seq<Cell>, c: Cell)
    requires
        after == before.push(c),
    ensures
        forall|p: Cell| after.contains(p) <==> (before.contains(p) || p == c),
        before.no_duplicates() && !before.contains(c) ==> after.no_duplicates(),
{
    assert forall|p: Cell| after.contains(p) <==> (before.contains(p) || p == c) by {
        if before.contains(p) {
            let j = choose|j: int| 0 <= j < before.len() && before[j] == p;
            assert(after[j] == p);
        }
        if p == c {
            assert(after[before.len() as int] == c);
        }
        if after.contains(p) {
            let j = choose|j: int| 0 <= j < after.len() && after[j] == p;
            if j < before.len() {
                assert(before[j] == p);
            }
        }
    }
    if before.no_duplicates() && !before.contains(c) {
        assert forall|i: int, j: int|
            0 <= i < after.len() && 0 <= j < after.len() && i != j implies after[i] != after[j] by {
            if i < before.len() && j < before.len() {
                assert(before[i] != before[j]);
            } else if i < before.len() {
                assert(before.contains(before[i]));
            } else {
                assert(before.contains(before[j]));
            }
        }
    }
}

/// A cell that a walk over cells of `open` ends in is a cell of `open`.
proof fn lemma_in_walk(open: spec_fn(Cell) -> bool, n: usize, a: Cell, b: Cell)
    requires
        linked(open, n, a, b),
    ensures
        open(b),
{
    let w = choose|w: Seq<Cell>|
        crate::walk::joins(w, a, b, n) && #[trigger] crate::flood::walk_in(open, w);
    assert(w.len() >= 1);
    assert(open(w[w.len() - 1]));
}

} // verus!
