//! Estimating the field: which cells are surveyed, how the cells in between
//! get their estimates, and the table of legs between the landmarks.

use crate::field::{Field, Leg};
use crate::grid::{all_on_grid, is_square, manhattan, manhattan_spec, on_grid, Cell};
use crate::network::{Edge, State};
use crate::schedule::HARD_ESTIMATE;
use crate::smoothing::{smooth_times, value};
use crate::walk::{
    is_distance, is_trail, joins, lemma_walk_cost_bounds, priced, walk_cost, SIDE_LIMIT,
};
use vstd::prelude::*;

verus! {

/// The first row and column of the lattice of landmarks.
pub const LATTICE_START: usize = 8;

/// The distance between neighbouring rows and columns of the lattice.
pub const LATTICE_STRIDE: usize = 12;

/// A lattice point this near to a cell already surveyed is not surveyed.
pub const NEAR_ENOUGH: u64 = 5;

/// A lattice point this far from every house and from every source is not
/// surveyed either and counts as hard.
pub const TOO_FAR: u64 = 75;

/// The rounds of smoothing after the estimates have been spread.
pub const SMOOTHING_ROUNDS: usize = 15;

/// Landmarks within this many steps of the network are surveyed again.
pub const REFINE_RADIUS: u64 = 10;

/// The least distance from `p` to one of the first `k` of `cells`.
pub open spec fn least_distance(cells: Seq<Cell>, p: Cell, k: int) -> int
    decreases k,
{
    if k <= 1 {
        manhattan_spec(cells[0], p)
    } else {
        let rest = least_distance(cells, p, k - 1);
        let here = manhattan_spec(cells[k - 1], p);
        if here < rest {
            here
        } else {
            rest
        }
    }
}

/// The place among the first `k` of `cells` of the one nearest to `p`, the
/// earliest of them if several are equally near.
pub open spec fn nearest_spec(cells: Seq<Cell>, p: Cell, k: int) -> int
    decreases k,
{
    if k <= 1 {
        0
    } else {
        let best = nearest_spec(cells, p, k - 1);
        if manhattan_spec(cells[k - 1], p) < manhattan_spec(cells[best], p) {
            k - 1
        } else {
            best
        }
    }
}

/// The place in `cells` of the cell nearest to `p`, and its distance.
pub fn nearest(cells: &Vec<Cell>, p: Cell, n: usize) -> (r: (usize, u64))
    requires
        cells@.len() > 0,
        all_on_grid(cells@, n),
        on_grid(p, n),
        n < SIDE_LIMIT,
    ensures
        r.0 == nearest_spec(cells@, p, cells@.len() as int),
        r.1 == least_distance(cells@, p, cells@.len() as int),
        r.0 < cells@.len(),
        r.1 == manhattan_spec(cells@[r.0 as int], p),
{
    let mut best: usize = 0;
    let mut least: u64 = manhattan(cells[0], p);
    let mut k: usize = 1;
    while k < cells.len()
        invariant
            all_on_grid(cells@, n),
            on_grid(p, n),
            n < SIDE_LIMIT,
            1 <= k <= cells@.len(),
            best == nearest_spec(cells@, p, k as int),
            least == least_distance(cells@, p, k as int),
            best < k,
            least == manhattan_spec(cells@[best as int], p),
        decreases cells@.len() - k,
    {
        let here: u64 = manhattan(cells[k], p);
        if here < least {
            least = here;
            best = k;
        }
        k += 1;
    }
    (best, least)
}

/// The cells of `cells`, each once, in the order in which they first occur.
pub open spec fn distinct(cells: Seq<Cell>) -> Seq<Cell>
    decreases cells.len(),
{
    if cells.len() == 0 {
        Seq::empty()
    } else {
        let before = distinct(cells.drop_last());
        if before.contains(cells.last()) {
            before
        } else {
            before.push(cells.last())
        }
    }
}

/// The cells of `cells`, each once, in the order in which they first occur.
pub fn dedup_cells(cells: &Vec<Cell>, n: usize) -> (out: Vec<Cell>)
    requires
        all_on_grid(cells@, n),
    ensures
        out@ == distinct(cells@),
        all_on_grid(out@, n),
{
    let mut seen: Vec<Vec<bool>> = vec![vec![false; n]; n];
    let mut out: Vec<Cell> = Vec::new();
    let mut i: usize = 0;
    while i < cells.len()
        invariant
            all_on_grid(cells@, n),
            all_on_grid(out@, n),
            is_square(seen@, n),
            i <= cells@.len(),
            out@ == distinct(cells@.subrange(0, i as int)),
            forall|p: Cell|
                on_grid(p, n) ==> (#[trigger] seen@[p.0 as int]@[p.1 as int] <==> out@.contains(p)),
        decreases cells@.len() - i,
    {
        let c: Cell = cells[i];
        assert(on_grid(cells@[i as int], n));
        assert(cells@.subrange(0, i + 1).drop_last() =~= cells@.subrange(0, i as int));
        if !seen[c.0][c.1] {
            let ghost before = out@;
            let ghost marks = seen@;
            seen[c.0][c.1] = true;
            out.push(c);
            proof {
                assert forall|y: int| 0 <= y < n implies (#[trigger] seen@[y]).len() == n by {
                    if y != c.0 {
                        assert(seen@[y] == marks[y]);
                    }
                }
                assert forall|p: Cell| on_grid(p, n) implies (
                #[trigger] seen@[p.0 as int]@[p.1 as int] <==> out@.contains(p)) by {
                    if p.0 != c.0 {
                        assert(seen@[p.0 as int] == marks[p.0 as int]);
                    }
                    if p == c {
                        assert(out@[before.len() as int] == c);
                    } else {
                        assert(seen@[p.0 as int]@[p.1 as int] == marks[p.0 as int]@[p.1 as int]);
                        if before.contains(p) {
                            let j = choose|j: int| 0 <= j < before.len() && before[j] == p;
                            assert(out@[j] == p);
                        }
                        if out@.contains(p) {
                            let j = choose|j: int| 0 <= j < out@.len() && out@[j] == p;
                            assert(before[j] == p);
                        }
                    }
                }
            }
        }
        i += 1;
    }
    assert(cells@.subrange(0, i as int) =~= cells@);
    out
}

/// Whether two fields differ at most in their estimates.
pub open spec fn same_but_guess(a: &Field, b: &Field) -> bool {
    &&& a.n == b.n
    &&& a.w == b.w
    &&& a.k == b.k
    &&& a.c == b.c
    &&& a.is_broken == b.is_broken
    &&& a.real == b.real
    &&& a.total_cost == b.total_cost
    &&& a.sampling == b.sampling
    &&& a.dist_path == b.dist_path
    &&& a.houses_idx == b.houses_idx
    &&& a.sources_idx == b.sources_idx
}

/// Whether two fields differ at most in their tables of legs.
pub open spec fn same_but_chart(a: &Field, b: &Field) -> bool {
    &&& a.n == b.n
    &&& a.w == b.w
    &&& a.k == b.k
    &&& a.c == b.c
    &&& a.guess == b.guess
    &&& a.is_broken == b.is_broken
    &&& a.real == b.real
    &&& a.total_cost == b.total_cost
    &&& a.sampling == b.sampling
    &&& a.houses_idx == b.houses_idx
    &&& a.sources_idx == b.sources_idx
}

/// The plane in which every cell has the entry that the nearest of
/// `anchors` has in `f`, the earliest of them if several are equally near.
pub open spec fn spread(f: Seq<Seq<int>>, anchors: Seq<Cell>, n: usize) -> Seq<Seq<int>> {
    Seq::new(
        n as nat,
        |y: int|
            Seq::new(
                n as nat,
                |x: int|
                    value(
                        f,
                        anchors[nearest_spec(
                            anchors,
                            (y as usize, x as usize),
                            anchors.len() as int,
                        )],
                    ),
            ),
    )
}

/// The cells of `cells` that are within `radius` steps of one of `net`, in
/// their order.
pub open spec fn within_reach(cells: Seq<Cell>, net: Seq<Cell>, radius: int) -> Seq<Cell>
    decreases cells.len(),
{
    if cells.len() == 0 {
        Seq::empty()
    } else {
        let before = within_reach(cells.drop_last(), net, radius);
        if net.len() > 0 && least_distance(net, cells.last(), net.len() as int) <= radius {
            before.push(cells.last())
        } else {
            before
        }
    }
}

/// Whether `p` can be reached from one of `net` in at most `radius` steps
/// from cell to neighbouring cell.
pub open spec fn within_hops(net: Seq<Cell>, p: Cell, radius: int, n: usize) -> bool {
    exists|i: int, w: Seq<Cell>|
        0 <= i < net.len() && #[trigger] joins(w, net[i], p, n) && w.len() - 1 <= radius
}

/// The least distance to one of `cells` is the distance to one of them, and
/// none of them is nearer.
pub proof fn lemma_least_distance(cells: Seq<Cell>, p: Cell, k: int)
    requires
        1 <= k <= cells.len(),
    ensures
        exists|i: int| 0 <= i < k && manhattan_spec(cells[i], p) == least_distance(cells, p, k),
        forall|i: int| 0 <= i < k ==> least_distance(cells, p, k) <= manhattan_spec(cells[i], p),
    decreases k,
{
    if k > 1 {
        lemma_least_distance(cells, p, k - 1);
        let i = choose|i: int|
            0 <= i < k - 1 && manhattan_spec(cells[i], p) == least_distance(cells, p, k - 1);
        if manhattan_spec(cells[k - 1], p) < least_distance(cells, p, k - 1) {
            assert(manhattan_spec(cells[k - 1], p) == least_distance(cells, p, k));
        } else {
            assert(manhattan_spec(cells[i], p) == least_distance(cells, p, k));
        }
    } else {
        assert(manhattan_spec(cells[0], p) == least_distance(cells, p, k));
    }
}

/// On the grid, which has no walls, a cell is within so many steps of a set
/// of cells exactly if it is within that distance of one of them along rows
/// and columns: the flood from the set and the distance agree.
pub proof fn lemma_reach_is_hops(net: Seq<Cell>, p: Cell, radius: int, n: usize)
    requires
        all_on_grid(net, n),
        on_grid(p, n),
    ensures
        within_hops(net, p, radius, n) <==> (net.len() > 0 && least_distance(
            net,
            p,
            net.len() as int,
        ) <= radius),
{
    if net.len() > 0 {
        lemma_least_distance(net, p, net.len() as int);
        if least_distance(net, p, net.len() as int) <= radius {
            let i = choose|i: int|
                0 <= i < net.len() && manhattan_spec(net[i], p) == least_distance(
                    net,
                    p,
                    net.len() as int,
                );
            crate::walk::lemma_corner_walk(n, net[i], p);
            assert(joins(crate::walk::corner_walk(net[i], p), net[i], p, n));
        }
    }
    if within_hops(net, p, radius, n) {
        let (i, w) = choose|i: int, w: Seq<Cell>|
            0 <= i < net.len() && #[trigger] joins(w, net[i], p, n) && w.len() - 1 <= radius;
        crate::walk::lemma_walk_spans(w, n);
        lemma_least_distance(net, p, net.len() as int);
    }
}

/// The cells on the paths of the legs `edges` in the table `chart`, leg by
/// leg.
pub open spec fn cells_of(chart: Seq<Vec<Leg>>, edges: Seq<Edge>) -> Seq<Cell>
    decreases edges.len(),
{
    if edges.len() == 0 {
        Seq::empty()
    } else {
        cells_of(chart, edges.drop_last()) + chart[edges.last().0 as int]@[edges.last().1 as int].1@
    }
}

impl Field {
    /// `rounds` rounds of smoothing, one after the other.
    pub fn smooth_rounds(&mut self, rounds: usize)
        requires
            old(self).wf(),
            old(self).n >= 2,
        ensures
            final(self).wf(),
            same_but_guess(final(self), old(self)),
            final(self).estimates() == smooth_times(
                old(self).estimates(),
                old(self).n,
                rounds as nat,
            ),
    {
        let mut i: usize = 0;
        while i < rounds
            invariant
                self.wf(),
                self.n >= 2,
                same_but_guess(self, old(self)),
                i <= rounds,
                self.estimates() == smooth_times(old(self).estimates(), self.n, i as nat),
            decreases rounds - i,
        {
            self.guess_flatten();
            i += 1;
        }
    }

    /// Gives every cell the estimate of the nearest of `anchors`, the
    /// earliest of them if several are equally near. A cell that is an
    /// anchor keeps its estimate.
    pub fn fill_nearest(&mut self, anchors: &Vec<Cell>)
        requires
            old(self).wf(),
            anchors@.len() > 0,
            all_on_grid(anchors@, old(self).n),
        ensures
            final(self).wf(),
            same_but_guess(final(self), old(self)),
            final(self).estimates() == spread(old(self).estimates(), anchors@, old(self).n),
    {
        let n: usize = self.n;
        let mut next: Vec<Vec<i32>> = Vec::new();
        let mut y: usize = 0;
        while y < n
            invariant
                self.wf(),
                *self == *old(self),
                n == self.n,
                anchors@.len() > 0,
                all_on_grid(anchors@, n),
                y <= n,
                next@.len() == y,
                forall|j: int| 0 <= j < y ==> (#[trigger] next@[j])@.len() == n,
                forall|j: int, i: int|
                    0 <= j < y && 0 <= i < n ==> 0 <= #[trigger] next@[j]@[i] && next@[j]@[i]
                        == spread(self.estimates(), anchors@, n)[j][i],
            decreases n - y,
        {
            let mut row: Vec<i32> = Vec::new();
            let mut x: usize = 0;
            while x < n
                invariant
                    self.wf(),
                    n == self.n,
                    anchors@.len() > 0,
                    all_on_grid(anchors@, n),
                    y < n,
                    x <= n,
                    row@.len() == x,
                    forall|i: int|
                        0 <= i < x ==> 0 <= #[trigger] row@[i] && row@[i] == spread(
                            self.estimates(),
                            anchors@,
                            n,
                        )[y as int][i],
                decreases n - x,
            {
                let found: (usize, u64) = nearest(anchors, (y, x), n);
                let a: Cell = anchors[found.0];
                assert(on_grid(anchors@[found.0 as int], n));
                assert(0 <= self.guess@[a.0 as int]@[a.1 as int]);
                row.push(self.guess[a.0][a.1]);
                x += 1;
            }
            next.push(row);
            y += 1;
        }
        self.guess = next;
        proof {
            let have = self.estimates();
            let want = spread(old(self).estimates(), anchors@, n);
            assert forall|j: int| 0 <= j < n implies #[trigger] have[j] =~= want[j] by {
                assert forall|i: int| 0 <= i < n implies have[j][i] == want[j][i] by {
                    assert(next@[j]@[i] == want[j][i]);
                }
            }
            assert(have =~= want);
        }
    }

    /// The net costs price every cell within the limits of the search.
    pub proof fn lemma_net_cost_priced(&self)
        requires
            self.wf(),
        ensures
            priced(self.net_cost(), self.n),
    {
        assert forall|p: Cell| on_grid(p, self.n) implies 1 <= #[trigger] self.net_cost()(p)
            <= crate::walk::COST_LIMIT by {
            assert(0 <= self.guess@[p.0 as int]@[p.1 as int]);
            assert(0 <= self.real@[p.0 as int]@[p.1 as int]);
        }
    }

    /// A table of legs that is up to date is complete.
    pub proof fn lemma_fresh_is_charted(&self)
        requires
            self.wf(),
            self.chart_fresh(),
        ensures
            self.charted(),
    {
        self.lemma_net_cost_priced();
        assert forall|i: int, j: int|
            0 <= i < self.sampling@.len() && 0 <= j < self.sampling@.len() implies 0 <= (
            #[trigger] self.dist_path@[i]@[j]).0 && all_on_grid(
            self.dist_path@[i]@[j].1@,
            self.n,
        ) by {
            let d = self.dist_path@[i]@[j].0 as int;
            let s = self.sampling@[i];
            let t = self.sampling@[j];
            assert(is_distance(self.net_cost(), self.n, s, t, d));
            let w = choose|w: Seq<Cell>|
                joins(w, s, t, self.n) && walk_cost(self.net_cost(), w) == d;
            lemma_walk_cost_bounds(self.net_cost(), self.n, w);
        }
    }

    /// Computes the table of legs anew: for every pair of landmarks their
    /// distance over the net costs and the reported shortest path.
    pub fn rebuild_chart(&mut self)
        requires
            old(self).wf(),
        ensures
            final(self).wf(),
            same_but_chart(final(self), old(self)),
            final(self).chart_fresh(),
            final(self).charted(),
    {
        let mut chart: Vec<Vec<Leg>> = Vec::new();
        let mut i: usize = 0;
        while i < self.sampling.len()
            invariant
                self.wf(),
                *self == *old(self),
                i <= self.sampling@.len(),
                chart@.len() == i,
                forall|a: int| 0 <= a < i ==> (#[trigger] chart@[a])@.len() == self.sampling@.len(),
                forall|a: int, b: int|
                    0 <= a < i && 0 <= b < self.sampling@.len() ==> {
                        &&& is_distance(
                            self.net_cost(),
                            self.n,
                            self.sampling@[a],
                            self.sampling@[b],
                            (#[trigger] chart@[a]@[b]).0 as int,
                        )
                        &&& is_trail(
                            self.net_cost(),
                            self.n,
                            self.sampling@[a],
                            self.sampling@[b],
                            chart@[a]@[b].1@,
                        )
                        &&& crate::walk::trail_cost(self.net_cost(), chart@[a]@[b].1@)
                            == chart@[a]@[b].0
                    },
            decreases self.sampling@.len() - i,
        {
            let s: Cell = self.sampling[i];
            assert(on_grid(self.sampling@[i as int], self.n));
            let legs: Vec<Leg> = self.dijkstra_vec(s, &self.sampling);
            chart.push(legs);
            i += 1;
        }
        self.dist_path = chart;
        proof {
            assert(self.net_cost() =~= old(self).net_cost());
            self.lemma_fresh_is_charted();
        }
    }

    /// The cells on the paths of the legs of `state`, leg by leg.
    pub fn network_cells(&self, state: &State) -> (cells: Vec<Cell>)
        requires
            self.wf(),
            self.charted(),
            state.wf(self.sampling@.len()),
        ensures
            cells@ == cells_of(self.dist_path@, state.edges@),
            all_on_grid(cells@, self.n),
    {
        let mut cells: Vec<Cell> = Vec::new();
        let mut i: usize = 0;
        while i < state.edges.len()
            invariant
                self.wf(),
                self.charted(),
                state.wf(self.sampling@.len()),
                i <= state.edges@.len(),
                cells@ == cells_of(self.dist_path@, state.edges@.subrange(0, i as int)),
                all_on_grid(cells@, self.n),
            decreases state.edges@.len() - i,
        {
            let e: Edge = state.edges[i];
            assert(state.edges@.subrange(0, i + 1).drop_last() =~= state.edges@.subrange(
                0,
                i as int,
            ));
            let ghost before = cells@;
            let ghost leg = self.dist_path@[e.0 as int]@[e.1 as int].1@;
            assert(all_on_grid(leg, self.n));
            let mut j: usize = 0;
            while j < self.dist_path[e.0][e.1].1.len()
                invariant
                    self.wf(),
                    self.charted(),
                    e.0 < self.sampling@.len(),
                    e.1 < self.sampling@.len(),
                    leg == self.dist_path@[e.0 as int]@[e.1 as int].1@,
                    all_on_grid(leg, self.n),
                    j <= leg.len(),
                    cells@ == before + leg.subrange(0, j as int),
                    all_on_grid(cells@, self.n),
                decreases leg.len() - j,
            {
                let c: Cell = self.dist_path[e.0][e.1].1[j];
                cells.push(c);
                assert(cells@ =~= before + leg.subrange(0, j + 1));
                assert(on_grid(leg[j as int], self.n));
                j += 1;
            }
            assert(leg.subrange(0, j as int) =~= leg);
            i += 1;
        }
        assert(state.edges@.subrange(0, i as int) =~= state.edges@);
        cells
    }

    /// The landmarks to be surveyed again once the network `state` is known:
    /// those within [`REFINE_RADIUS`] steps of a cell of the network, in the
    /// order of the landmarks. The steps are counted along rows and
    /// columns, which on the grid is the number of steps of a flood from the
    /// network.
    pub fn guess_field_update(&self, state: &State) -> (jobs: Vec<Cell>)
        requires
            self.wf(),
            self.charted(),
            state.wf(self.sampling@.len()),
        ensures
            jobs@ == within_reach(
                self.sampling@,
                cells_of(self.dist_path@, state.edges@),
                REFINE_RADIUS as int,
            ),
            all_on_grid(jobs@, self.n),
    {
        let net: Vec<Cell> = self.network_cells(state);
        let mut jobs: Vec<Cell> = Vec::new();
        let mut i: usize = 0;
        while i < self.sampling.len()
            invariant
                self.wf(),
                all_on_grid(net@, self.n),
                i <= self.sampling@.len(),
                jobs@ == within_reach(self.sampling@.subrange(0, i as int), net@, REFINE_RADIUS as int),
                all_on_grid(jobs@, self.n),
            decreases self.sampling@.len() - i,
        {
            let p: Cell = self.sampling[i];
            assert(on_grid(self.sampling@[i as int], self.n));
            assert(self.sampling@.subrange(0, i + 1).drop_last() =~= self.sampling@.subrange(
                0,
                i as int,
            ));
            if net.len() > 0 {
                let found: (usize, u64) = nearest(&net, p, self.n);
                if found.1 <= REFINE_RADIUS {
                    jobs.push(p);
                }
            }
            i += 1;
        }
        assert(self.sampling@.subrange(0, i as int) =~= self.sampling@);
        jobs
    }
}

/// A lattice of landmarks: rows and columns at equal distances.
#[derive(Clone, Copy, Debug, PartialEq, Eq)]
pub struct Lattice {
    /// The first row and column of the lattice.
    pub start: usize,
    /// The distance between neighbouring rows and columns, at least 1.
    pub stride: usize,
    /// Whether only every other point may be surveyed, like the fields of
    /// one colour on a chess board.
    pub chequered: bool,
}

/// A lattice point, and whether it may be surveyed.
pub type Point = (Cell, bool);

/// The rows of a lattice from row `y` on, on a grid of side `n`.
pub open spec fn axis_from(n: usize, y: int, stride: int) -> Seq<usize>
    decreases
            (if y < n {
                n - y
            } else {
                0
            }),
{
    if 0 <= y < n && stride > 0 {
        seq![y as usize] + axis_from(n, y + stride, stride)
    } else {
        Seq::empty()
    }
}

/// Row `i` of the lattice with the rows and columns `axis`.
pub open spec fn lattice_row(axis: Seq<usize>, chequered: bool, i: int) -> Seq<Point> {
    Seq::new(axis.len(), |j: int| ((axis[i], axis[j]), !chequered || (i + j) % 2 == 0))
}

/// The first `i` rows of the lattice with the rows and columns `axis`.
pub open spec fn lattice_upto(axis: Seq<usize>, chequered: bool, i: int) -> Seq<Point>
    decreases i,
{
    if i <= 0 {
        Seq::empty()
    } else {
        lattice_upto(axis, chequered, i - 1) + lattice_row(axis, chequered, i - 1)
    }
}

/// The points of the lattice `l` on a grid of side `n`, row by row.
pub open spec fn lattice(n: usize, l: Lattice) -> Seq<Point> {
    let axis = axis_from(n, l.start as int, l.stride as int);
    lattice_upto(axis, l.chequered, axis.len() as int)
}

/// The cells of the points `points`.
pub open spec fn cells_at(points: Seq<Point>) -> Seq<Cell> {
    Seq::new(points.len(), |i: int| points[i].0)
}

/// The lattice that the first survey uses: rows and columns from
/// [`LATTICE_START`] on, [`LATTICE_STRIDE`] apart, every other point
/// surveyed.
pub open spec fn standard() -> Lattice {
    Lattice { start: LATTICE_START, stride: LATTICE_STRIDE, chequered: true }
}

/// The lattice that the first survey uses.
pub fn standard_lattice() -> (l: Lattice)
    ensures
        l == standard(),
{
    Lattice { start: LATTICE_START, stride: LATTICE_STRIDE, chequered: true }
}

/// The rows of the lattice `l` on a grid of side `n`.
pub fn lattice_axis(n: usize, l: Lattice) -> (axis: Vec<usize>)
    requires
        l.stride >= 1,
    ensures
        axis@ == axis_from(n, l.start as int, l.stride as int),
        forall|i: int| 0 <= i < axis@.len() ==> #[trigger] axis@[i] < n,
{
    let mut axis: Vec<usize> = Vec::new();
    let mut y: usize = l.start;
    while y < n
        invariant
            l.stride >= 1,
            axis_from(n, l.start as int, l.stride as int) == axis@ + axis_from(
                n,
                y as int,
                l.stride as int,
            ),
            forall|i: int| 0 <= i < axis@.len() ==> #[trigger] axis@[i] < n,
        decreases n - y,
    {
        let ghost before = axis@;
        axis.push(y);
        proof {
            assert(axis@ + axis_from(n, y + l.stride, l.stride as int) =~= before + (seq![y]
                + axis_from(n, y + l.stride, l.stride as int)));
        }
        if l.stride >= n - y {
            proof {
                assert(axis_from(n, y + l.stride, l.stride as int) =~= Seq::<usize>::empty());
                assert(axis@ + Seq::<usize>::empty() =~= axis@);
            }
            return axis;
        }
        y = y + l.stride;
    }
    proof {
        assert(axis@ + Seq::<usize>::empty() =~= axis@);
    }
    axis
}

/// The points of the lattice `l` on a grid of side `n`, row by row.
pub fn lattice_points(n: usize, l: Lattice) -> (r: Vec<Point>)
    requires
        l.stride >= 1,
    ensures
        r@ == lattice(n, l),
        forall|i: int| 0 <= i < r@.len() ==> on_grid((#[trigger] r@[i]).0, n),
{
    let axis: Vec<usize> = lattice_axis(n, l);
    let mut r: Vec<Point> = Vec::new();
    let mut i: usize = 0;
    while i < axis.len()
        invariant
            forall|a: int| 0 <= a < axis@.len() ==> #[trigger] axis@[a] < n,
            i <= axis@.len(),
            r@ == lattice_upto(axis@, l.chequered, i as int),
            forall|a: int| 0 <= a < r@.len() ==> on_grid((#[trigger] r@[a]).0, n),
        decreases axis@.len() - i,
    {
        let ghost before = r@;
        let even_row: bool = i % 2 == 0;
        let mut j: usize = 0;
        while j < axis.len()
            invariant
                forall|a: int| 0 <= a < axis@.len() ==> #[trigger] axis@[a] < n,
                i < axis@.len(),
                even_row == (i % 2 == 0),
                j <= axis@.len(),
                r@ == before + lattice_row(axis@, l.chequered, i as int).subrange(0, j as int),
                forall|a: int| 0 <= a < r@.len() ==> on_grid((#[trigger] r@[a]).0, n),
            decreases axis@.len() - j,
        {
            let same: bool = even_row == (j % 2 == 0);
            assert(same == ((i + j) % 2 == 0));
            r.push(((axis[i], axis[j]), !l.chequered || same));
            assert(r@ =~= before + lattice_row(axis@, l.chequered, i as int).subrange(0, j + 1));
            j += 1;
        }
        assert(lattice_row(axis@, l.chequered, i as int).subrange(0, j as int) =~= lattice_row(
            axis@,
            l.chequered,
            i as int,
        ));
        i += 1;
    }
    r
}

/// What a survey is to do: the cells whose estimates are spread over the
/// field, those of them that are probed, and those that count as hard
/// without a probe.
pub struct SurveyPlan {
    /// The cells whose estimates are spread.
    pub anchors: Seq<Cell>,
    /// The cells to be probed, in order.
    pub jobs: Seq<Cell>,
    /// The cells that count as hard without a probe.
    pub hard: Seq<Cell>,
}

/// The plan of the first survey after the first `k` of the lattice points
/// have been looked at. Sources and houses are probed. A lattice point that
/// may be surveyed is left out if it is within [`NEAR_ENOUGH`] steps of a
/// cell already in the plan; it counts as hard if every house and every
/// source is [`TOO_FAR`] or farther; else it is probed.
pub open spec fn plan_upto(
    sources: Seq<Cell>,
    houses: Seq<Cell>,
    points: Seq<Point>,
    k: int,
) -> SurveyPlan
    decreases k,
{
    if k <= 0 {
        SurveyPlan { anchors: sources + houses, jobs: sources + houses, hard: Seq::empty() }
    } else {
        let prev = plan_upto(sources, houses, points, k - 1);
        let c = points[k - 1].0;
        if !points[k - 1].1 || least_distance(prev.anchors, c, prev.anchors.len() as int)
            <= NEAR_ENOUGH {
            prev
        } else if least_distance(houses, c, houses.len() as int) >= TOO_FAR && least_distance(
            sources,
            c,
            sources.len() as int,
        ) >= TOO_FAR {
            SurveyPlan { anchors: prev.anchors.push(c), jobs: prev.jobs, hard: prev.hard.push(c) }
        } else {
            SurveyPlan { anchors: prev.anchors.push(c), jobs: prev.jobs.push(c), hard: prev.hard }
        }
    }
}

/// The plan of a survey, as lists.
pub struct Survey {
    /// The cells whose estimates are spread over the field afterwards.
    pub anchors: Vec<Cell>,
    /// The cells to be probed, in order.
    pub jobs: Vec<Cell>,
    /// The cells that count as hard without a probe.
    pub hard: Vec<Cell>,
}

impl View for Survey {
    type V = SurveyPlan;

    open spec fn view(&self) -> SurveyPlan {
        SurveyPlan { anchors: self.anchors@, jobs: self.jobs@, hard: self.hard@ }
    }
}

/// Whether two fields differ at most in their estimates and landmarks.
pub open spec fn same_ground(a: &Field, b: &Field) -> bool {
    &&& a.n == b.n
    &&& a.w == b.w
    &&& a.k == b.k
    &&& a.c == b.c
    &&& a.is_broken == b.is_broken
    &&& a.real == b.real
    &&& a.total_cost == b.total_cost
    &&& a.dist_path == b.dist_path
}

impl Field {
    /// Sets up the landmarks and plans the first survey, with the standard
    /// lattice: see [`Field::guess_field`].
    pub fn guess_field_init(&mut self, sources: &Vec<Cell>, houses: &Vec<Cell>) -> (plan: Survey)
        requires
            old(self).wf(),
            sources@.len() > 0,
            houses@.len() > 0,
            all_on_grid(sources@, old(self).n),
            all_on_grid(houses@, old(self).n),
        ensures
            final(self).wf(),
            same_ground(final(self), old(self)),
            final(self).sampling@ == sources@ + houses@ + cells_at(
                lattice(old(self).n, standard()),
            ),
            final(self).sources_idx@ == Seq::new(sources@.len(), |i: int| i as usize),
            final(self).houses_idx@ == Seq::new(
                houses@.len(),
                |i: int| (sources@.len() + i) as usize,
            ),
            plan@ == plan_upto(
                sources@,
                houses@,
                lattice(old(self).n, standard()),
                lattice(old(self).n, standard()).len() as int,
            ),
            all_on_grid(plan@.anchors, old(self).n),
            all_on_grid(plan@.jobs, old(self).n),
            plan@.anchors.len() > 0,
            forall|p: Cell|
                on_grid(p, old(self).n) ==> #[trigger] final(self).guess_at(p) == (if plan@.hard.contains(
                    p,
                ) {
                    HARD_ESTIMATE as int
                } else {
                    old(self).guess_at(p)
                }),
    {
        self.guess_field(sources, houses, standard_lattice())
    }

    /// Sets up the landmarks and plans the first survey. The landmarks are
    /// the sources, the houses and all points of the lattice `l`, in this
    /// order; the sources get the first ids and the houses the next. The
    /// cells that the plan counts as hard get the estimate [`HARD_ESTIMATE`]
    /// at once.
    pub fn guess_field(&mut self, sources: &Vec<Cell>, houses: &Vec<Cell>, l: Lattice) -> (plan:
        Survey)
        requires
            old(self).wf(),
            l.stride >= 1,
            sources@.len() > 0,
            houses@.len() > 0,
            all_on_grid(sources@, old(self).n),
            all_on_grid(houses@, old(self).n),
        ensures
            final(self).wf(),
            same_ground(final(self), old(self)),
            final(self).sampling@ == sources@ + houses@ + cells_at(lattice(old(self).n, l)),
            final(self).sources_idx@ == Seq::new(sources@.len(), |i: int| i as usize),
            final(self).houses_idx@ == Seq::new(
                houses@.len(),
                |i: int| (sources@.len() + i) as usize,
            ),
            plan@ == plan_upto(
                sources@,
                houses@,
                lattice(old(self).n, l),
                lattice(old(self).n, l).len() as int,
            ),
            all_on_grid(plan@.anchors, old(self).n),
            all_on_grid(plan@.jobs, old(self).n),
            plan@.anchors.len() > 0,
            forall|p: Cell|
                on_grid(p, old(self).n) ==> #[trigger] final(self).guess_at(p) == (if plan@.hard.contains(
                    p,
                ) {
                    HARD_ESTIMATE as int
                } else {
                    old(self).guess_at(p)
                }),
    {
        let n: usize = self.n;
        let mut sampling: Vec<Cell> = Vec::new();
        let mut sources_idx: Vec<usize> = Vec::new();
        let mut houses_idx: Vec<usize> = Vec::new();
        let mut anchors: Vec<Cell> = Vec::new();
        let mut jobs: Vec<Cell> = Vec::new();
        let mut hard: Vec<Cell> = Vec::new();
        let mut i: usize = 0;
        while i < sources.len()
            invariant
                i <= sources@.len(),
                sampling@ == sources@.subrange(0, i as int),
                anchors@ == sampling@,
                jobs@ == sampling@,
                sources_idx@ == Seq::new(i as nat, |a: int| a as usize),
            decreases sources@.len() - i,
        {
            let c: Cell = sources[i];
            sources_idx.push(i);
            sampling.push(c);
            anchors.push(c);
            jobs.push(c);
            assert(sampling@ =~= sources@.subrange(0, i + 1));
            assert(sources_idx@ =~= Seq::new((i + 1) as nat, |a: int| a as usize));
            i += 1;
        }
        assert(sources@.subrange(0, i as int) =~= sources@);
        let mut j: usize = 0;
        while j < houses.len()
            invariant
                j <= houses@.len(),
                i == sources@.len(),
                sampling@ == sources@ + houses@.subrange(0, j as int),
                anchors@ == sampling@,
                jobs@ == sampling@,
                houses_idx@ == Seq::new(j as nat, |a: int| (i + a) as usize),
            decreases houses@.len() - j,
        {
            let c: Cell = houses[j];
            houses_idx.push(sampling.len());
            sampling.push(c);
            anchors.push(c);
            jobs.push(c);
            assert(sampling@ =~= sources@ + houses@.subrange(0, j + 1));
            assert(houses_idx@ =~= Seq::new((j + 1) as nat, |a: int| (i + a) as usize));
            j += 1;
        }
        assert(houses@.subrange(0, j as int) =~= houses@);
        let points: Vec<Point> = lattice_points(n, l);
        let ghost terminals = sources@ + houses@;
        proof {
            assert forall|a: int| 0 <= a < terminals.len() implies on_grid(
                #[trigger] terminals[a],
                n,
            ) by {
                if a < sources@.len() {
                    assert(terminals[a] == sources@[a]);
                } else {
                    assert(terminals[a] == houses@[a - sources@.len()]);
                }
            }
        }
        let mut k: usize = 0;
        while k < points.len()
            invariant
                self.wf(),
                same_ground(self, old(self)),
                n == self.n,
                sources@.len() > 0,
                houses@.len() > 0,
                all_on_grid(sources@, n),
                all_on_grid(houses@, n),
                points@ == lattice(n, l),
                forall|a: int| 0 <= a < points@.len() ==> on_grid((#[trigger] points@[a]).0, n),
                k <= points@.len(),
                sampling@ == terminals + cells_at(points@.subrange(0, k as int)),
                all_on_grid(sampling@, n),
                all_on_grid(anchors@, n),
                all_on_grid(jobs@, n),
                anchors@.len() > 0,
                (SurveyPlan { anchors: anchors@, jobs: jobs@, hard: hard@ }) == plan_upto(
                    sources@,
                    houses@,
                    points@,
                    k as int,
                ),
                forall|p: Cell|
                    on_grid(p, n) ==> #[trigger] self.guess_at(p) == (if hard@.contains(p) {
                        HARD_ESTIMATE as int
                    } else {
                        old(self).guess_at(p)
                    }),
            decreases points@.len() - k,
        {
            let point: Point = points[k];
            let c: Cell = point.0;
            assert(on_grid(points@[k as int].0, n));
            sampling.push(c);
            assert(sampling@ =~= terminals + cells_at(points@.subrange(0, k + 1)));
            if point.1 {
                let near: (usize, u64) = nearest(&anchors, c, n);
                if near.1 > NEAR_ENOUGH {
                    let to_house: (usize, u64) = nearest(houses, c, n);
                    let to_source: (usize, u64) = nearest(sources, c, n);
                    anchors.push(c);
                    if to_house.1 >= TOO_FAR && to_source.1 >= TOO_FAR {
                        let ghost before = hard@;
                        let ghost was = *self;
                        self.set_estimate(c.0, c.1, HARD_ESTIMATE);
                        hard.push(c);
                        proof {
                            assert forall|p: Cell| on_grid(p, n) implies #[trigger] self.guess_at(
                                p,
                            ) == (if hard@.contains(p) {
                                HARD_ESTIMATE as int
                            } else {
                                old(self).guess_at(p)
                            }) by {
                                if p == c {
                                    assert(hard@[before.len() as int] == c);
                                } else {
                                    assert(self.guess_at(p) == was.guess_at(p));
                                    if before.contains(p) {
                                        let a = choose|a: int| 0 <= a < before.len() && before[a] == p;
                                        assert(hard@[a] == p);
                                    }
                                    if hard@.contains(p) {
                                        let a = choose|a: int| 0 <= a < hard@.len() && hard@[a] == p;
                                        assert(before[a] == p);
                                    }
                                }
                            }
                        }
                    } else {
                        jobs.push(c);
                    }
                }
            }
            k += 1;
        }
        assert(points@.subrange(0, k as int) =~= points@);
        let ghost mid = *self;
        self.sampling = sampling;
        self.sources_idx = sources_idx;
        self.houses_idx = houses_idx;
        proof {
            assert forall|p: Cell| on_grid(p, n) implies #[trigger] self.guess_at(p) == (
            if hard@.contains(p) {
                HARD_ESTIMATE as int
            } else {
                old(self).guess_at(p)
            }) by {
                assert(self.guess_at(p) == mid.guess_at(p));
            }
        }
        Survey { anchors, jobs, hard }
    }
}

} // verus!
