//! The field under excavation: what is believed of the cost of every cell,
//! what has been spent on it, and the landmarks between which paths are
//! planned.

use crate::grid::{all_on_grid, is_square, on_grid, Cell};
use crate::path::{shortest_path, shortest_paths, table};
use crate::smoothing::{entry, no_negative, plane_of, smooth, smooth_plane, smoothed};
use crate::walk::{
    at, is_distance, is_trail, trail_cost, valid_costs, COST_LIMIT, SIDE_LIMIT,
};
use vstd::prelude::*;

verus! {

/// The largest fee per probe that a field accepts.
pub const FEE_LIMIT: usize = 0x7fff_ffff;

/// A distance between two landmarks and the path that realises it, listed
/// from the target back to the source.
pub type Leg = (i64, Vec<Cell>);

/// The field under excavation.
pub struct Field {
    /// The side of the grid.
    pub n: usize,
    /// The number of water sources.
    pub w: usize,
    /// The number of houses.
    pub k: usize,
    /// The fee charged for every probe.
    pub c: usize,
    /// The estimated cost of breaking each cell.
    pub guess: Vec<Vec<i32>>,
    /// Whether each cell is broken.
    pub is_broken: Vec<Vec<bool>>,
    /// The intensity spent on each cell so far.
    pub real: Vec<Vec<i32>>,
    /// The fees and intensities of all probes so far.
    pub total_cost: usize,
    /// The landmarks: sources, houses, then the sample of the lattice.
    pub sampling: Vec<Cell>,
    /// For every pair of landmarks, their distance and the path between them.
    pub dist_path: Vec<Vec<Leg>>,
    /// The landmark ids of the houses.
    pub houses_idx: Vec<usize>,
    /// The landmark ids of the sources.
    pub sources_idx: Vec<usize>,
}

impl Field {
    /// The estimate at `p`.
    pub open spec fn guess_at(&self, p: Cell) -> int {
        entry(self.guess@, p)
    }

    /// The intensity spent on `p`.
    pub open spec fn real_at(&self, p: Cell) -> int {
        entry(self.real@, p)
    }

    /// Whether `p` is broken.
    pub open spec fn broken_at(&self, p: Cell) -> bool {
        self.is_broken@[p.0 as int]@[p.1 as int]
    }

    /// The grids cover the field, nothing on them is negative, and the
    /// landmarks lie on the grid.
    pub open spec fn wf(&self) -> bool {
        &&& self.n < SIDE_LIMIT
        &&& self.c <= FEE_LIMIT
        &&& is_square(self.guess@, self.n)
        &&& is_square(self.is_broken@, self.n)
        &&& is_square(self.real@, self.n)
        &&& no_negative(self.guess@, self.n)
        &&& no_negative(self.real@, self.n)
        &&& all_on_grid(self.sampling@, self.n)
        &&& forall|i: int|
            0 <= i < self.houses_idx@.len() ==> (#[trigger] self.houses_idx@[i])
                < self.sampling@.len()
        &&& forall|i: int|
            0 <= i < self.sources_idx@.len() ==> (#[trigger] self.sources_idx@[i])
                < self.sampling@.len()
    }

    /// The estimates as a plane of integers.
    pub open spec fn estimates(&self) -> Seq<Seq<int>> {
        plane_of(self.guess@, self.n)
    }

    /// The cost of entering each cell when only what is still to be spent
    /// counts: the estimate less what was spent, at least 1.
    pub open spec fn net_cost(&self) -> spec_fn(Cell) -> int {
        |p: Cell|
            if on_grid(p, self.n) {
                if self.guess_at(p) - self.real_at(p) > 1 {
                    self.guess_at(p) - self.real_at(p)
                } else {
                    1
                }
            } else {
                0
            }
    }

    /// The cost of entering each cell at its estimate, at least 1.
    pub open spec fn raw_cost(&self) -> spec_fn(Cell) -> int {
        |p: Cell|
            if on_grid(p, self.n) {
                if self.guess_at(p) > 1 {
                    self.guess_at(p)
                } else {
                    1
                }
            } else {
                0
            }
    }

    /// Whether the table of legs has an entry for every pair of landmarks,
    /// each with a distance that is not negative and a path on the grid.
    pub open spec fn charted(&self) -> bool {
        &&& self.dist_path@.len() == self.sampling@.len()
        &&& forall|i: int|
            0 <= i < self.sampling@.len() ==> (#[trigger] self.dist_path@[i])@.len()
                == self.sampling@.len()
        &&& forall|i: int, j: int|
            0 <= i < self.sampling@.len() && 0 <= j < self.sampling@.len() ==> {
                &&& 0 <= (#[trigger] self.dist_path@[i]@[j]).0
                &&& all_on_grid(self.dist_path@[i]@[j].1@, self.n)
            }
    }

    /// Whether the table of legs holds, for every pair of landmarks, their
    /// distance over the net costs as they are now and the reported shortest
    /// path between them.
    pub open spec fn chart_fresh(&self) -> bool {
        &&& self.dist_path@.len() == self.sampling@.len()
        &&& forall|i: int|
            0 <= i < self.sampling@.len() ==> (#[trigger] self.dist_path@[i])@.len()
                == self.sampling@.len()
        &&& forall|i: int, j: int|
            0 <= i < self.sampling@.len() && 0 <= j < self.sampling@.len() ==> {
                &&& is_distance(
                    self.net_cost(),
                    self.n,
                    self.sampling@[i],
                    self.sampling@[j],
                    (#[trigger] self.dist_path@[i]@[j]).0 as int,
                )
                &&& is_trail(
                    self.net_cost(),
                    self.n,
                    self.sampling@[i],
                    self.sampling@[j],
                    self.dist_path@[i]@[j].1@,
                )
                &&& trail_cost(self.net_cost(), self.dist_path@[i]@[j].1@)
                    == self.dist_path@[i]@[j].0
            }
    }

    /// A field of side `n` with `w` sources, `k` houses and the fee `c`:
    /// every estimate 0, nothing broken, nothing spent, no landmarks.
    pub fn new(n: usize, w: usize, k: usize, c: usize) -> (f: Self)
        requires
            n < SIDE_LIMIT,
            c <= FEE_LIMIT,
        ensures
            f.wf(),
            f.n == n,
            f.w == w,
            f.k == k,
            f.c == c,
            f.total_cost == 0,
            f.sampling@.len() == 0,
            f.dist_path@.len() == 0,
            f.houses_idx@.len() == 0,
            f.sources_idx@.len() == 0,
            forall|p: Cell|
                on_grid(p, n) ==> f.guess_at(p) == 0 && f.real_at(p) == 0 && !f.broken_at(p),
    {
        Field {
            n,
            w,
            k,
            c,
            guess: vec![vec![0i32; n]; n],
            is_broken: vec![vec![false; n]; n],
            real: vec![vec![0i32; n]; n],
            total_cost: 0,
            sampling: Vec::new(),
            dist_path: Vec::new(),
            houses_idx: Vec::new(),
            sources_idx: Vec::new(),
        }
    }

    /// The estimate at `(y, x)`.
    pub fn estimate_at(&self, y: usize, x: usize) -> (v: i32)
        requires
            self.wf(),
            on_grid((y, x), self.n),
        ensures
            v == self.guess_at((y, x)),
    {
        self.guess[y][x]
    }

    /// The intensity spent on `(y, x)` so far.
    pub fn observed_at(&self, y: usize, x: usize) -> (v: i32)
        requires
            self.wf(),
            on_grid((y, x), self.n),
        ensures
            v == self.real_at((y, x)),
    {
        self.real[y][x]
    }

    /// Whether `(y, x)` is broken.
    pub fn is_broken_at(&self, y: usize, x: usize) -> (b: bool)
        requires
            self.wf(),
            on_grid((y, x), self.n),
        ensures
            b == self.broken_at((y, x)),
    {
        self.is_broken[y][x]
    }

    /// Sets the estimate at `(y, x)` to `v`. Everything else stays.
    pub fn set_estimate(&mut self, y: usize, x: usize, v: i32)
        requires
            old(self).wf(),
            on_grid((y, x), old(self).n),
            0 <= v,
        ensures
            final(self).wf(),
            final(self).guess_at((y, x)) == v,
            forall|p: Cell|
                on_grid(p, old(self).n) && p != (y, x) ==> final(self).guess_at(p) == old(
                    self,
                ).guess_at(p),
            final(self).n == old(self).n,
            final(self).w == old(self).w,
            final(self).k == old(self).k,
            final(self).c == old(self).c,
            final(self).is_broken == old(self).is_broken,
            final(self).real == old(self).real,
            final(self).total_cost == old(self).total_cost,
            final(self).sampling == old(self).sampling,
            final(self).dist_path == old(self).dist_path,
            final(self).houses_idx == old(self).houses_idx,
            final(self).sources_idx == old(self).sources_idx,
    {
        self.guess[y][x] = v;
        proof {
            assert forall|p: Cell| on_grid(p, old(self).n) && p != (y, x) implies self.guess_at(p)
                == old(self).guess_at(p) by {
                if p.0 != y {
                    assert(self.guess@[p.0 as int] == old(self).guess@[p.0 as int]);
                }
            }
            assert forall|j: int, i: int| 0 <= j < self.n && 0 <= i < self.n implies 0
                <= #[trigger] self.guess@[j]@[i] by {
                let p = (j as usize, i as usize);
                if p != (y, x) {
                    assert(self.guess_at(p) == old(self).guess_at(p));
                }
            }
            assert forall|j: int| 0 <= j < self.n implies (#[trigger] self.guess@[j]).len()
                == self.n by {
                if j != y {
                    assert(self.guess@[j] == old(self).guess@[j]);
                }
            }
        }
    }

    /// One round of smoothing: every estimate becomes the mean of the
    /// estimates of the neighbouring cells, rounded down. Cells at the border
    /// have fewer neighbours.
    pub fn guess_flatten(&mut self)
        requires
            old(self).wf(),
            old(self).n >= 2,
        ensures
            final(self).wf(),
            forall|p: Cell|
                on_grid(p, old(self).n) ==> #[trigger] final(self).guess_at(p) == smoothed(
                    old(self).guess@,
                    p,
                    old(self).n,
                ),
            final(self).estimates() == smooth_plane(old(self).estimates(), old(self).n),
            final(self).n == old(self).n,
            final(self).w == old(self).w,
            final(self).k == old(self).k,
            final(self).c == old(self).c,
            final(self).is_broken == old(self).is_broken,
            final(self).real == old(self).real,
            final(self).total_cost == old(self).total_cost,
            final(self).sampling == old(self).sampling,
            final(self).dist_path == old(self).dist_path,
            final(self).houses_idx == old(self).houses_idx,
            final(self).sources_idx == old(self).sources_idx,
    {
        let next = smooth(&self.guess, self.n);
        self.guess = next;
    }

    /// The grid of net costs: for every cell the estimate less what was
    /// spent on it, at least 1.
    pub fn net_costs(&self) -> (g: Vec<Vec<i64>>)
        requires
            self.wf(),
        ensures
            valid_costs(g@, self.n),
            table(g@, self.n) == self.net_cost(),
    {
        let n: usize = self.n;
        let mut g: Vec<Vec<i64>> = Vec::new();
        let mut y: usize = 0;
        while y < n
            invariant
                self.wf(),
                n == self.n,
                y <= n,
                g@.len() == y,
                forall|j: int| 0 <= j < y ==> (#[trigger] g@[j])@.len() == n,
                forall|j: int, i: int|
                    0 <= j < y && 0 <= i < n ==> 1 <= #[trigger] g@[j]@[i] <= COST_LIMIT
                        && g@[j]@[i] == self.net_cost()((j as usize, i as usize)),
            decreases n - y,
        {
            let mut row: Vec<i64> = Vec::new();
            let mut x: usize = 0;
            while x < n
                invariant
                    self.wf(),
                    n == self.n,
                        y < n,
                    x <= n,
                    row@.len() == x,
                    forall|i: int|
                        0 <= i < x ==> 1 <= #[trigger] row@[i] <= COST_LIMIT && row@[i]
                            == self.net_cost()((y, i as usize)),
                decreases n - x,
            {
                assert(0 <= self.guess@[y as int]@[x as int]);
                assert(0 <= self.real@[y as int]@[x as int]);
                let left: i64 = self.guess[y][x] as i64 - self.real[y][x] as i64;
                let net: i64 = if left > 1 {
                    left
                } else {
                    1
                };
                row.push(net);
                x += 1;
            }
            g.push(row);
            y += 1;
        }
        proof {
            assert forall|p: Cell| #[trigger] table(g@, n)(p) == self.net_cost()(p) by {
                if on_grid(p, n) {
                    assert(g@[p.0 as int]@[p.1 as int] == self.net_cost()(
                        (p.0 as usize, p.1 as usize),
                    ));
                }
            }
            assert(table(g@, n) =~= self.net_cost());
        }
        g
    }

    /// The grid of plain costs: for every cell its estimate, at least 1.
    pub fn raw_costs(&self) -> (g: Vec<Vec<i64>>)
        requires
            self.wf(),
        ensures
            valid_costs(g@, self.n),
            table(g@, self.n) == self.raw_cost(),
    {
        let n: usize = self.n;
        let mut g: Vec<Vec<i64>> = Vec::new();
        let mut y: usize = 0;
        while y < n
            invariant
                self.wf(),
                    n == self.n,
                y <= n,
                g@.len() == y,
                forall|j: int| 0 <= j < y ==> (#[trigger] g@[j])@.len() == n,
                forall|j: int, i: int|
                    0 <= j < y && 0 <= i < n ==> 1 <= #[trigger] g@[j]@[i] <= COST_LIMIT
                        && g@[j]@[i] == self.raw_cost()((j as usize, i as usize)),
            decreases n - y,
        {
            let mut row: Vec<i64> = Vec::new();
            let mut x: usize = 0;
            while x < n
                invariant
                    self.wf(),
                            n == self.n,
                    y < n,
                    x <= n,
                    row@.len() == x,
                    forall|i: int|
                        0 <= i < x ==> 1 <= #[trigger] row@[i] <= COST_LIMIT && row@[i]
                            == self.raw_cost()((y, i as usize)),
                decreases n - x,
            {
                let plain: i64 = self.guess[y][x] as i64;
                row.push(if plain > 1 {
                    plain
                } else {
                    1
                });
                x += 1;
            }
            g.push(row);
            y += 1;
        }
        proof {
            assert forall|p: Cell| #[trigger] table(g@, n)(p) == self.raw_cost()(p) by {
                if on_grid(p, n) {
                    assert(g@[p.0 as int]@[p.1 as int] == self.raw_cost()(
                        (p.0 as usize, p.1 as usize),
                    ));
                }
            }
            assert(table(g@, n) =~= self.raw_cost());
        }
        g
    }

    /// The least cost of a walk from `s` to `t` when entering a cell costs
    /// its estimate, at least 1, and the reported shortest walk, listed from `t` back to
    /// `s`: from each cell it goes on to the first neighbour, in the order
    /// up, down, left, right, from which a shortest walk can come.
    pub fn dijkstra(&self, s: Cell, t: Cell) -> (r: Leg)
        requires
            self.wf(),
            on_grid(s, self.n),
            on_grid(t, self.n),
        ensures
            is_distance(self.raw_cost(), self.n, s, t, r.0 as int),
            is_trail(self.raw_cost(), self.n, s, t, r.1@),
            trail_cost(self.raw_cost(), r.1@) == r.0,
    {
        let costs = self.raw_costs();
        shortest_path(&costs, self.n, s, t)
    }

    /// For every cell of `v`, the least cost of a walk from `s` to it over
    /// the net costs, and the reported shortest walk, listed from that cell
    /// back to `s`.
    pub fn dijkstra_vec(&self, s: Cell, v: &Vec<Cell>) -> (r: Vec<Leg>)
        requires
            self.wf(),
            on_grid(s, self.n),
            all_on_grid(v@, self.n),
        ensures
            r@.len() == v@.len(),
            forall|i: int|
                0 <= i < v@.len() ==> {
                    &&& is_distance(self.net_cost(), self.n, s, v@[i], (#[trigger] r@[i]).0 as int)
                    &&& is_trail(self.net_cost(), self.n, s, v@[i], r@[i].1@)
                    &&& trail_cost(self.net_cost(), r@[i].1@) == r@[i].0
                },
    {
        let costs = self.net_costs();
        shortest_paths(&costs, self.n, s, v)
    }
}

} // verus!
