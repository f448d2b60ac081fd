//! Reconstructing a whole field from the costs observed at a few cells, for
//! looking at what the estimation does when it is given exact costs.

use crate::grid::{is_square, on_grid, Cell};
use crate::smoothing::{entry, no_negative, plane_of, smooth, smooth_plane, smooth_times, value};
use vstd::prelude::*;

verus! {

/// The estimate that every cell starts with.
pub const PLAIN_ESTIMATE: i32 = 500;

/// The rounds of smoothing after the observed costs have been spread.
pub const GUESS_ROUNDS: usize = 30;

/// A field being reconstructed.
pub struct Guess {
    /// The side of the grid.
    pub n: usize,
    /// The estimate of each cell.
    pub field: Vec<Vec<i32>>,
    /// Whether the cost of each cell was observed.
    pub protected: Vec<Vec<bool>>,
}

/// The absolute difference of `a` and `b`.
pub open spec fn gap(a: usize, b: usize) -> int {
    if a <= b {
        b - a
    } else {
        a - b
    }
}

/// The place among the first `k` of `step` of the one nearest to `y`, the
/// earliest of them if several are equally near.
pub open spec fn nearest_line(step: Seq<usize>, y: usize, k: int) -> int
    decreases k,
{
    if k <= 1 {
        0
    } else {
        let best = nearest_line(step, y, k - 1);
        if gap(step[k - 1], y) < gap(step[best], y) {
            k - 1
        } else {
            best
        }
    }
}

/// The one of `step` nearest to `y`.
pub open spec fn line_for(step: Seq<usize>, y: usize) -> usize {
    step[nearest_line(step, y, step.len() as int)]
}

/// The plane in which every observed cell keeps its entry of `f` and every
/// other cell has the entry of the crossing of the lines of `step` nearest
/// to its row and to its column.
pub open spec fn copied(f: Seq<Seq<int>>, seen: Seq<Vec<bool>>, step: Seq<usize>, n: usize) -> Seq<
    Seq<int>,
> {
    Seq::new(
        n as nat,
        |y: int|
            Seq::new(
                n as nat,
                |x: int|
                    if seen[y]@[x] {
                        f[y][x]
                    } else {
                        value(f, (line_for(step, y as usize), line_for(step, x as usize)))
                    },
            ),
    )
}

/// The one of `step` nearest to `y`.
pub fn nearest_step(step: &Vec<usize>, y: usize) -> (r: usize)
    requires
        step@.len() > 0,
    ensures
        r == line_for(step@, y),
        step@.contains(r),
{
    let mut best: usize = 0;
    let mut k: usize = 1;
    while k < step.len()
        invariant
            1 <= k <= step@.len(),
            best < k,
            best == nearest_line(step@, y, k as int),
        decreases step@.len() - k,
    {
        let here: usize = if step[k] <= y {
            y - step[k]
        } else {
            step[k] - y
        };
        let least: usize = if step[best] <= y {
            y - step[best]
        } else {
            step[best] - y
        };
        if here < least {
            best = k;
        }
        k += 1;
    }
    step[best]
}

impl Guess {
    /// The grids cover the field and no estimate is negative.
    pub open spec fn wf(&self) -> bool {
        &&& is_square(self.field@, self.n)
        &&& is_square(self.protected@, self.n)
        &&& no_negative(self.field@, self.n)
    }

    /// The estimates as a plane of integers.
    pub open spec fn plane(&self) -> Seq<Seq<int>> {
        plane_of(self.field@, self.n)
    }

    /// A field of side `n` with the estimate [`PLAIN_ESTIMATE`] everywhere
    /// and nothing observed.
    pub fn new(n: usize) -> (g: Self)
        ensures
            g.wf(),
            g.n == n,
            forall|p: Cell|
                on_grid(p, n) ==> entry(g.field@, p) == PLAIN_ESTIMATE
                    && !g.protected@[p.0 as int]@[p.1 as int],
    {
        Guess { n, field: vec![vec![PLAIN_ESTIMATE; n]; n], protected: vec![vec![false; n]; n] }
    }

    /// A copy of this field.
    pub fn clone(&self) -> (g: Self)
        requires
            self.wf(),
        ensures
            g.wf(),
            g.n == self.n,
            g.plane() == self.plane(),
            forall|p: Cell|
                on_grid(p, self.n) ==> g.protected@[p.0 as int]@[p.1 as int]
                    == self.protected@[p.0 as int]@[p.1 as int],
    {
        let n: usize = self.n;
        let mut field: Vec<Vec<i32>> = Vec::new();
        let mut protected: Vec<Vec<bool>> = Vec::new();
        let mut y: usize = 0;
        while y < n
            invariant
                self.wf(),
                n == self.n,
                y <= n,
                field@.len() == y,
                protected@.len() == y,
                forall|j: int| 0 <= j < y ==> (#[trigger] field@[j])@ == self.field@[j]@,
                forall|j: int| 0 <= j < y ==> (#[trigger] protected@[j])@ == self.protected@[j]@,
            decreases n - y,
        {
            let mut row: Vec<i32> = Vec::new();
            let mut marks: Vec<bool> = Vec::new();
            let mut x: usize = 0;
            while x < n
                invariant
                    self.wf(),
                    n == self.n,
                    y < n,
                    x <= n,
                    row@ == self.field@[y as int]@.subrange(0, x as int),
                    marks@ == self.protected@[y as int]@.subrange(0, x as int),
                decreases n - x,
            {
                row.push(self.field[y][x]);
                marks.push(self.protected[y][x]);
                assert(row@ =~= self.field@[y as int]@.subrange(0, x + 1));
                assert(marks@ =~= self.protected@[y as int]@.subrange(0, x + 1));
                x += 1;
            }
            assert(row@ =~= self.field@[y as int]@);
            assert(marks@ =~= self.protected@[y as int]@);
            field.push(row);
            protected.push(marks);
            y += 1;
        }
        let g = Guess { n, field, protected };
        proof {
            assert forall|j: int, i: int| 0 <= j < n && 0 <= i < n implies 0
                <= #[trigger] g.field@[j]@[i] by {
                assert(g.field@[j]@ == self.field@[j]@);
                assert(0 <= self.field@[j]@[i]);
            }
            let have = g.plane();
            let want = self.plane();
            assert forall|j: int| 0 <= j < n implies #[trigger] have[j] =~= want[j] by {
                assert(g.field@[j]@ == self.field@[j]@);
            }
            assert(have =~= want);
        }
        g
    }

    /// Records that the cost `v` was observed at `(y, x)`.
    pub fn set(&mut self, y: usize, x: usize, v: i32)
        requires
            old(self).wf(),
            on_grid((y, x), old(self).n),
            0 <= v,
        ensures
            final(self).wf(),
            final(self).n == old(self).n,
            entry(final(self).field@, (y, x)) == v,
            final(self).protected@[y as int]@[x as int],
            forall|p: Cell|
                on_grid(p, old(self).n) && p != (y, x) ==> entry(final(self).field@, p) == entry(
                    old(self).field@,
                    p,
                ) && final(self).protected@[p.0 as int]@[p.1 as int] == old(
                    self,
                ).protected@[p.0 as int]@[p.1 as int],
    {
        self.field[y][x] = v;
        self.protected[y][x] = true;
        proof {
            let n = self.n;
            assert forall|j: int| 0 <= j < n implies (#[trigger] self.field@[j]).len() == n by {
                if j != y {
                    assert(self.field@[j] == old(self).field@[j]);
                }
            }
            assert forall|j: int| 0 <= j < n implies (#[trigger] self.protected@[j]).len()
                == n by {
                if j != y {
                    assert(self.protected@[j] == old(self).protected@[j]);
                }
            }
            assert forall|p: Cell| on_grid(p, n) && p != (y, x) implies entry(self.field@, p)
                == entry(old(self).field@, p) && self.protected@[p.0 as int]@[p.1 as int] == old(
                self,
            ).protected@[p.0 as int]@[p.1 as int] by {
                if p.0 != y {
                    assert(self.field@[p.0 as int] == old(self).field@[p.0 as int]);
                    assert(self.protected@[p.0 as int] == old(self).protected@[p.0 as int]);
                }
            }
            assert forall|j: int, i: int| 0 <= j < n && 0 <= i < n implies 0
                <= #[trigger] self.field@[j]@[i] by {
                let p = (j as usize, i as usize);
                if p != (y, x) {
                    assert(entry(self.field@, p) == entry(old(self).field@, p));
                    assert(0 <= old(self).field@[j]@[i]);
                }
            }
        }
    }

    /// One round of smoothing: every estimate becomes the mean of the
    /// estimates of the neighbouring cells, rounded down.
    pub fn flatten(&mut self)
        requires
            old(self).wf(),
            old(self).n >= 2,
        ensures
            final(self).wf(),
            final(self).n == old(self).n,
            final(self).protected == old(self).protected,
            final(self).plane() == smooth_plane(old(self).plane(), old(self).n),
    {
        let next = smooth(&self.field, self.n);
        self.field = next;
    }

    /// Reconstructs the field from what was observed. Every cell that was
    /// not observed takes the estimate of the crossing of the lines of
    /// `step` nearest to its row and to its column; then the estimates are
    /// smoothed [`GUESS_ROUNDS`] times.
    pub fn guess(&mut self, step: Vec<usize>)
        requires
            old(self).wf(),
            old(self).n >= 2,
            step@.len() > 0,
            forall|i: int| 0 <= i < step@.len() ==> #[trigger] step@[i] < old(self).n,
        ensures
            final(self).wf(),
            final(self).n == old(self).n,
            final(self).protected == old(self).protected,
            final(self).plane() == smooth_times(
                copied(old(self).plane(), old(self).protected@, step@, old(self).n),
                old(self).n,
                GUESS_ROUNDS as nat,
            ),
    {
        let n: usize = self.n;
        let mut next: Vec<Vec<i32>> = Vec::new();
        let mut y: usize = 0;
        while y < n
            invariant
                self.wf(),
                *self == *old(self),
                n == self.n,
                step@.len() > 0,
                forall|i: int| 0 <= i < step@.len() ==> #[trigger] step@[i] < n,
                y <= n,
                next@.len() == y,
                forall|j: int| 0 <= j < y ==> (#[trigger] next@[j])@.len() == n,
                forall|j: int, i: int|
                    0 <= j < y && 0 <= i < n ==> 0 <= #[trigger] next@[j]@[i] && next@[j]@[i]
                        == copied(self.plane(), self.protected@, step@, n)[j][i],
            decreases n - y,
        {
            let ny: usize = nearest_step(&step, y);
            let mut row: Vec<i32> = Vec::new();
            let mut x: usize = 0;
            while x < n
                invariant
                    self.wf(),
                    n == self.n,
                    step@.len() > 0,
                    forall|i: int| 0 <= i < step@.len() ==> #[trigger] step@[i] < n,
                    y < n,
                    ny == line_for(step@, y),
                    ny < n,
                    x <= n,
                    row@.len() == x,
                    forall|i: int|
                        0 <= i < x ==> 0 <= #[trigger] row@[i] && row@[i] == copied(
                            self.plane(),
                            self.protected@,
                            step@,
                            n,
                        )[y as int][i],
                decreases n - x,
            {
                if self.protected[y][x] {
                    assert(0 <= self.field@[y as int]@[x as int]);
                    row.push(self.field[y][x]);
                } else {
                    let nx: usize = nearest_step(&step, x);
                    assert(0 <= self.field@[ny as int]@[nx as int]);
                    row.push(self.field[ny][nx]);
                }
                x += 1;
            }
            next.push(row);
            y += 1;
        }
        self.field = next;
        proof {
            let have = self.plane();
            let want = copied(old(self).plane(), old(self).protected@, step@, n);
            assert forall|j: int| 0 <= j < n implies #[trigger] have[j] =~= want[j] by {
                assert forall|i: int| 0 <= i < n implies have[j][i] == want[j][i] by {
                    assert(next@[j]@[i] == want[j][i]);
                }
            }
            assert(have =~= want);
        }
        let mut i: usize = 0;
        while i < GUESS_ROUNDS
            invariant
                self.wf(),
                self.n == n,
                n >= 2,
                self.protected == old(self).protected,
                i <= GUESS_ROUNDS,
                self.plane() == smooth_times(
                    copied(old(self).plane(), old(self).protected@, step@, n),
                    n,
                    i as nat,
                ),
            decreases GUESS_ROUNDS - i,
        {
            self.flatten();
            i += 1;
        }
    }
}

} // verus!
