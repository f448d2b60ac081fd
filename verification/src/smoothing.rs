//! Smoothing a grid of estimates: every cell takes the mean of its
//! neighbours.

use crate::grid::{is_square, neighbor, neighbor_spec, on_grid, Cell};
use vstd::prelude::*;

verus! {

/// The entry of `g` at `p`.
pub open spec fn entry(g: Seq<Vec<i32>>, p: Cell) -> int {
    g[p.0 as int]@[p.1 as int] as int
}

/// Whether no entry of the `n` by `n` grid `g` is negative.
pub open spec fn no_negative(g: Seq<Vec<i32>>, n: usize) -> bool {
    forall|y: int, x: int| 0 <= y < n && 0 <= x < n ==> 0 <= #[trigger] g[y]@[x]
}

/// The entries of the grid `g` as a plane of integers.
pub open spec fn plane_of(g: Seq<Vec<i32>>, n: usize) -> Seq<Seq<int>> {
    Seq::new(n as nat, |y: int| Seq::new(n as nat, |x: int| g[y]@[x] as int))
}

/// The entry of the plane `f` at `p`.
pub open spec fn value(f: Seq<Seq<int>>, p: Cell) -> int {
    f[p.0 as int][p.1 as int]
}

/// The sum of the entries of the neighbours of `p` in the first `k`
/// directions.
pub open spec fn around_sum(f: Seq<Seq<int>>, p: Cell, n: usize, k: int) -> int
    decreases k,
{
    if k <= 0 {
        0
    } else {
        around_sum(f, p, n, k - 1) + match neighbor_spec(p, k - 1, n) {
            Some(q) => value(f, q),
            None => 0,
        }
    }
}

/// The number of neighbours that `p` has in the first `k` directions.
pub open spec fn around_count(p: Cell, n: usize, k: int) -> int
    decreases k,
{
    if k <= 0 {
        0
    } else {
        around_count(p, n, k - 1) + match neighbor_spec(p, k - 1, n) {
            Some(q) => 1int,
            None => 0int,
        }
    }
}

/// The mean of the entries of the neighbours of `p`, rounded down.
pub open spec fn mean_at(f: Seq<Seq<int>>, p: Cell, n: usize) -> int {
    around_sum(f, p, n, 4) / around_count(p, n, 4)
}

/// The plane in which every cell holds the mean of the entries of its
/// neighbours in `f`.
pub open spec fn smooth_plane(f: Seq<Seq<int>>, n: usize) -> Seq<Seq<int>> {
    Seq::new(n as nat, |y: int| Seq::new(n as nat, |x: int| mean_at(f, (y as usize, x as usize), n)))
}

/// The plane `f` after `k` rounds of smoothing.
pub open spec fn smooth_times(f: Seq<Seq<int>>, n: usize, k: nat) -> Seq<Seq<int>>
    decreases k,
{
    if k == 0 {
        f
    } else {
        smooth_plane(smooth_times(f, n, (k - 1) as nat), n)
    }
}

/// The mean of the entries that the neighbours of `p` have in `g`, rounded
/// down.
pub open spec fn smoothed(g: Seq<Vec<i32>>, p: Cell, n: usize) -> int {
    mean_at(plane_of(g, n), p, n)
}

/// On a grid of side 2 or more every cell has a neighbour.
pub proof fn lemma_has_neighbor(p: Cell, n: usize)
    requires
        on_grid(p, n),
        n >= 2,
    ensures
        1 <= around_count(p, n, 4) <= 4,
{
    reveal_with_fuel(around_count, 5);
    if p.0 > 0 {
        assert(neighbor_spec(p, 0, n).is_some());
    } else {
        assert(neighbor_spec(p, 1, n).is_some());
    }
}

/// The mean of the neighbours of `p` on the grid `g`.
fn mean_around(g: &Vec<Vec<i32>>, p: Cell, n: usize) -> (m: i32)
    requires
        is_square(g@, n),
        no_negative(g@, n),
        n >= 2,
        on_grid(p, n),
    ensures
        m == smoothed(g@, p, n),
        0 <= m,
{
    let mut sum: i64 = 0;
    let mut cnt: i64 = 0;
    let mut dir: usize = 0;
    while dir < 4
        invariant
            is_square(g@, n),
            no_negative(g@, n),
            on_grid(p, n),
            dir <= 4,
            sum == around_sum(plane_of(g@, n), p, n, dir as int),
            cnt == around_count(p, n, dir as int),
            0 <= cnt <= dir,
            0 <= sum <= cnt * 0x7fff_ffff,
        decreases 4 - dir,
    {
        match neighbor(p, dir, n) {
            Some(q) => {
                assert(0 <= g@[q.0 as int]@[q.1 as int]);
                sum = sum + g[q.0][q.1] as i64;
                cnt = cnt + 1;
            },
            None => {},
        }
        dir += 1;
    }
    proof {
        lemma_has_neighbor(p, n);
        assert(0 <= sum / cnt <= 0x7fff_ffff) by (nonlinear_arith)
            requires
                0 <= sum <= cnt * 0x7fff_ffff,
                1 <= cnt,
        ;
    }
    (sum / cnt) as i32
}

/// The grid in which every cell holds the mean of the entries that its
/// neighbours have in `g`. Cells at the border have fewer neighbours.
pub fn smooth(g: &Vec<Vec<i32>>, n: usize) -> (h: Vec<Vec<i32>>)
    requires
        is_square(g@, n),
        no_negative(g@, n),
        n >= 2,
    ensures
        is_square(h@, n),
        no_negative(h@, n),
        forall|p: Cell| on_grid(p, n) ==> #[trigger] entry(h@, p) == smoothed(g@, p, n),
        plane_of(h@, n) == smooth_plane(plane_of(g@, n), n),
{
    let mut h: Vec<Vec<i32>> = Vec::new();
    let mut y: usize = 0;
    while y < n
        invariant
            is_square(g@, n),
            no_negative(g@, n),
            n >= 2,
            y <= n,
            h@.len() == y,
            forall|j: int| 0 <= j < y ==> (#[trigger] h@[j])@.len() == n,
            forall|j: int, i: int|
                0 <= j < y && 0 <= i < n ==> 0 <= #[trigger] h@[j]@[i] && h@[j]@[i] == smoothed(
                    g@,
                    (j as usize, i as usize),
                    n,
                ),
        decreases n - y,
    {
        let mut row: Vec<i32> = Vec::new();
        let mut x: usize = 0;
        while x < n
            invariant
                is_square(g@, n),
                no_negative(g@, n),
                n >= 2,
                y < n,
                x <= n,
                row@.len() == x,
                forall|i: int|
                    0 <= i < x ==> 0 <= #[trigger] row@[i] && row@[i] == smoothed(
                        g@,
                        (y, i as usize),
                        n,
                    ),
            decreases n - x,
        {
            let m: i32 = mean_around(g, (y, x), n);
            row.push(m);
            x += 1;
        }
        h.push(row);
        y += 1;
    }
    proof {
        assert forall|p: Cell| on_grid(p, n) implies #[trigger] entry(h@, p) == smoothed(
            g@,
            p,
            n,
        ) by {
            assert(h@[p.0 as int]@[p.1 as int] == smoothed(g@, (p.0 as usize, p.1 as usize), n));
        }
        let have = plane_of(h@, n);
        let want = smooth_plane(plane_of(g@, n), n);
        assert forall|y: int| 0 <= y < n implies #[trigger] have[y] =~= want[y] by {
            assert forall|x: int| 0 <= x < n implies have[y][x] == want[y][x] by {
                assert(h@[y]@[x] == smoothed(g@, (y as usize, x as usize), n));
            }
        }
        assert(have =~= want);
    }
    h
}

} // verus!
