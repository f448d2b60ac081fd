//! Flooding a set of cells: all cells that can be reached from a cell
//! without leaving the set.

use crate::grid::{
    adjacent, all_on_grid, is_square, lemma_adjacent_is_neighbor, neighbor, neighbor_spec,
    on_grid, Cell,
};
use crate::sums::{grid_total, lemma_grid_total_bounds, lemma_grid_total_set};
use crate::walk::{is_walk, joins};
use vstd::prelude::*;

verus! {

/// Whether the grid of marks `g` marks `p`.
pub open spec fn marked(g: Seq<Vec<bool>>, p: Cell) -> bool {
    g[p.0 as int]@[p.1 as int]
}

/// The cells of the grid that `g` marks.
pub open spec fn marks_of(g: Seq<Vec<bool>>, n: usize) -> spec_fn(Cell) -> bool {
    |p: Cell| on_grid(p, n) && marked(g, p)
}

/// Whether every cell of `w` is in `open`.
pub open spec fn walk_in(open: spec_fn(Cell) -> bool, w: Seq<Cell>) -> bool {
    forall|i: int| 0 <= i < w.len() ==> open(#[trigger] w[i])
}

/// Whether some walk over cells in `open` leads from `a` to `b`.
pub open spec fn linked(open: spec_fn(Cell) -> bool, n: usize, a: Cell, b: Cell) -> bool {
    exists|w: Seq<Cell>| joins(w, a, b, n) && #[trigger] walk_in(open, w)
}

/// Whether every cell of `out` but the first is next to a cell before it.
pub open spec fn grown(out: Seq<Cell>) -> bool {
    forall|i: int| 0 < i < out.len() ==> exists|j: int| 0 <= j < i && adjacent(out[j], #[trigger] out[i])
}

spec fn mark_weight() -> spec_fn(bool) -> int {
    |b: bool|
        if b {
            1int
        } else {
            0int
        }
}

spec fn mark_count(g: Seq<Vec<bool>>) -> int {
    grid_total(mark_weight(), g)
}

/// Whether the marked neighbours of `c` in the first `k` directions are
/// all seen.
spec fn around_seen(open: Seq<Vec<bool>>, seen: Seq<Vec<bool>>, n: usize, c: Cell, k: int) -> bool {
    forall|dir: int|
        0 <= dir < k ==> (#[trigger] neighbor_spec(c, dir, n) matches Some(q) ==> marked(open, q)
            ==> marked(seen, q))
}

spec fn flood_inv(
    open: Seq<Vec<bool>>,
    seen: Seq<Vec<bool>>,
    n: usize,
    start: Cell,
    out: Seq<Cell>,
    head: int,
) -> bool {
    &&& is_square(open, n)
    &&& is_square(seen, n)
    &&& all_on_grid(out, n)
    &&& out.no_duplicates()
    &&& out.len() >= 1
    &&& out[0] == start
    &&& 0 <= head <= out.len()
    &&& walk_in(marks_of(open, n), out)
    &&& grown(out)
    &&& forall|p: Cell| on_grid(p, n) ==> (#[trigger] marked(seen, p) <==> out.contains(p))
    &&& forall|i: int| 0 <= i < head ==> around_seen(open, seen, n, #[trigger] out[i], 4)
}

/// Every listed cell is linked to the first.
proof fn lemma_listed_linked(open: Seq<Vec<bool>>, n: usize, out: Seq<Cell>, i: int)
    requires
        all_on_grid(out, n),
        walk_in(marks_of(open, n), out),
        grown(out),
        0 <= i < out.len(),
    ensures
        linked(marks_of(open, n), n, out[0], out[i]),
    decreases i,
{
    if i == 0 {
        let w = seq![out[0]];
        assert(joins(w, out[0], out[0], n));
        assert(walk_in(marks_of(open, n), w));
    } else {
        let j = choose|j: int| 0 <= j < i && adjacent(out[j], out[i]);
        lemma_listed_linked(open, n, out, j);
        let v = choose|v: Seq<Cell>| joins(v, out[0], out[j], n) && #[trigger] walk_in(marks_of(open, n), v);
        let w = v.push(out[i]);
        assert forall|k: int| 0 <= k < w.len() - 1 implies adjacent(#[trigger] w[k], w[k + 1]) by {
            if k < v.len() - 1 {
                assert(w[k] == v[k] && w[k + 1] == v[k + 1]);
            }
        }
        assert(joins(w, out[0], out[i], n));
        assert(walk_in(marks_of(open, n), w));
    }
}

/// Once every listed cell has been looked at, every cell that a walk over
/// marked cells reaches is listed.
proof fn lemma_linked_listed(
    open: Seq<Vec<bool>>,
    seen: Seq<Vec<bool>>,
    n: usize,
    start: Cell,
    out: Seq<Cell>,
    w: Seq<Cell>,
)
    requires
        flood_inv(open, seen, n, start, out, out.len() as int),
        is_walk(w, n),
        w.first() == start,
        walk_in(marks_of(open, n), w),
    ensures
        out.contains(w.last()),
    decreases w.len(),
{
    if w.len() == 1 {
        assert(out[0] == w.last());
    } else {
        let v = w.drop_last();
        assert forall|k: int| 0 <= k < v.len() - 1 implies adjacent(#[trigger] v[k], v[k + 1]) by {
            assert(v[k] == w[k] && v[k + 1] == w[k + 1]);
        }
        assert(walk_in(marks_of(open, n), v)) by {
            assert forall|k: int| 0 <= k < v.len() implies marked(open, #[trigger] v[k]) by {
                assert(v[k] == w[k]);
            }
        }
        lemma_linked_listed(open, seen, n, start, out, v);
        let u = v.last();
        let c = w.last();
        assert(u == w[w.len() - 2]);
        assert(adjacent(w[w.len() - 2], w[w.len() - 2 + 1]));
        let i = choose|i: int| 0 <= i < out.len() && out[i] == u;
        assert(around_seen(open, seen, n, out[i], 4));
        assert(on_grid(w[w.len() - 2], n));
        assert(on_grid(w[w.len() - 1], n));
        lemma_adjacent_is_neighbor(u, c, n);
        let dir = choose|dir: int| 0 <= dir < 4 && #[trigger] neighbor_spec(u, dir, n) == Some(c);
        assert(marked(open, w[w.len() - 1]));
        assert(marked(seen, c));
    }
}

/// The cells that can be reached from `start` over cells marked in `open`,
/// each once, `start` first and every other cell after a cell next to it.
pub fn flood(open: &Vec<Vec<bool>>, n: usize, start: Cell) -> (out: Vec<Cell>)
    requires
        is_square(open@, n),
        on_grid(start, n),
        marked(open@, start),
    ensures
        all_on_grid(out@, n),
        out@.no_duplicates(),
        out@.len() >= 1,
        out@[0] == start,
        grown(out@),
        forall|p: Cell| on_grid(p, n) ==> (out@.contains(p) <==> linked(marks_of(open@, n), n, start, p)),
{
    let mut seen: Vec<Vec<bool>> = vec![vec![false; n]; n];
    let mut out: Vec<Cell> = Vec::new();
    let ghost blank = seen@;
    seen[start.0][start.1] = true;
    out.push(start);
    let ghost cells: int = n * n;
    proof {
        lemma_marks_set(blank, seen@, n, start);
        assert(walk_in(marks_of(open@, n), out@));
        assert forall|p: Cell| on_grid(p, n) implies (#[trigger] marked(seen@, p)
            <==> out@.contains(p)) by {
            if p == start {
                assert(out@[0] == p);
            }
        }
    }
    let mut head: usize = 0;
    while head < out.len()
        invariant
            flood_inv(open@, seen@, n, start, out@, head as int),
            cells == n * n,
        decreases 2 * (cells - mark_count(seen@)) + (out@.len() - head),
    {
        let c: Cell = out[head];
        assert(on_grid(out@[head as int], n));
        let ghost count0 = mark_count(seen@);
        let ghost len0 = out@.len();
        proof {
            lemma_mark_count(seen@, n);
        }
        let mut dir: usize = 0;
        while dir < 4
            invariant
                flood_inv(open@, seen@, n, start, out@, head as int),
                head < out@.len(),
                c == out@[head as int],
                on_grid(c, n),
                dir <= 4,
                around_seen(open@, seen@, n, c, dir as int),
                mark_count(seen@) - count0 == out@.len() - len0,
                out@.len() >= len0,
            decreases 4 - dir,
        {
            match neighbor(c, dir, n) {
                Some(q) => {
                    if open[q.0][q.1] && !seen[q.0][q.1] {
                        let ghost marks = seen@;
                        let ghost listed = out@;
                        seen[q.0][q.1] = true;
                        out.push(q);
                        proof {
                            lemma_marks_set(marks, seen@, n, q);
                            lemma_pushed(open@, marks, seen@, n, start, listed, out@, head as int, c, q);
                            assert forall|d: int| 0 <= d < dir + 1 implies (
                            #[trigger] neighbor_spec(c, d, n) matches Some(r) ==> marked(
                                open@,
                                r,
                            ) ==> marked(seen@, r)) by {
                                if d < dir {
                                    assert(around_seen(open@, marks, n, c, dir as int));
                                }
                            }
                        }
                    }
                },
                None => {},
            }
            dir += 1;
        }
        head += 1;
        proof {
            lemma_mark_count(seen@, n);
        }
    }
    proof {
        assert forall|p: Cell| on_grid(p, n) implies (out@.contains(p) <==> linked(
            marks_of(open@, n),
            n,
            start,
            p,
        )) by {
            if out@.contains(p) {
                let i = choose|i: int| 0 <= i < out@.len() && out@[i] == p;
                lemma_listed_linked(open@, n, out@, i);
            }
            if linked(marks_of(open@, n), n, start, p) {
                let w = choose|w: Seq<Cell>| joins(w, start, p, n) && #[trigger] walk_in(marks_of(open@, n), w);
                lemma_linked_listed(open@, seen@, n, start, out@, w);
            }
        }
    }
    out
}

/// Whether `after` is `before` with the mark of `q` set.
spec fn mark_set(before: Seq<Vec<bool>>, after: Seq<Vec<bool>>, q: Cell) -> bool {
    &&& after.len() == before.len()
    &&& forall|j: int| 0 <= j < before.len() && j != q.0 ==> (#[trigger] after[j])@ == before[j]@
    &&& after[q.0 as int]@ == before[q.0 as int]@.update(q.1 as int, true)
}

proof fn lemma_marks_set(before: Seq<Vec<bool>>, after: Seq<Vec<bool>>, n: usize, q: Cell)
    requires
        is_square(before, n),
        on_grid(q, n),
        !marked(before, q),
        mark_set(before, after, q),
    ensures
        is_square(after, n),
        marked(after, q),
        forall|p: Cell| on_grid(p, n) && p != q ==> marked(after, p) == marked(before, p),
        mark_count(after) == mark_count(before) + 1,
{
    assert forall|y: int| 0 <= y < n implies (#[trigger] after[y]).len() == n by {
        if y != q.0 {
            assert(after[y]@ == before[y]@);
        }
    }
    assert forall|p: Cell| on_grid(p, n) && p != q implies marked(after, p) == marked(
        before,
        p,
    ) by {
        if p.0 != q.0 {
            assert(after[p.0 as int]@ == before[p.0 as int]@);
        }
    }
    lemma_grid_total_set(mark_weight(), before, after, q.0 as int, q.1 as int);
}

proof fn lemma_mark_count(g: Seq<Vec<bool>>, n: usize)
    requires
        is_square(g, n),
    ensures
        0 <= mark_count(g) <= n * n,
{
    lemma_grid_total_bounds(mark_weight(), g, n as int, 0, 1);
    assert(0 * (n as int) * (n as int) == 0) by (nonlinear_arith);
    assert(1 * (n as int) * (n as int) == n * n) by (nonlinear_arith);
}

/// Listing an unseen marked neighbour of a listed cell keeps the flood
/// consistent.
proof fn lemma_pushed(
    open: Seq<Vec<bool>>,
    marks: Seq<Vec<bool>>,
    seen: Seq<Vec<bool>>,
    n: usize,
    start: Cell,
    listed: Seq<Cell>,
    out: Seq<Cell>,
    head: int,
    c: Cell,
    q: Cell,
)
    requires
        flood_inv(open, marks, n, start, listed, head),
        0 <= head < listed.len(),
        c == listed[head],
        on_grid(q, n),
        adjacent(c, q),
        marked(open, q),
        !marked(marks, q),
        is_square(seen, n),
        marked(seen, q),
        forall|p: Cell| on_grid(p, n) && p != q ==> marked(seen, p) == marked(marks, p),
        out == listed.push(q),
    ensures
        flood_inv(open, seen, n, start, out, head),
{
    assert(!listed.contains(q));
    assert forall|i: int, j: int| 0 <= i < out.len() && 0 <= j < out.len() && i != j implies out[i]
        != out[j] by {
        if i < listed.len() && j < listed.len() {
            assert(listed[i] != listed[j]);
        } else if i < listed.len() {
            assert(listed.contains(listed[i]));
        } else {
            assert(listed.contains(listed[j]));
        }
    }
    assert forall|i: int| 0 <= i < out.len() implies marked(open, #[trigger] out[i]) by {
        if i < listed.len() {
            assert(out[i] == listed[i]);
        }
    }
    assert forall|i: int| 0 < i < out.len() implies exists|j: int|
        0 <= j < i && adjacent(out[j], #[trigger] out[i]) by {
        if i < listed.len() {
            let j = choose|j: int| 0 <= j < i && adjacent(listed[j], listed[i]);
            assert(adjacent(out[j], out[i]));
        } else {
            assert(adjacent(out[head], out[i]));
        }
    }
    assert forall|p: Cell| on_grid(p, n) implies (#[trigger] marked(seen, p) <==> out.contains(
        p,
    )) by {
        if p == q {
            assert(out[listed.len() as int] == q);
        } else {
            assert(marked(marks, p) <==> listed.contains(p));
            if listed.contains(p) {
                let i = choose|i: int| 0 <= i < listed.len() && listed[i] == p;
                assert(out[i] == p);
            }
            if out.contains(p) {
                let i = choose|i: int| 0 <= i < out.len() && out[i] == p;
                assert(listed[i] == p);
            }
        }
    }
    assert forall|i: int| 0 <= i < head implies around_seen(open, seen, n, #[trigger] out[i], 4) by {
        assert(out[i] == listed[i]);
        assert(around_seen(open, marks, n, listed[i], 4));
    }
    assert forall|i: int| 0 <= i < out.len() implies on_grid(#[trigger] out[i], n) by {
        if i < listed.len() {
            assert(out[i] == listed[i]);
        }
    }
}

} // verus!
