//! Cells of a square grid, moves between them and distances on them.

use vstd::prelude::*;

verus! {

/// A cell of the grid, as (row, column).
pub type Cell = (usize, usize);

/// Whether `p` lies on the `n` by `n` grid.
pub open spec fn on_grid(p: Cell, n: usize) -> bool {
    p.0 < n && p.1 < n
}

/// Whether every cell of `cells` lies on the `n` by `n` grid.
pub open spec fn all_on_grid(cells: Seq<Cell>, n: usize) -> bool {
    forall|i: int| 0 <= i < cells.len() ==> on_grid(#[trigger] cells[i], n)
}

/// Whether `g` has `n` rows of `n` entries each.
pub open spec fn is_square<T>(g: Seq<Vec<T>>, n: usize) -> bool {
    &&& g.len() == n
    &&& forall|y: int| 0 <= y < n ==> (#[trigger] g[y]).len() == n
}

/// The cell reached from `(y, x)` by the offset `(dy, dx)`, if it lies on the
/// `n` by `n` grid.
pub open spec fn shifted(y: usize, dy: int, x: usize, dx: int, n: usize) -> Option<Cell> {
    if 0 <= y + dy < n && 0 <= x + dx < n {
        Some(((y + dy) as usize, (x + dx) as usize))
    } else {
        None
    }
}

/// The row offset of direction `dir`; directions are numbered up, down, left,
/// right.
pub open spec fn dir_dy(dir: int) -> int {
    if dir == 0 {
        -1
    } else if dir == 1 {
        1
    } else {
        0
    }
}

/// The column offset of direction `dir`.
pub open spec fn dir_dx(dir: int) -> int {
    if dir == 2 {
        -1
    } else if dir == 3 {
        1
    } else {
        0
    }
}

/// The neighbour of `p` in direction `dir`, if it lies on the grid.
pub open spec fn neighbor_spec(p: Cell, dir: int, n: usize) -> Option<Cell> {
    shifted(p.0, dir_dy(dir), p.1, dir_dx(dir), n)
}

/// Whether `a` and `b` share a side.
pub open spec fn adjacent(a: Cell, b: Cell) -> bool {
    ||| (a.1 == b.1 && (a.0 + 1 == b.0 || b.0 + 1 == a.0))
    ||| (a.0 == b.0 && (a.1 + 1 == b.1 || b.1 + 1 == a.1))
}

/// The distance between `a` and `b` when only moves along rows and columns
/// are allowed.
pub open spec fn manhattan_spec(a: Cell, b: Cell) -> int {
    (if a.0 <= b.0 { b.0 - a.0 } else { a.0 - b.0 })
        + (if a.1 <= b.1 { b.1 - a.1 } else { a.1 - b.1 })
}

fn shift_one(v: usize, d: i32, n: usize) -> (r: Option<usize>)
    ensures
        r == (if 0 <= v + d < n {
            Some((v + d) as usize)
        } else {
            None
        }),
{
    if d >= 0 {
        let step: usize = d as usize;
        if v < n && step < n - v {
            Some(v + step)
        } else {
            None
        }
    } else {
        let back: i64 = -(d as i64);
        let step: usize = back as usize;
        if step <= v && v - step < n {
            Some(v - step)
        } else {
            None
        }
    }
}

/// Moves from `(y, x)` by `(dy, dx)`; `None` when the move leaves the `n` by
/// `n` grid.
pub fn convert_index(y: usize, dy: i32, x: usize, dx: i32, n: usize) -> (r: Option<Cell>)
    ensures
        r == shifted(y, dy as int, x, dx as int, n),
{
    match shift_one(y, dy, n) {
        Some(ny) => match shift_one(x, dx, n) {
            Some(nx) => Some((ny, nx)),
            None => None,
        },
        None => None,
    }
}

/// The neighbour of `p` in direction `dir` (0 up, 1 down, 2 left, 3 right),
/// if it lies on the grid.
pub fn neighbor(p: Cell, dir: usize, n: usize) -> (r: Option<Cell>)
    requires
        dir < 4,
    ensures
        r == neighbor_spec(p, dir as int, n),
        r matches Some(q) ==> on_grid(q, n) && adjacent(p, q),
{
    let dy: i32 = if dir == 0 {
        -1
    } else if dir == 1 {
        1
    } else {
        0
    };
    let dx: i32 = if dir == 2 {
        -1
    } else if dir == 3 {
        1
    } else {
        0
    };
    convert_index(p.0, dy, p.1, dx, n)
}

/// The Manhattan distance between `a` and `b`.
pub fn manhattan(a: Cell, b: Cell) -> (d: u64)
    requires
        a.0 <= u32::MAX,
        a.1 <= u32::MAX,
        b.0 <= u32::MAX,
        b.1 <= u32::MAX,
    ensures
        d == manhattan_spec(a, b),
{
    let dy: usize = if a.0 <= b.0 {
        b.0 - a.0
    } else {
        a.0 - b.0
    };
    let dx: usize = if a.1 <= b.1 {
        b.1 - a.1
    } else {
        a.1 - b.1
    };
    dy as u64 + dx as u64
}

/// Two cells that share a side are neighbours of each other in some
/// direction.
pub proof fn lemma_adjacent_is_neighbor(a: Cell, b: Cell, n: usize)
    requires
        on_grid(a, n),
        on_grid(b, n),
        adjacent(a, b),
    ensures
        exists|dir: int| 0 <= dir < 4 && #[trigger] neighbor_spec(a, dir, n) == Some(b),
{
    if a.1 == b.1 && b.0 + 1 == a.0 {
        assert(neighbor_spec(a, 0, n) == Some(b));
    } else if a.1 == b.1 && a.0 + 1 == b.0 {
        assert(neighbor_spec(a, 1, n) == Some(b));
    } else if a.0 == b.0 && b.1 + 1 == a.1 {
        assert(neighbor_spec(a, 2, n) == Some(b));
    } else {
        assert(neighbor_spec(a, 3, n) == Some(b));
    }
}

/// Whether `p` is one of `cells`.
pub fn contains_cell(cells: &Vec<Cell>, p: Cell) -> (b: bool)
    ensures
        b == cells@.contains(p),
{
    let mut i: usize = 0;
    while i < cells.len()
        invariant
            i <= cells@.len(),
            forall|j: int| 0 <= j < i ==> cells@[j] != p,
        decreases cells@.len() - i,
    {
        let q: Cell = cells[i];
        if q.0 == p.0 && q.1 == p.1 {
            return true;
        }
        i += 1;
    }
    false
}

/// A copy of `cells`.
pub fn copy_cells(cells: &Vec<Cell>) -> (r: Vec<Cell>)
    ensures
        r@ == cells@,
{
    let mut r: Vec<Cell> = Vec::new();
    let mut i: usize = 0;
    while i < cells.len()
        invariant
            i <= cells@.len(),
            r@ == cells@.subrange(0, i as int),
        decreases cells@.len() - i,
    {
        r.push(cells[i]);
        assert(r@ =~= cells@.subrange(0, i + 1));
        i += 1;
    }
    assert(r@ =~= cells@);
    r
}

/// A list with one more cell holds what it held and that cell.
pub proof fn lemma_contains_push(before: Seq<Cell>, c: Cell)
    ensures
        forall|p: Cell| before.push(c).contains(p) <==> (before.contains(p) || p == c),
{
    let after = before.push(c);
    assert forall|p: Cell| after.contains(p) <==> (before.contains(p) || p == c) by {
        if before.contains(p) {
            let j = choose|j: int| 0 <= j < before.len() && before[j] == p;
            assert(after[j] == p);
        }
        if p == c {
            assert(after[before.len() as int] == c);
        }
        if after.contains(p) {
            let j = choose|j: int| 0 <= j < after.len() && after[j] == p;
            if j < before.len() {
                assert(before[j] == p);
            }
        }
    }
}

} // verus!
