//! Shortest walks over a grid of costs: a search from one cell that labels
//! the cells with their distances, and the walk back from a target along
//! those labels.

use crate::grid::{
    adjacent, is_square, lemma_adjacent_is_neighbor, neighbor, neighbor_spec, on_grid, Cell,
};
use crate::queue::{Entry, MinQueue};
use crate::sums::{grid_total, lemma_grid_total_bounds, lemma_grid_total_set};
use crate::grid::all_on_grid;
use crate::walk::{
    at, comes_from, corner_walk, distance, is_distance, is_trail, is_walk, joins,
    lemma_corner_walk, lemma_distance_unique, lemma_walk_cost_bounds, lemma_walk_drop,
    lemma_walk_push, reach_at, step_back, trail_cost, valid_costs, walk_cost, COST_LIMIT,
    SIDE_LIMIT, UNREACHED,
};
use vstd::multiset::Multiset;
use vstd::prelude::*;

verus! {

/// The cost of entering each cell of the grid as `costs` lists it; nothing
/// off the grid.
pub open spec fn table(costs: Seq<Vec<i64>>, n: usize) -> spec_fn(Cell) -> int {
    |p: Cell|
        if on_grid(p, n) {
            at(costs, p)
        } else {
            0
        }
}

/// Whether no walk from `s` that costs less than `bound` beats the label of
/// the cell it ends in.
pub open spec fn tight_below(
    costs: Seq<Vec<i64>>,
    n: usize,
    s: Cell,
    dist: Seq<Vec<i64>>,
    bound: int,
) -> bool {
    forall|w: Seq<Cell>|
        is_walk(w, n) && w.first() == s && #[trigger] walk_cost(table(costs, n), w) < bound ==> at(
            dist,
            w.last(),
        ) <= walk_cost(table(costs, n), w)
}

/// Whether the neighbour of `c` in direction `dir` has a label from which
/// the label of `c` can be had by entering `c`.
pub open spec fn has_parent(costs: Seq<Vec<i64>>, n: usize, dist: Seq<Vec<i64>>, c: Cell, dir: int) -> bool {
    0 <= dir < 4 && match neighbor_spec(c, dir, n) {
        Some(p) => at(dist, p) < UNREACHED && at(dist, p) + at(costs, c) <= at(dist, c),
        None => false,
    }
}

/// Whether every labelled cell but `s` has a neighbour that accounts for
/// its label.
pub open spec fn parented(costs: Seq<Vec<i64>>, n: usize, s: Cell, dist: Seq<Vec<i64>>) -> bool {
    forall|c: Cell|
        on_grid(c, n) && c != s && #[trigger] at(dist, c) < UNREACHED ==> exists|dir: int|
            has_parent(costs, n, dist, c, dir)
}

/// Whether every label is the cost of some walk from `s`.
pub open spec fn sound(costs: Seq<Vec<i64>>, n: usize, s: Cell, dist: Seq<Vec<i64>>) -> bool {
    forall|p: Cell|
        on_grid(p, n) && #[trigger] at(dist, p) < UNREACHED ==> reach_at(
            table(costs, n),
            n,
            s,
            p,
            at(dist, p),
        )
}

/// What a table of labels from a search from `s` offers: labels that are
/// costs of walks, each accounted for by a neighbour, and that no walk
/// cheaper than `bound` beats.
pub open spec fn settled(
    costs: Seq<Vec<i64>>,
    n: usize,
    s: Cell,
    dist: Seq<Vec<i64>>,
    bound: int,
) -> bool {
    &&& is_square(dist, n)
    &&& at(dist, s) == 0
    &&& forall|p: Cell| on_grid(p, n) ==> 0 <= #[trigger] at(dist, p)
    &&& sound(costs, n, s, dist)
    &&& parented(costs, n, s, dist)
    &&& tight_below(costs, n, s, dist, bound)
}

spec fn reach_weight() -> spec_fn(i64) -> int {
    |v: i64|
        if v < UNREACHED {
            1int
        } else {
            0int
        }
}

spec fn label_weight() -> spec_fn(i64) -> int {
    |v: i64|
        if v >= 0 {
            v as int
        } else {
            0int
        }
}

spec fn reach_count(dist: Seq<Vec<i64>>) -> int {
    grid_total(reach_weight(), dist)
}

spec fn potential(dist: Seq<Vec<i64>>) -> int {
    grid_total(label_weight(), dist)
}

spec fn witnessed(
    costs: Seq<Vec<i64>>,
    n: usize,
    s: Cell,
    dist: Seq<Vec<i64>>,
    walks: Map<Cell, Seq<Cell>>,
) -> bool {
    forall|p: Cell|
        on_grid(p, n) && #[trigger] at(dist, p) < UNREACHED ==> joins(walks[p], s, p, n)
            && walk_cost(table(costs, n), walks[p]) == at(dist, p)
}

spec fn relaxed_dir(costs: Seq<Vec<i64>>, n: usize, dist: Seq<Vec<i64>>, u: Cell, dir: int) -> bool {
    match neighbor_spec(u, dir, n) {
        Some(v) => at(dist, v) <= at(dist, u) + at(costs, v),
        None => true,
    }
}

spec fn relaxed_upto(costs: Seq<Vec<i64>>, n: usize, dist: Seq<Vec<i64>>, u: Cell, k: int) -> bool {
    forall|dir: int| 0 <= dir < k ==> #[trigger] relaxed_dir(costs, n, dist, u, dir)
}

spec fn cell_ok(
    costs: Seq<Vec<i64>>,
    n: usize,
    dist: Seq<Vec<i64>>,
    pending: Multiset<Entry>,
    active: Option<(Cell, int)>,
    p: Cell,
) -> bool {
    at(dist, p) < UNREACHED ==> match active {
        Some((u, k)) if u == p => relaxed_upto(costs, n, dist, p, k),
        _ => relaxed_upto(costs, n, dist, p, 4) || pending.count((dist[p.0 as int]@[p.1 as int], p))
            > 0,
    }
}

spec fn frontier(
    costs: Seq<Vec<i64>>,
    n: usize,
    dist: Seq<Vec<i64>>,
    pending: Multiset<Entry>,
    active: Option<(Cell, int)>,
) -> bool {
    forall|p: Cell| on_grid(p, n) ==> #[trigger] cell_ok(costs, n, dist, pending, active, p)
}

spec fn pending_ok(n: usize, dist: Seq<Vec<i64>>, pending: Multiset<Entry>) -> bool {
    forall|e: Entry| #[trigger]
        pending.count(e) > 0 ==> on_grid(e.1, n) && 0 <= at(dist, e.1) <= e.0 && e.0 < UNREACHED
}

spec fn bounded(n: usize, dist: Seq<Vec<i64>>) -> bool {
    forall|p: Cell|
        on_grid(p, n) ==> 0 <= #[trigger] at(dist, p) && (at(dist, p) < UNREACHED ==> at(dist, p)
            <= (reach_count(dist) - 1) * COST_LIMIT)
}

spec fn inv(
    costs: Seq<Vec<i64>>,
    n: usize,
    s: Cell,
    dist: Seq<Vec<i64>>,
    pending: Multiset<Entry>,
    walks: Map<Cell, Seq<Cell>>,
    active: Option<(Cell, int)>,
) -> bool {
    &&& is_square(dist, n)
    &&& at(dist, s) == 0
    &&& witnessed(costs, n, s, dist, walks)
    &&& parented(costs, n, s, dist)
    &&& frontier(costs, n, dist, pending, active)
    &&& pending_ok(n, dist, pending)
    &&& bounded(n, dist)
}

/// Whether `after` is `before` with the label of `v` replaced by `nd`.
spec fn relabelled(before: Seq<Vec<i64>>, after: Seq<Vec<i64>>, v: Cell, nd: i64) -> bool {
    &&& after.len() == before.len()
    &&& forall|j: int| 0 <= j < before.len() && j != v.0 ==> (#[trigger] after[j])@ == before[j]@
    &&& after[v.0 as int]@ == before[v.0 as int]@.update(v.1 as int, nd)
}

proof fn lemma_relabelled(before: Seq<Vec<i64>>, after: Seq<Vec<i64>>, n: usize, v: Cell, nd: i64)
    requires
        is_square(before, n),
        on_grid(v, n),
        relabelled(before, after, v, nd),
    ensures
        is_square(after, n),
        at(after, v) == nd,
        forall|p: Cell| on_grid(p, n) && p != v ==> at(after, p) == at(before, p),
        reach_count(after) == reach_count(before) - reach_weight()(before[v.0 as int]@[v.1 as int])
            + reach_weight()(nd),
        potential(after) == potential(before) - label_weight()(before[v.0 as int]@[v.1 as int])
            + label_weight()(nd),
{
    assert forall|y: int| 0 <= y < n implies (#[trigger] after[y]).len() == n by {
        if y != v.0 {
            assert(after[y]@ == before[y]@);
        }
    }
    assert forall|p: Cell| on_grid(p, n) && p != v implies at(after, p) == at(before, p) by {
        if p.0 != v.0 {
            assert(after[p.0 as int]@ == before[p.0 as int]@);
        }
    }
    lemma_grid_total_set(reach_weight(), before, after, v.0 as int, v.1 as int);
    lemma_grid_total_set(label_weight(), before, after, v.0 as int, v.1 as int);
}

proof fn lemma_reach_count(dist: Seq<Vec<i64>>, n: usize)
    requires
        is_square(dist, n),
        n < SIDE_LIMIT,
    ensures
        0 <= reach_count(dist) <= n * n,
        n * n < 0x4000_0000,
        0 <= potential(dist),
{
    lemma_grid_total_bounds(reach_weight(), dist, n as int, 0, 1);
    lemma_grid_total_bounds(label_weight(), dist, n as int, 0, UNREACHED as int);
    assert(n * n < 0x4000_0000) by (nonlinear_arith)
        requires
            n < 0x8000,
    ;
    assert(0 * (n as int) * (n as int) == 0) by (nonlinear_arith);
    assert(1 * (n as int) * (n as int) == n * n) by (nonlinear_arith);
}

/// No walk from `s` that is cheaper than every pending key beats a label.
proof fn lemma_tight(
    costs: Seq<Vec<i64>>,
    n: usize,
    s: Cell,
    dist: Seq<Vec<i64>>,
    pending: Multiset<Entry>,
    active: Option<(Cell, int)>,
    m: int,
    w: Seq<Cell>,
)
    requires
        valid_costs(costs, n),
        is_square(dist, n),
        on_grid(s, n),
        at(dist, s) == 0,
        frontier(costs, n, dist, pending, active),
        forall|e: Entry| #[trigger] pending.count(e) > 0 ==> m <= e.0,
        active matches Some((u, k)) ==> m <= at(dist, u),
        m <= UNREACHED,
        is_walk(w, n),
        w.first() == s,
        walk_cost(table(costs, n), w) < m,
    ensures
        at(dist, w.last()) <= walk_cost(table(costs, n), w),
    decreases w.len(),
{
    if w.len() >= 2 {
        lemma_walk_drop(table(costs, n), n, w);
        let v = w.drop_last();
        let c = w.last();
        assert(1 <= costs[c.0 as int]@[c.1 as int]);
        lemma_tight(costs, n, s, dist, pending, active, m, v);
        let u = v.last();
        assert(cell_ok(costs, n, dist, pending, active, u));
        assert(pending.count((dist[u.0 as int]@[u.1 as int], u)) > 0 ==> m <= at(dist, u));
        assert(relaxed_upto(costs, n, dist, u, 4));
        lemma_adjacent_is_neighbor(u, c, n);
        let dir = choose|dir: int| 0 <= dir < 4 && #[trigger] neighbor_spec(u, dir, n) == Some(c);
        assert(relaxed_dir(costs, n, dist, u, dir));
    }
}

proof fn lemma_tight_all(
    costs: Seq<Vec<i64>>,
    n: usize,
    s: Cell,
    dist: Seq<Vec<i64>>,
    pending: Multiset<Entry>,
    active: Option<(Cell, int)>,
    m: int,
)
    requires
        valid_costs(costs, n),
        is_square(dist, n),
        on_grid(s, n),
        at(dist, s) == 0,
        frontier(costs, n, dist, pending, active),
        forall|e: Entry| #[trigger] pending.count(e) > 0 ==> m <= e.0,
        active matches Some((u, k)) ==> m <= at(dist, u),
        m <= UNREACHED,
    ensures
        tight_below(costs, n, s, dist, m),
{
    assert forall|w: Seq<Cell>|
        is_walk(w, n) && w.first() == s && #[trigger] walk_cost(table(costs, n), w) < m implies at(
        dist,
        w.last(),
    ) <= walk_cost(table(costs, n), w) by {
        lemma_tight(costs, n, s, dist, pending, active, m, w);
    }
}

proof fn lemma_sound(
    costs: Seq<Vec<i64>>,
    n: usize,
    s: Cell,
    dist: Seq<Vec<i64>>,
    walks: Map<Cell, Seq<Cell>>,
)
    requires
        witnessed(costs, n, s, dist, walks),
    ensures
        sound(costs, n, s, dist),
{
    assert forall|p: Cell| on_grid(p, n) && #[trigger] at(dist, p) < UNREACHED implies reach_at(
        table(costs, n),
        n,
        s,
        p,
        at(dist, p),
    ) by {
        assert(joins(walks[p], s, p, n) && walk_cost(table(costs, n), walks[p]) == at(dist, p));
    }
}

/// When nothing is pending, every cell has a label, since every cell can be
/// walked to.
proof fn lemma_all_reached(costs: Seq<Vec<i64>>, n: usize, s: Cell, dist: Seq<Vec<i64>>, p: Cell)
    requires
        valid_costs(costs, n),
        on_grid(s, n),
        on_grid(p, n),
        tight_below(costs, n, s, dist, UNREACHED as int),
    ensures
        at(dist, p) < UNREACHED,
{
    let w = corner_walk(s, p);
    lemma_corner_walk(n, s, p);
    lemma_walk_cost_bounds(table(costs, n), n, w);
    assert((w.len() - 1) * COST_LIMIT < UNREACHED) by (nonlinear_arith)
        requires
            0 <= w.len() - 1 <= 0x10000,
            COST_LIMIT == 0x2_0000_0000,
            UNREACHED == 0x7fff_ffff_ffff_ffff,
    ;
}

/// Lowering the label of a neighbour of the cell being served keeps the
/// search consistent and lowers its potential.
proof fn lemma_relax(
    costs: Seq<Vec<i64>>,
    n: usize,
    s: Cell,
    d0: Seq<Vec<i64>>,
    d1: Seq<Vec<i64>>,
    q0: Multiset<Entry>,
    walks0: Map<Cell, Seq<Cell>>,
    u: Cell,
    k: int,
    v: Cell,
    nd: i64,
)
    requires
        valid_costs(costs, n),
        on_grid(s, n),
        on_grid(u, n),
        inv(costs, n, s, d0, q0, walks0, Some((u, k))),
        0 <= k < 4,
        neighbor_spec(u, k, n) == Some(v),
        at(d0, u) < UNREACHED,
        nd == at(d0, u) + at(costs, v),
        nd < at(d0, v),
        relabelled(d0, d1, v, nd),
    ensures
        inv(
            costs,
            n,
            s,
            d1,
            q0.insert((nd, v)),
            walks0.insert(v, walks0[u].push(v)),
            Some((u, k + 1)),
        ),
        potential(d1) < potential(d0),
{
    let q1 = q0.insert((nd, v));
    let walks1 = walks0.insert(v, walks0[u].push(v));
    lemma_relabelled(d0, d1, n, v, nd);
    lemma_reach_count(d0, n);
    lemma_reach_count(d1, n);
    assert(on_grid(v, n) && adjacent(u, v) && u != v);
    assert(1 <= costs[v.0 as int]@[v.1 as int] <= COST_LIMIT);
    assert(0 <= at(d0, u) && 0 <= at(d0, v) && 0 <= at(d0, s));
    assert(v != s);
    assert(forall|p: Cell| on_grid(p, n) ==> at(d1, p) <= at(d0, p));
    // every label is still the cost of its walk
    assert(joins(walks0[u], s, u, n) && walk_cost(table(costs, n), walks0[u]) == at(d0, u));
    lemma_walk_push(table(costs, n), n, walks0[u], v);
    assert forall|p: Cell| on_grid(p, n) && #[trigger] at(d1, p) < UNREACHED implies joins(
        walks1[p],
        s,
        p,
        n,
    ) && walk_cost(table(costs, n), walks1[p]) == at(d1, p) by {
        if p != v {
            assert(at(d0, p) < UNREACHED);
        }
    }
    // every labelled cell still has a parent
    assert forall|c: Cell|
        on_grid(c, n) && c != s && #[trigger] at(d1, c) < UNREACHED implies exists|dir: int|
        has_parent(costs, n, d1, c, dir) by {
        if c == v {
            lemma_adjacent_is_neighbor(v, u, n);
            let dir = choose|dir: int|
                0 <= dir < 4 && #[trigger] neighbor_spec(v, dir, n) == Some(u);
            assert(has_parent(costs, n, d1, c, dir));
        } else {
            assert(at(d0, c) < UNREACHED);
            let dir = choose|dir: int| has_parent(costs, n, d0, c, dir);
            assert(has_parent(costs, n, d1, c, dir));
        }
    }
    // the frontier
    assert forall|p: Cell| on_grid(p, n) implies #[trigger] cell_ok(
        costs,
        n,
        d1,
        q1,
        Some((u, k + 1)),
        p,
    ) by {
        assert(cell_ok(costs, n, d0, q0, Some((u, k)), p));
        if at(d1, p) < UNREACHED {
            if p == u {
                assert forall|dir: int| 0 <= dir < k + 1 implies #[trigger] relaxed_dir(
                    costs,
                    n,
                    d1,
                    u,
                    dir,
                ) by {
                    if dir < k {
                        assert(relaxed_dir(costs, n, d0, u, dir));
                    }
                }
            } else if p == v {
                assert(q1.count((nd, v)) > 0);
            } else {
                if relaxed_upto(costs, n, d0, p, 4) {
                    assert forall|dir: int| 0 <= dir < 4 implies #[trigger] relaxed_dir(
                        costs,
                        n,
                        d1,
                        p,
                        dir,
                    ) by {
                        assert(relaxed_dir(costs, n, d0, p, dir));
                    }
                } else {
                    assert(q0.count((d0[p.0 as int]@[p.1 as int], p)) > 0);
                    assert(d1[p.0 as int]@[p.1 as int] == d0[p.0 as int]@[p.1 as int]);
                }
            }
        }
    }
    // what is pending
    assert forall|e: Entry| #[trigger] q1.count(e) > 0 implies on_grid(e.1, n) && 0 <= at(
        d1,
        e.1,
    ) <= e.0 && e.0 < UNREACHED by {
        if e != (nd, v) {
            assert(q0.count(e) > 0);
        }
    }
    // the bound on the labels
    assert forall|p: Cell| on_grid(p, n) implies 0 <= #[trigger] at(d1, p) && (at(d1, p)
        < UNREACHED ==> at(d1, p) <= (reach_count(d1) - 1) * COST_LIMIT) by {
        assert(0 <= at(d0, p));
        if p != v && at(d1, p) < UNREACHED {
            assert(at(d0, p) <= (reach_count(d0) - 1) * COST_LIMIT);
        }
    }
}

/// Leaving a neighbour as it is, because its label is low enough or because
/// there is none, keeps the search consistent.
proof fn lemma_keep(
    costs: Seq<Vec<i64>>,
    n: usize,
    s: Cell,
    dist: Seq<Vec<i64>>,
    pending: Multiset<Entry>,
    walks: Map<Cell, Seq<Cell>>,
    u: Cell,
    k: int,
)
    requires
        on_grid(u, n),
        inv(costs, n, s, dist, pending, walks, Some((u, k))),
        0 <= k < 4,
        relaxed_dir(costs, n, dist, u, k),
    ensures
        inv(costs, n, s, dist, pending, walks, Some((u, k + 1))),
{
    assert forall|p: Cell| on_grid(p, n) implies #[trigger] cell_ok(
        costs,
        n,
        dist,
        pending,
        Some((u, k + 1)),
        p,
    ) by {
        assert(cell_ok(costs, n, dist, pending, Some((u, k)), p));
        if p == u && at(dist, p) < UNREACHED {
            assert forall|dir: int| 0 <= dir < k + 1 implies #[trigger] relaxed_dir(
                costs,
                n,
                dist,
                u,
                dir,
            ) by {}
        }
    }
}

/// Taking an entry of the cell `u` out of what is pending keeps the search
/// consistent while `u` is being served; if the entry was out of date, also
/// when it is not.
proof fn lemma_popped(
    costs: Seq<Vec<i64>>,
    n: usize,
    s: Cell,
    dist: Seq<Vec<i64>>,
    pending: Multiset<Entry>,
    walks: Map<Cell, Seq<Cell>>,
    d: i64,
    u: Cell,
)
    requires
        inv(costs, n, s, dist, pending, walks, None),
        pending.count((d, u)) > 0,
    ensures
        inv(costs, n, s, dist, pending.remove((d, u)), walks, Some((u, 0))),
        d > at(dist, u) ==> inv(costs, n, s, dist, pending.remove((d, u)), walks, None),
{
    let rest = pending.remove((d, u));
    assert forall|p: Cell| on_grid(p, n) implies #[trigger] cell_ok(
        costs,
        n,
        dist,
        rest,
        Some((u, 0)),
        p,
    ) by {
        assert(cell_ok(costs, n, dist, pending, None, p));
    }
    if d > at(dist, u) {
        assert forall|p: Cell| on_grid(p, n) implies #[trigger] cell_ok(
            costs,
            n,
            dist,
            rest,
            None,
            p,
        ) by {
            assert(cell_ok(costs, n, dist, pending, None, p));
        }
    }
    assert forall|e: Entry| #[trigger] rest.count(e) > 0 implies pending.count(e) > 0 by {}
}

/// Once all four neighbours of `u` have been looked at, `u` is done.
proof fn lemma_served(
    costs: Seq<Vec<i64>>,
    n: usize,
    s: Cell,
    dist: Seq<Vec<i64>>,
    pending: Multiset<Entry>,
    walks: Map<Cell, Seq<Cell>>,
    u: Cell,
)
    requires
        inv(costs, n, s, dist, pending, walks, Some((u, 4))),
    ensures
        inv(costs, n, s, dist, pending, walks, None),
{
    assert forall|p: Cell| on_grid(p, n) implies #[trigger] cell_ok(
        costs,
        n,
        dist,
        pending,
        None,
        p,
    ) by {
        assert(cell_ok(costs, n, dist, pending, Some((u, 4)), p));
    }
}

/// What [`search`] promises of its table: with a target, labels that are
/// final for every walk cheaper than the target's label; without one, final
/// labels for every cell.
pub open spec fn searched(
    costs: Seq<Vec<i64>>,
    n: usize,
    s: Cell,
    stop: Option<Cell>,
    dist: Seq<Vec<i64>>,
) -> bool {
    match stop {
        Some(t) => settled(costs, n, s, dist, at(dist, t)) && at(dist, t) < UNREACHED,
        None => settled(costs, n, s, dist, UNREACHED as int) && forall|p: Cell|
            on_grid(p, n) ==> #[trigger] at(dist, p) < UNREACHED,
    }
}

/// Labels the cells of the grid with the least cost of a walk from `s`,
/// always serving next a pending cell of least label. With a target in
/// `stop`, the search ends as soon as the target is served.
pub(crate) fn search(costs: &Vec<Vec<i64>>, n: usize, s: Cell, stop: Option<Cell>) -> (dist: Vec<
    Vec<i64>,
>)
    requires
        valid_costs(costs@, n),
        on_grid(s, n),
        stop matches Some(t) ==> on_grid(t, n),
    ensures
        searched(costs@, n, s, stop, dist@),
{
    let mut dist: Vec<Vec<i64>> = vec![vec![UNREACHED; n]; n];
    let ghost blank = dist@;
    dist[s.0][s.1] = 0;
    let mut queue = MinQueue::new();
    queue.push(0, s);
    let ghost mut walks: Map<Cell, Seq<Cell>> = Map::empty().insert(s, seq![s]);
    proof {
        assert(relabelled(blank, dist@, s, 0));
        lemma_relabelled(blank, dist@, n, s, 0);
        lemma_grid_total_bounds(reach_weight(), blank, n as int, 0, 0);
        assert(0 * (n as int) * (n as int) == 0) by (nonlinear_arith);
        assert(reach_count(dist@) == 1);
        assert(forall|p: Cell| on_grid(p, n) && p != s ==> at(dist@, p) == UNREACHED);
        assert(is_walk(seq![s], n));
        assert(queue@.count((0i64, s)) > 0);
        assert forall|p: Cell| on_grid(p, n) implies #[trigger] cell_ok(
            costs@,
            n,
            dist@,
            queue@,
            None,
            p,
        ) by {}
        assert forall|e: Entry| #[trigger] queue@.count(e) > 0 implies e == (0i64, s) by {}
    }
    let mut done: bool = false;
    while !done
        invariant
            valid_costs(costs@, n),
            on_grid(s, n),
            stop matches Some(t) ==> on_grid(t, n),
            queue.wf(),
            !done ==> inv(costs@, n, s, dist@, queue@, walks, None),
            done ==> searched(costs@, n, s, stop, dist@),
            is_square(dist@, n),
        decreases
                (if done {
                    0int
                } else {
                    1int
                }),
                potential(dist@),
                queue@.len(),
    {
        proof {
            lemma_reach_count(dist@, n);
        }
        let ghost before = queue@;
        match queue.pop() {
            None => {
                proof {
                    assert forall|e: Entry| #[trigger] queue@.count(e) > 0 implies UNREACHED
                        <= e.0 by {
                        assert(queue@.len() == 0);
                    }
                    lemma_tight_all(costs@, n, s, dist@, queue@, None, UNREACHED as int);
                    lemma_sound(costs@, n, s, dist@, walks);
                    assert forall|p: Cell| on_grid(p, n) implies #[trigger] at(dist@, p)
                        < UNREACHED by {
                        lemma_all_reached(costs@, n, s, dist@, p);
                    }
                }
                done = true;
            },
            Some((d, u)) => {
                proof {
                    lemma_popped(costs@, n, s, dist@, before, walks, d, u);
                    assert(queue@.len() == before.len() - 1);
                }
                let at_target: bool = match stop {
                    Some(t) => t.0 == u.0 && t.1 == u.1,
                    None => false,
                };
                let label: i64 = dist[u.0][u.1];
                if at_target {
                    proof {
                        assert forall|e: Entry| #[trigger] queue@.count(e) > 0 implies label
                            <= e.0 by {
                            assert(before.count(e) > 0);
                        }
                        lemma_tight_all(
                            costs@,
                            n,
                            s,
                            dist@,
                            queue@,
                            Some((u, 0)),
                            label as int,
                        );
                        lemma_sound(costs@, n, s, dist@, walks);
                    }
                    done = true;
                } else if d <= label {
                    let ghost start = potential(dist@);
                    let ghost waiting = queue@.len();
                    let mut dir: usize = 0;
                    while dir < 4
                        invariant
                            valid_costs(costs@, n),
                            on_grid(s, n),
                            on_grid(u, n),
                            queue.wf(),
                            dir <= 4,
                            inv(costs@, n, s, dist@, queue@, walks, Some((u, dir as int))),
                            at(dist@, u) == d,
                            d < UNREACHED,
                            is_square(dist@, n),
                            potential(dist@) < start || (potential(dist@) == start && queue@.len()
                                == waiting),
                        decreases 4 - dir,
                    {
                        proof {
                            lemma_reach_count(dist@, n);
                        }
                        match neighbor(u, dir, n) {
                            Some(v) => {
                                let step: i64 = costs[v.0][v.1];
                                assert(1 <= costs@[v.0 as int]@[v.1 as int] <= COST_LIMIT);
                                assert(0 <= at(dist@, u) <= (reach_count(dist@) - 1) * COST_LIMIT);
                                let nd: i64 = d + step;
                                if nd < dist[v.0][v.1] {
                                    let ghost d0 = dist@;
                                    let ghost q0 = queue@;
                                    dist[v.0][v.1] = nd;
                                    queue.push(nd, v);
                                    proof {
                                        assert(relabelled(d0, dist@, v, nd));
                                        lemma_relax(
                                            costs@,
                                            n,
                                            s,
                                            d0,
                                            dist@,
                                            q0,
                                            walks,
                                            u,
                                            dir as int,
                                            v,
                                            nd,
                                        );
                                        lemma_relabelled(d0, dist@, n, v, nd);
                                        walks = walks.insert(v, walks[u].push(v));
                                    }
                                } else {
                                    proof {
                                        lemma_keep(
                                            costs@,
                                            n,
                                            s,
                                            dist@,
                                            queue@,
                                            walks,
                                            u,
                                            dir as int,
                                        );
                                    }
                                }
                            },
                            None => {
                                proof {
                                    lemma_keep(costs@, n, s, dist@, queue@, walks, u, dir as int);
                                }
                            },
                        }
                        dir += 1;
                    }
                    proof {
                        lemma_served(costs@, n, s, dist@, queue@, walks, u);
                    }
                }
            },
        }
        proof {
            lemma_reach_count(dist@, n);
        }
    }
    dist
}

/// A label that no cheaper walk can beat is the distance of its cell.
proof fn lemma_final(
    costs: Seq<Vec<i64>>,
    n: usize,
    s: Cell,
    dist: Seq<Vec<i64>>,
    bound: int,
    c: Cell,
)
    requires
        settled(costs, n, s, dist, bound),
        on_grid(c, n),
        at(dist, c) < UNREACHED,
        at(dist, c) <= bound,
    ensures
        is_distance(table(costs, n), n, s, c, at(dist, c)),
        distance(table(costs, n), n, s, c) == at(dist, c),
{
    assert(reach_at(table(costs, n), n, s, c, at(dist, c)));
    assert forall|w: Seq<Cell>| joins(w, s, c, n) implies at(dist, c) <= walk_cost(table(costs, n), w) by {
        if walk_cost(table(costs, n), w) < bound {
            assert(at(dist, w.last()) <= walk_cost(table(costs, n), w));
        }
    }
    lemma_distance_unique(table(costs, n), n, s, c, at(dist, c));
}

/// Whether the label of the neighbour of `c` in direction `dir` is the label
/// of `c` less the cost of entering `c`.
spec fn label_fits(costs: Seq<Vec<i64>>, n: usize, dist: Seq<Vec<i64>>, c: Cell, dir: int) -> bool {
    match neighbor_spec(c, dir, n) {
        Some(q) => at(dist, q) == at(dist, c) - at(costs, c),
        None => false,
    }
}

/// At a cell with a final label, the labels tell from which neighbours a
/// shortest walk can enter.
proof fn lemma_comes_from(
    costs: Seq<Vec<i64>>,
    n: usize,
    s: Cell,
    dist: Seq<Vec<i64>>,
    bound: int,
    c: Cell,
    dir: int,
)
    requires
        valid_costs(costs, n),
        on_grid(s, n),
        settled(costs, n, s, dist, bound),
        on_grid(c, n),
        at(dist, c) < UNREACHED,
        at(dist, c) <= bound,
        0 <= dir < 4,
    ensures
        comes_from(table(costs, n), n, s, c, dir) <==> label_fits(costs, n, dist, c, dir),
{
    lemma_final(costs, n, s, dist, bound, c);
    assert(1 <= costs[c.0 as int]@[c.1 as int] <= COST_LIMIT);
    match neighbor_spec(c, dir, n) {
        Some(q) => {
            assert(on_grid(q, n) && adjacent(q, c));
            let want = at(dist, c) - at(costs, c);
            if label_fits(costs, n, dist, c, dir) {
                assert(0 <= at(dist, q));
                assert(reach_at(table(costs, n), n, s, q, at(dist, q)));
            }
            if comes_from(table(costs, n), n, s, c, dir) {
                let w = choose|w: Seq<Cell>| joins(w, s, q, n) && walk_cost(table(costs, n), w) == want;
                assert(at(dist, w.last()) <= walk_cost(table(costs, n), w));
                assert(reach_at(table(costs, n), n, s, q, at(dist, q)));
                let v = choose|v: Seq<Cell>|
                    joins(v, s, q, n) && walk_cost(table(costs, n), v) == at(dist, q);
                lemma_walk_push(table(costs, n), n, v, c);
                assert(joins(v.push(c), s, c, n));
            }
        },
        None => {},
    }
}

/// A cell other than the source whose label is final has a neighbour whose
/// label fits.
proof fn lemma_some_fits(
    costs: Seq<Vec<i64>>,
    n: usize,
    s: Cell,
    dist: Seq<Vec<i64>>,
    bound: int,
    c: Cell,
) -> (dir: int)
    requires
        valid_costs(costs, n),
        on_grid(s, n),
        settled(costs, n, s, dist, bound),
        on_grid(c, n),
        c != s,
        at(dist, c) < UNREACHED,
        at(dist, c) <= bound,
    ensures
        0 <= dir < 4,
        label_fits(costs, n, dist, c, dir),
{
    lemma_final(costs, n, s, dist, bound, c);
    let dir = choose|dir: int| has_parent(costs, n, dist, c, dir);
    let p = neighbor_spec(c, dir, n)->0;
    assert(on_grid(p, n) && adjacent(p, c));
    assert(reach_at(table(costs, n), n, s, p, at(dist, p)));
    let v = choose|v: Seq<Cell>| joins(v, s, p, n) && walk_cost(table(costs, n), v) == at(dist, p);
    lemma_walk_push(table(costs, n), n, v, c);
    assert(joins(v.push(c), s, c, n));
    dir
}

/// The cell before `c` on the reported shortest walk from `s`.
fn back(
    costs: &Vec<Vec<i64>>,
    n: usize,
    dist: &Vec<Vec<i64>>,
    s: Cell,
    c: Cell,
    Ghost(bound): Ghost<int>,
) -> (q: Cell)
    requires
        valid_costs(costs@, n),
        on_grid(s, n),
        settled(costs@, n, s, dist@, bound),
        on_grid(c, n),
        c != s,
        at(dist@, c) < UNREACHED,
        at(dist@, c) <= bound,
    ensures
        step_back(table(costs@, n), n, s, c) == Some(q),
        on_grid(q, n),
        at(dist@, q) == at(dist@, c) - at(costs@, c),
        at(dist@, q) < at(dist@, c),
{
    assert(1 <= costs@[c.0 as int]@[c.1 as int] <= COST_LIMIT);
    assert(0 <= at(dist@, c));
    let want: i64 = dist[c.0][c.1] - costs[c.0][c.1];
    let mut dir: usize = 0;
    while dir < 4
        invariant
            valid_costs(costs@, n),
            on_grid(s, n),
            settled(costs@, n, s, dist@, bound),
            on_grid(c, n),
            c != s,
            at(dist@, c) < UNREACHED,
            at(dist@, c) <= bound,
            want == at(dist@, c) - at(costs@, c),
            1 <= at(costs@, c),
            dir <= 4,
            forall|d: int| 0 <= d < dir ==> !label_fits(costs@, n, dist@, c, d),
            forall|d: int| 0 <= d < dir ==> !comes_from(table(costs@, n), n, s, c, d),
        decreases 4 - dir,
    {
        proof {
            lemma_comes_from(costs@, n, s, dist@, bound, c, dir as int);
        }
        match neighbor(c, dir, n) {
            Some(q) => {
                if dist[q.0][q.1] == want {
                    return q;
                }
            },
            None => {},
        }
        dir += 1;
    }
    proof {
        let d = lemma_some_fits(costs@, n, s, dist@, bound, c);
        assert(false);
    }
    c
}

/// Whether each cell of `path` but the last is followed by the cell before
/// it on the reported shortest walk from `s`.
spec fn chained(cost: spec_fn(Cell) -> int, n: usize, s: Cell, path: Seq<Cell>) -> bool {
    forall|i: int|
        0 <= i < path.len() - 1 ==> path[i] != s && step_back(cost, n, s, #[trigger] path[i])
            == Some(path[i + 1])
}

proof fn lemma_trail_push(cost: spec_fn(Cell) -> int, n: usize, s: Cell, path: Seq<Cell>, next: Cell)
    requires
        path.len() >= 1,
        all_on_grid(path, n),
        on_grid(next, n),
        chained(cost, n, s, path),
        path.last() != s,
        step_back(cost, n, s, path.last()) == Some(next),
    ensures
        all_on_grid(path.push(next), n),
        chained(cost, n, s, path.push(next)),
        trail_cost(cost, path.push(next)) == trail_cost(cost, path) + cost(path.last()),
        path.push(next).first() == path.first(),
        path.push(next).last() == next,
{
    let longer = path.push(next);
    assert(longer.drop_last() =~= path);
    assert(longer[longer.len() - 2] == path.last());
    assert forall|i: int| 0 <= i < longer.len() - 1 implies longer[i] != s && step_back(
        cost,
        n,
        s,
        #[trigger] longer[i],
    ) == Some(longer[i + 1]) by {
        if i < path.len() - 1 {
            assert(path[i] == longer[i]);
            assert(path[i + 1] == longer[i + 1]);
        }
    }
}

/// The reported shortest walk from `s` to `t`, listed from `t` back to `s`.
pub(crate) fn trace(costs: &Vec<Vec<i64>>, n: usize, dist: &Vec<Vec<i64>>, s: Cell, t: Cell) -> (path:
    Vec<Cell>)
    requires
        valid_costs(costs@, n),
        on_grid(s, n),
        on_grid(t, n),
        settled(costs@, n, s, dist@, at(dist@, t)),
        at(dist@, t) < UNREACHED,
    ensures
        is_trail(table(costs@, n), n, s, t, path@),
        trail_cost(table(costs@, n), path@) == at(dist@, t),
        is_distance(table(costs@, n), n, s, t, at(dist@, t)),
{
    let ghost bound = at(dist@, t);
    proof {
        lemma_final(costs@, n, s, dist@, bound, t);
    }
    let mut path: Vec<Cell> = Vec::new();
    path.push(t);
    let mut cur: Cell = t;
    while !(cur.0 == s.0 && cur.1 == s.1)
        invariant
            valid_costs(costs@, n),
            on_grid(s, n),
            settled(costs@, n, s, dist@, bound),
            bound == at(dist@, t),
            on_grid(cur, n),
            0 <= at(dist@, cur) <= bound,
            at(dist@, cur) < UNREACHED,
            path@.len() >= 1,
            path@.first() == t,
            path@.last() == cur,
            all_on_grid(path@, n),
            chained(table(costs@, n), n, s, path@),
            trail_cost(table(costs@, n), path@) + at(dist@, cur) == bound,
        decreases at(dist@, cur),
    {
        let next: Cell = back(costs, n, dist, s, cur, Ghost(bound));
        let ghost before = path@;
        path.push(next);
        proof {
            lemma_trail_push(table(costs@, n), n, s, before, next);
            assert(table(costs@, n)(cur) == at(costs@, cur));
        }
        cur = next;
    }
    path
}

/// The least cost of a walk from `s` to `t` over `costs`, and the reported
/// shortest walk, listed from `t` back to `s`. The search stops as soon as
/// the target is served.
pub fn shortest_path(costs: &Vec<Vec<i64>>, n: usize, s: Cell, t: Cell) -> (r: (i64, Vec<Cell>))
    requires
        valid_costs(costs@, n),
        on_grid(s, n),
        on_grid(t, n),
    ensures
        is_distance(table(costs@, n), n, s, t, r.0 as int),
        is_trail(table(costs@, n), n, s, t, r.1@),
        trail_cost(table(costs@, n), r.1@) == r.0,
{
    let dist = search(costs, n, s, Some(t));
    let path = trace(costs, n, &dist, s, t);
    (dist[t.0][t.1], path)
}

/// For every target, the least cost of a walk from `s` to it over `costs`
/// and the reported shortest walk, listed from the target back to `s`: one
/// search serves all targets.
pub fn shortest_paths(costs: &Vec<Vec<i64>>, n: usize, s: Cell, targets: &Vec<Cell>) -> (r: Vec<
    (i64, Vec<Cell>),
>)
    requires
        valid_costs(costs@, n),
        on_grid(s, n),
        all_on_grid(targets@, n),
    ensures
        r@.len() == targets@.len(),
        forall|i: int|
            0 <= i < targets@.len() ==> {
                &&& is_distance(table(costs@, n), n, s, targets@[i], (#[trigger] r@[i]).0 as int)
                &&& is_trail(table(costs@, n), n, s, targets@[i], r@[i].1@)
                &&& trail_cost(table(costs@, n), r@[i].1@) == r@[i].0
            },
{
    let dist = search(costs, n, s, None);
    let mut out: Vec<(i64, Vec<Cell>)> = Vec::new();
    let mut i: usize = 0;
    while i < targets.len()
        invariant
            valid_costs(costs@, n),
            on_grid(s, n),
            all_on_grid(targets@, n),
            searched(costs@, n, s, None, dist@),
            i <= targets@.len(),
            out@.len() == i,
            forall|j: int|
                0 <= j < i ==> {
                    &&& is_distance(table(costs@, n), n, s, targets@[j], (#[trigger] out@[j]).0 as int)
                    &&& is_trail(table(costs@, n), n, s, targets@[j], out@[j].1@)
                    &&& trail_cost(table(costs@, n), out@[j].1@) == out@[j].0
                },
        decreases targets@.len() - i,
    {
        let t: Cell = targets[i];
        proof {
            assert(on_grid(targets@[i as int], n));
            assert(at(dist@, t) < UNREACHED);
            assert forall|w: Seq<Cell>|
                is_walk(w, n) && w.first() == s && #[trigger] walk_cost(table(costs@, n), w) < at(
                    dist@,
                    t,
                ) implies at(dist@, w.last()) <= walk_cost(table(costs@, n), w) by {}
        }
        let path = trace(costs, n, &dist, s, t);
        out.push((dist[t.0][t.1], path));
        i += 1;
    }
    out
}

} // verus!
