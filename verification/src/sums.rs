//! Sums of integer sequences, used as measures in the proofs.

use vstd::prelude::*;

verus! {

/// The sum of the entries of `s`.
pub open spec fn sum(s: Seq<int>) -> int
    decreases s.len(),
{
    if s.len() == 0 {
        0
    } else {
        sum(s.drop_last()) + s.last()
    }
}

/// Replacing one entry changes the sum by the difference of the entries.
pub proof fn lemma_sum_update(s: Seq<int>, i: int, v: int)
    requires
        0 <= i < s.len(),
    ensures
        sum(s.update(i, v)) == sum(s) - s[i] + v,
    decreases s.len(),
{
    let t = s.update(i, v);
    if i == s.len() - 1 {
        assert(t.drop_last() =~= s.drop_last());
    } else {
        assert(t.drop_last() =~= s.drop_last().update(i, v));
        lemma_sum_update(s.drop_last(), i, v);
    }
}

/// A sum of entries that are all at least `lo` is at least `lo` times the
/// length, and likewise from above.
pub proof fn lemma_sum_bounds(s: Seq<int>, lo: int, hi: int)
    requires
        forall|i: int| 0 <= i < s.len() ==> lo <= #[trigger] s[i] <= hi,
    ensures
        lo * s.len() <= sum(s) <= hi * s.len(),
    decreases s.len(),
{
    if s.len() > 0 {
        lemma_sum_bounds(s.drop_last(), lo, hi);
        assert(lo * s.len() == lo * (s.len() - 1) + lo) by (nonlinear_arith);
        assert(hi * s.len() == hi * (s.len() - 1) + hi) by (nonlinear_arith);
    }
}

/// Two different entries of a sequence without negative entries are together
/// no more than its sum.
pub proof fn lemma_sum_two(s: Seq<int>, i: int, j: int)
    requires
        0 <= i < s.len(),
        0 <= j < s.len(),
        i != j,
        forall|k: int| 0 <= k < s.len() ==> 0 <= #[trigger] s[k],
    ensures
        s[i] + s[j] <= sum(s),
{
    let t = s.update(i, 0).update(j, 0);
    lemma_sum_update(s, i, 0);
    lemma_sum_update(s.update(i, 0), j, 0);
    assert(forall|k: int| 0 <= k < t.len() ==> 0 <= #[trigger] t[k]);
    lemma_sum_nonneg(t);
}

/// A sequence without negative entries has no negative sum.
pub proof fn lemma_sum_nonneg(s: Seq<int>)
    requires
        forall|k: int| 0 <= k < s.len() ==> 0 <= #[trigger] s[k],
    ensures
        0 <= sum(s),
    decreases s.len(),
{
    if s.len() > 0 {
        lemma_sum_nonneg(s.drop_last());
    }
}

/// Sequences that agree entry by entry have the same sum.
pub proof fn lemma_sum_equal(s: Seq<int>, t: Seq<int>)
    requires
        s.len() == t.len(),
        forall|k: int| 0 <= k < s.len() ==> s[k] == t[k],
    ensures
        sum(s) == sum(t),
{
    assert(s =~= t);
}

/// The weights of the entries of `g`, row by row, added up.
pub open spec fn grid_total<T>(f: spec_fn(T) -> int, g: Seq<Vec<T>>) -> int {
    sum(Seq::new(g.len(), |y: int| row_total(f, g[y]@)))
}

/// The weights of the entries of `row`, added up.
pub open spec fn row_total<T>(f: spec_fn(T) -> int, row: Seq<T>) -> int {
    sum(Seq::new(row.len(), |x: int| f(row[x])))
}

/// Changing one entry of a grid changes the total by the difference of the
/// two weights.
pub proof fn lemma_grid_total_set<T>(
    f: spec_fn(T) -> int,
    g: Seq<Vec<T>>,
    h: Seq<Vec<T>>,
    y: int,
    x: int,
)
    requires
        0 <= y < g.len(),
        0 <= x < g[y]@.len(),
        h.len() == g.len(),
        forall|j: int| 0 <= j < g.len() && j != y ==> (#[trigger] h[j])@ == g[j]@,
        h[y]@ == g[y]@.update(x, h[y]@[x]),
    ensures
        grid_total(f, h) == grid_total(f, g) - f(g[y]@[x]) + f(h[y]@[x]),
{
    let rows_g = Seq::new(g.len(), |j: int| row_total(f, g[j]@));
    let rows_h = Seq::new(h.len(), |j: int| row_total(f, h[j]@));
    let in_g = Seq::new(g[y]@.len(), |i: int| f(g[y]@[i]));
    let in_h = Seq::new(h[y]@.len(), |i: int| f(h[y]@[i]));
    assert(in_h =~= in_g.update(x, f(h[y]@[x])));
    lemma_sum_update(in_g, x, f(h[y]@[x]));
    assert(rows_h =~= rows_g.update(y, sum(in_h)));
    lemma_sum_update(rows_g, y, sum(in_h));
}

/// A grid of `n` rows of `n` entries whose weights all lie between `lo` and
/// `hi` has a total between `lo` and `hi` times the number of entries.
pub proof fn lemma_grid_total_bounds<T>(
    f: spec_fn(T) -> int,
    g: Seq<Vec<T>>,
    n: int,
    lo: int,
    hi: int,
)
    requires
        g.len() == n,
        forall|y: int| 0 <= y < n ==> (#[trigger] g[y])@.len() == n,
        forall|y: int, x: int| 0 <= y < n && 0 <= x < n ==> lo <= f(#[trigger] g[y]@[x]) <= hi,
    ensures
        lo * n * n <= grid_total(f, g) <= hi * n * n,
{
    let rows = Seq::new(g.len(), |j: int| row_total(f, g[j]@));
    assert forall|y: int| 0 <= y < rows.len() implies lo * n <= #[trigger] rows[y] <= hi * n by {
        let inner = Seq::new(g[y]@.len(), |i: int| f(g[y]@[i]));
        assert forall|i: int| 0 <= i < inner.len() implies lo <= #[trigger] inner[i] <= hi by {
            assert(lo <= f(g[y]@[i]) <= hi);
        }
        lemma_sum_bounds(inner, lo, hi);
    }
    lemma_sum_bounds(rows, lo * n, hi * n);
}

} // verus!
