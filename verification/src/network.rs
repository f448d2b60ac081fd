//! Networks over the landmarks: a set of landmarks and a forest of legs
//! between them that brings every house to a source.

use crate::field::{Field, Leg};
use crate::union_find::{Partition, UnionFind};
use vstd::prelude::*;

verus! {

/// An edge between two landmarks, by their ids.
pub type Edge = (usize, usize);

/// A pair of landmarks with the distance between them.
pub type Span = (i64, usize, usize);

/// A network: the landmarks it may use and the legs it is made of.
pub struct State {
    /// The ids of the landmarks in use; every source and house is among them.
    pub keys: Vec<usize>,
    /// The legs, as pairs of landmark ids.
    pub edges: Vec<Edge>,
    /// The summed distance of the legs, once it has been computed.
    pub score: Option<i128>,
}

/// Whether the partition made by `edges` over `n` landmarks brings every
/// house together with some source.
pub open spec fn supplied(edges: Seq<Edge>, sources: Seq<usize>, houses: Seq<usize>, n: nat) -> bool {
    forall|i: int|
        0 <= i < houses.len() ==> has_source(
            Partition::singletons(n).merge_all(edges),
            sources,
            #[trigger] houses[i] as int,
        )
}

/// Whether the class of `a` holds a source.
pub open spec fn has_source(part: Partition, sources: Seq<usize>, a: int) -> bool {
    exists|j: int| 0 <= j < sources.len() && part.same(#[trigger] sources[j] as int, a)
}

/// Whether every id of `ids` is below `n`.
pub open spec fn ids_below(ids: Seq<usize>, n: nat) -> bool {
    forall|i: int| 0 <= i < ids.len() ==> #[trigger] ids[i] < n
}

/// Whether the builder takes the pair `(s, t)`: the two are not yet in one
/// class, and not both of their classes hold a source already.
pub open spec fn takes(part: Partition, sources: Seq<usize>, s: int, t: int) -> bool {
    !part.same(s, t) && !(has_source(part, sources, s) && has_source(part, sources, t))
}

/// The forest that the builder makes of the pairs `order`, taken in order.
pub open spec fn forest(order: Seq<Span>, sources: Seq<usize>, n: nat) -> Seq<Edge>
    decreases order.len(),
{
    if order.len() == 0 {
        Seq::empty()
    } else {
        let before = forest(order.drop_last(), sources, n);
        let part = Partition::singletons(n).merge_all(before);
        let last = order.last();
        if takes(part, sources, last.1 as int, last.2 as int) {
            before.push((last.1, last.2))
        } else {
            before
        }
    }
}

/// Whether `after` is `before` sorted by distance, pairs of equal distance
/// in the order they had: `place[i]` is where the pair at `i` of `after`
/// stood in `before`, and `back` is the way back.
pub open spec fn sorted_by(
    before: Seq<Span>,
    after: Seq<Span>,
    place: Seq<int>,
    back: Seq<int>,
) -> bool {
    &&& after.len() == before.len()
    &&& place.len() == before.len()
    &&& back.len() == before.len()
    &&& forall|i: int|
        0 <= i < before.len() ==> 0 <= #[trigger] place[i] < before.len() && back[place[i]] == i
            && after[i] == before[place[i]]
    &&& forall|i: int|
        0 <= i < before.len() ==> 0 <= #[trigger] back[i] < before.len() && place[back[i]] == i
    &&& forall|i: int, j: int|
        0 <= i < j < before.len() ==> after[i].0 < after[j].0 || (after[i].0 == after[j].0
            && #[trigger] place[i] < #[trigger] place[j])
}

/// Whether `after` is `before` sorted by distance, pairs of equal distance
/// in the order they had.
pub open spec fn is_stable_sort(before: Seq<Span>, after: Seq<Span>) -> bool {
    exists|place: Seq<int>, back: Seq<int>| sorted_by(before, after, place, back)
}

/// The summed distance of the legs `edges` in the table `chart`.
pub open spec fn edge_total(chart: Seq<Vec<Leg>>, edges: Seq<Edge>) -> int
    decreases edges.len(),
{
    if edges.len() == 0 {
        0
    } else {
        edge_total(chart, edges.drop_last()) + chart[edges.last().0 as int]@[edges.last().1 as int].0
    }
}

/// `sort_by_key` of the slices of the standard library, with the distance
/// as the key: afterwards the pairs are the same pairs in the order of their
/// distances, and pairs of equal distance are in the order they had, since
/// that sort is stable.
#[verifier::external_body]
fn sort_spans(v: &mut Vec<Span>)
    ensures
        is_stable_sort(old(v)@, final(v)@),
{
    v.sort_by_key(|e| e.0);
}

fn copy_ids(v: &Vec<usize>) -> (r: Vec<usize>)
    ensures
        r@ == v@,
{
    let mut r: Vec<usize> = Vec::new();
    let mut i: usize = 0;
    while i < v.len()
        invariant
            i <= v@.len(),
            r@ == v@.subrange(0, i as int),
        decreases v@.len() - i,
    {
        r.push(v[i]);
        assert(r@ =~= v@.subrange(0, i + 1));
        i += 1;
    }
    assert(r@ =~= v@);
    r
}

fn copy_edges(v: &Vec<Edge>) -> (r: Vec<Edge>)
    ensures
        r@ == v@,
{
    let mut r: Vec<Edge> = Vec::new();
    let mut i: usize = 0;
    while i < v.len()
        invariant
            i <= v@.len(),
            r@ == v@.subrange(0, i as int),
        decreases v@.len() - i,
    {
        r.push(v[i]);
        assert(r@ =~= v@.subrange(0, i + 1));
        i += 1;
    }
    assert(r@ =~= v@);
    r
}

impl State {
    /// Whether keys and legs name landmarks below `n`.
    pub open spec fn wf(&self, n: nat) -> bool {
        ids_below(self.keys@, n) && Partition::edges_within(self.edges@, n)
    }

    /// The network of the landmarks `keys` and the legs `edges`, not yet
    /// scored.
    pub fn new(keys: &Vec<usize>, edges: &Vec<Edge>) -> (s: Self)
        ensures
            s.keys@ == keys@,
            s.edges@ == edges@,
            s.score is None,
    {
        State { keys: copy_ids(keys), edges: copy_edges(edges), score: None }
    }

    /// A copy of this network that is not yet scored.
    pub fn clone(&self) -> (s: Self)
        ensures
            s.keys@ == self.keys@,
            s.edges@ == self.edges@,
            s.score is None,
    {
        State { keys: copy_ids(&self.keys), edges: copy_edges(&self.edges), score: None }
    }

    /// Whether the legs of this network bring every house together with
    /// some source, found out afresh from the legs alone.
    pub fn check(&self, sources: &Vec<usize>, houses: &Vec<usize>, n: usize) -> (ok: bool)
        requires
            Partition::edges_within(self.edges@, n as nat),
            ids_below(sources@, n as nat),
            ids_below(houses@, n as nat),
        ensures
            ok == supplied(self.edges@, sources@, houses@, n as nat),
    {
        let mut uf = UnionFind::new(n);
        proof {
            uf.lemma_view_wf();
        }
        let mut i: usize = 0;
        while i < self.edges.len()
            invariant
                Partition::edges_within(self.edges@, n as nat),
                i <= self.edges@.len(),
                uf.wf(),
                uf@.wf(),
                uf@.len() == n,
                uf@ == Partition::singletons(n as nat).merge_all(self.edges@.subrange(0, i as int)),
            decreases self.edges@.len() - i,
        {
            let e: Edge = self.edges[i];
            let ghost before = uf@;
            uf.merge(e.0, e.1);
            proof {
                before.lemma_merge(e.0 as int, e.1 as int);
                assert(self.edges@.subrange(0, i + 1).drop_last() =~= self.edges@.subrange(
                    0,
                    i as int,
                ));
            }
            i += 1;
        }
        assert(self.edges@.subrange(0, i as int) =~= self.edges@);
        let mut h: usize = 0;
        while h < houses.len()
            invariant
                ids_below(sources@, n as nat),
                ids_below(houses@, n as nat),
                h <= houses@.len(),
                uf.wf(),
                uf@.len() == n,
                uf@ == Partition::singletons(n as nat).merge_all(self.edges@),
                forall|i: int| 0 <= i < h ==> has_source(uf@, sources@, #[trigger] houses@[i] as int),
            decreases houses@.len() - h,
        {
            let found: bool = reaches_source(&mut uf, sources, houses[h]);
            if !found {
                return false;
            }
            h += 1;
        }
        true
    }
}

/// Whether the class of `a` holds one of `sources`.
pub fn reaches_source(uf: &mut UnionFind, sources: &Vec<usize>, a: usize) -> (found: bool)
    requires
        old(uf).wf(),
        a < old(uf)@.len(),
        ids_below(sources@, old(uf)@.len()),
    ensures
        final(uf).wf(),
        final(uf)@ == old(uf)@,
        found == has_source(old(uf)@, sources@, a as int),
{
    let mut j: usize = 0;
    while j < sources.len()
        invariant
            uf.wf(),
            uf@ == old(uf)@,
            a < uf@.len(),
            ids_below(sources@, uf@.len()),
            j <= sources@.len(),
            forall|i: int| 0 <= i < j ==> !uf@.same(#[trigger] sources@[i] as int, a as int),
        decreases sources@.len() - j,
    {
        if uf.same(sources[j], a) {
            return true;
        }
        j += 1;
    }
    false
}

/// Whether the pair `e` needs no leg any more: its two landmarks are in one
/// class, or both of their classes hold a source.
pub open spec fn settled_pair(part: Partition, sources: Seq<usize>, e: Span) -> bool {
    part.same(e.1 as int, e.2 as int) || (has_source(part, sources, e.1 as int) && has_source(
        part,
        sources,
        e.2 as int,
    ))
}

proof fn lemma_settled_stays(
    part: Partition,
    sources: Seq<usize>,
    e: Span,
    a: int,
    b: int,
)
    requires
        part.wf(),
        0 <= a < part.len(),
        0 <= b < part.len(),
        e.1 < part.len(),
        e.2 < part.len(),
        ids_below(sources, part.len()),
        settled_pair(part, sources, e),
    ensures
        settled_pair(part.merge(a, b), sources, e),
{
    let next = part.merge(a, b);
    if part.same(e.1 as int, e.2 as int) {
        part.lemma_merge_keeps(a, b, e.1 as int, e.2 as int);
    } else {
        let j1 = choose|j: int| 0 <= j < sources.len() && part.same(#[trigger] sources[j] as int, e.1 as int);
        let j2 = choose|j: int| 0 <= j < sources.len() && part.same(#[trigger] sources[j] as int, e.2 as int);
        part.lemma_merge_keeps(a, b, sources[j1] as int, e.1 as int);
        part.lemma_merge_keeps(a, b, sources[j2] as int, e.2 as int);
    }
}

/// Whether `chart` has a leg for every pair of `n` landmarks.
pub open spec fn covers(chart: Seq<Vec<Leg>>, n: nat) -> bool {
    &&& chart.len() == n
    &&& forall|i: int| 0 <= i < n ==> (#[trigger] chart[i])@.len() == n
}

/// The pair of the landmarks `s` and `t` with the distance that `chart`
/// gives for them.
pub open spec fn span(chart: Seq<Vec<Leg>>, s: usize, t: usize) -> Span {
    (chart[s as int]@[t as int].0, s, t)
}

/// The pairs of the key at `i` with every key, in the order of the keys.
pub open spec fn row_spans(chart: Seq<Vec<Leg>>, keys: Seq<usize>, i: int) -> Seq<Span> {
    Seq::new(keys.len(), |j: int| span(chart, keys[i], keys[j]))
}

/// The pairs of the first `i` keys with every key.
pub open spec fn spans_upto(chart: Seq<Vec<Leg>>, keys: Seq<usize>, i: int) -> Seq<Span>
    decreases i,
{
    if i <= 0 {
        Seq::empty()
    } else {
        spans_upto(chart, keys, i - 1) + row_spans(chart, keys, i - 1)
    }
}

/// All ordered pairs of keys, in the order in which they are found.
pub open spec fn spans(chart: Seq<Vec<Leg>>, keys: Seq<usize>) -> Seq<Span> {
    spans_upto(chart, keys, keys.len() as int)
}

/// Whether `edges` is the forest that the builder makes of `keys` over the
/// distances of `chart`: all ordered pairs of keys, sorted by distance with
/// pairs of equal distance in the order in which they were found, then taken
/// one by one unless the two landmarks are connected already or each is
/// connected to a source.
pub open spec fn made_of(
    chart: Seq<Vec<Leg>>,
    keys: Seq<usize>,
    sources: Seq<usize>,
    n: nat,
    edges: Seq<Edge>,
) -> bool {
    exists|order: Seq<Span>| #[trigger]
        is_stable_sort(spans(chart, keys), order) && edges == forest(order, sources, n)
}

proof fn lemma_span_present(chart: Seq<Vec<Leg>>, keys: Seq<usize>, k: int, i: int, j: int)
    requires
        0 <= i < k <= keys.len(),
        0 <= j < keys.len(),
    ensures
        spans_upto(chart, keys, i).len() + j < spans_upto(chart, keys, k).len(),
        spans_upto(chart, keys, k)[spans_upto(chart, keys, i).len() + j] == span(
            chart,
            keys[i],
            keys[j],
        ),
    decreases k,
{
    if i < k - 1 {
        lemma_span_present(chart, keys, k - 1, i, j);
    }
}

proof fn lemma_spans_below(chart: Seq<Vec<Leg>>, keys: Seq<usize>, k: int, n: nat)
    requires
        0 <= k <= keys.len(),
        ids_below(keys, n),
    ensures
        forall|i: int|
            0 <= i < spans_upto(chart, keys, k).len() ==> (#[trigger] spans_upto(
                chart,
                keys,
                k,
            )[i]).1 < n && spans_upto(chart, keys, k)[i].2 < n,
    decreases k,
{
    if k > 0 {
        lemma_spans_below(chart, keys, k - 1, n);
        let before = spans_upto(chart, keys, k - 1);
        let row = row_spans(chart, keys, k - 1);
        assert forall|i: int| 0 <= i < spans_upto(chart, keys, k).len() implies (
        #[trigger] spans_upto(chart, keys, k)[i]).1 < n && spans_upto(chart, keys, k)[i].2
            < n by {
            if i < before.len() {
                assert(spans_upto(chart, keys, k)[i] == before[i]);
            } else {
                assert(spans_upto(chart, keys, k)[i] == row[i - before.len()]);
            }
        }
    }
}

/// The forest over the landmarks `keys` with the distances of `chart`: the
/// pairs of keys are taken from the nearest on, skipping a pair whose
/// landmarks are connected already or are each connected to a source. With
/// every source among the keys, every key is brought to a source.
pub fn build_network(
    chart: &Vec<Vec<Leg>>,
    keys: &Vec<usize>,
    sources: &Vec<usize>,
    total: usize,
) -> (edges: Vec<Edge>)
    requires
        covers(chart@, total as nat),
        ids_below(keys@, total as nat),
        ids_below(sources@, total as nat),
    ensures
        made_of(chart@, keys@, sources@, total as nat, edges@),
        Partition::edges_within(edges@, total as nat),
        sources@.len() > 0 && (forall|j: int|
            0 <= j < sources@.len() ==> keys@.contains(#[trigger] sources@[j])) ==> forall|
            i: int,
        |
            0 <= i < keys@.len() ==> has_source(
                Partition::singletons(total as nat).merge_all(edges@),
                sources@,
                #[trigger] keys@[i] as int,
            ),
{
    let mut found: Vec<Span> = Vec::new();
    let mut i: usize = 0;
    while i < keys.len()
        invariant
            covers(chart@, total as nat),
            ids_below(keys@, total as nat),
            i <= keys@.len(),
            found@ == spans_upto(chart@, keys@, i as int),
        decreases keys@.len() - i,
    {
        let s: usize = keys[i];
        let ghost before = found@;
        let mut j: usize = 0;
        while j < keys.len()
            invariant
                covers(chart@, total as nat),
                ids_below(keys@, total as nat),
                i < keys@.len(),
                s == keys@[i as int],
                j <= keys@.len(),
                found@ == before + row_spans(chart@, keys@, i as int).subrange(0, j as int),
            decreases keys@.len() - j,
        {
            let t: usize = keys[j];
            found.push((chart[s][t].0, s, t));
            assert(found@ =~= before + row_spans(chart@, keys@, i as int).subrange(0, j + 1));
            j += 1;
        }
        assert(row_spans(chart@, keys@, i as int).subrange(0, j as int) =~= row_spans(
            chart@,
            keys@,
            i as int,
        ));
        i += 1;
    }
    let ghost unsorted = found@;
    let mut order: Vec<Span> = found;
    sort_spans(&mut order);
    let ghost (place, back) = choose|place: Seq<int>, back: Seq<int>|
        sorted_by(unsorted, order@, place, back);
    proof {
        lemma_spans_below(chart@, keys@, keys@.len() as int, total as nat);
        assert forall|i: int| 0 <= i < order@.len() implies (#[trigger] order@[i]).1 < total
            && order@[i].2 < total by {
            assert(order@[i] == unsorted[place[i]]);
        }
    }
    let mut uf = UnionFind::new(total);
    proof {
        uf.lemma_view_wf();
    }
    let mut edges: Vec<Edge> = Vec::new();
    let mut k: usize = 0;
    while k < order.len()
        invariant
            ids_below(sources@, total as nat),
            k <= order@.len(),
            forall|i: int|
                0 <= i < order@.len() ==> (#[trigger] order@[i]).1 < total && order@[i].2 < total,
            uf.wf(),
            uf@.wf(),
            uf@.len() == total,
            uf@ == Partition::singletons(total as nat).merge_all(edges@),
            Partition::edges_within(edges@, total as nat),
            edges@ == forest(order@.subrange(0, k as int), sources@, total as nat),
            forall|i: int| 0 <= i < k ==> settled_pair(uf@, sources@, #[trigger] order@[i]),
        decreases order@.len() - k,
    {
        let e: Span = order[k];
        let ghost part = uf@;
        let ghost taken = edges@;
        proof {
            assert(order@.subrange(0, k + 1).drop_last() =~= order@.subrange(0, k as int));
            assert(order@.subrange(0, k + 1).last() == e);
        }
        let mut take: bool = false;
        if !uf.same(e.1, e.2) {
            let s_ok: bool = reaches_source(&mut uf, sources, e.1);
            let t_ok: bool = reaches_source(&mut uf, sources, e.2);
            take = !(s_ok && t_ok);
        }
        assert(take == takes(part, sources@, e.1 as int, e.2 as int));
        if take {
            uf.merge(e.1, e.2);
            edges.push((e.1, e.2));
            proof {
                part.lemma_merge(e.1 as int, e.2 as int);
                assert(edges@.drop_last() =~= taken);
                assert forall|i: int| 0 <= i < k + 1 implies settled_pair(
                    uf@,
                    sources@,
                    #[trigger] order@[i],
                ) by {
                    if i < k {
                        lemma_settled_stays(part, sources@, order@[i], e.1 as int, e.2 as int);
                    }
                }
            }
        }
        k += 1;
    }
    proof {
        assert(order@.subrange(0, k as int) =~= order@);
        assert(is_stable_sort(spans(chart@, keys@), order@));
        if sources@.len() > 0 && (forall|j: int|
            0 <= j < sources@.len() ==> keys@.contains(#[trigger] sources@[j])) {
            let src = sources@[0];
            assert(keys@.contains(src));
            let kj = choose|kj: int| 0 <= kj < keys@.len() && keys@[kj] == src;
            assert forall|ki: int| 0 <= ki < keys@.len() implies has_source(
                uf@,
                sources@,
                #[trigger] keys@[ki] as int,
            ) by {
                let h = keys@[ki];
                lemma_span_present(chart@, keys@, keys@.len() as int, ki, kj);
                let at = spans_upto(chart@, keys@, ki).len() + kj;
                assert(unsorted[at] == span(chart@, h, src));
                let pos = back[at];
                assert(place[pos] == at);
                assert(order@[pos] == unsorted[at]);
                assert(settled_pair(uf@, sources@, order@[pos]));
                if uf@.same(h as int, src as int) {
                    assert(uf@.same(sources@[0] as int, h as int));
                }
            }
        }
    }
    edges
}

impl Field {
    /// Whether every source and every house is among `keys`.
    pub open spec fn terminals_in(&self, keys: Seq<usize>) -> bool {
        &&& forall|i: int|
            0 <= i < self.houses_idx@.len() ==> keys.contains(#[trigger] self.houses_idx@[i])
        &&& forall|i: int|
            0 <= i < self.sources_idx@.len() ==> keys.contains(#[trigger] self.sources_idx@[i])
    }

    /// Whether `edges` is the forest that the builder makes of `keys` over
    /// the table of legs of this field.
    pub open spec fn made(&self, keys: Seq<usize>, edges: Seq<Edge>) -> bool {
        made_of(self.dist_path@, keys, self.sources_idx@, self.sampling@.len(), edges)
    }

    /// Whether `r` is the network that the builder makes of `keys`, not yet
    /// scored.
    pub open spec fn built(&self, keys: Seq<usize>, r: State) -> bool {
        &&& r.keys@ == keys
        &&& r.score is None
        &&& self.made(keys, r.edges@)
    }

    /// The network over the landmarks `keys`: the forest that takes the
    /// pairs of keys from the nearest on, skipping a pair whose landmarks are
    /// connected already or are each connected to a source. With every
    /// source and house among the keys, every house is brought to a source.
    pub fn state_generate(&self, keys: &Vec<usize>) -> (r: State)
        requires
            self.wf(),
            self.charted(),
            ids_below(keys@, self.sampling@.len()),
        ensures
            self.built(keys@, r),
            r.wf(self.sampling@.len()),
            self.terminals_in(keys@) && self.sources_idx@.len() > 0 ==> supplied(
                r.edges@,
                self.sources_idx@,
                self.houses_idx@,
                self.sampling@.len(),
            ),
    {
        let edges: Vec<Edge> = build_network(
            &self.dist_path,
            keys,
            &self.sources_idx,
            self.sampling.len(),
        );
        proof {
            if self.terminals_in(keys@) && self.sources_idx@.len() > 0 {
                assert forall|a: int| 0 <= a < self.houses_idx@.len() implies has_source(
                    Partition::singletons(self.sampling@.len()).merge_all(edges@),
                    self.sources_idx@,
                    #[trigger] self.houses_idx@[a] as int,
                ) by {
                    let h = self.houses_idx@[a];
                    assert(keys@.contains(h));
                    let ki = choose|ki: int| 0 <= ki < keys@.len() && keys@[ki] == h;
                    assert(keys@[ki] == h);
                }
            }
        }
        State::new(keys, &edges)
    }

    /// What `state` scores: the score it holds, or else the summed distance
    /// of its legs.
    pub open spec fn score_spec(&self, state: &State) -> int {
        match state.score {
            Some(v) => v as int,
            None => edge_total(self.dist_path@, state.edges@),
        }
    }

    /// The score of `state`: the summed distance of its legs, computed on
    /// the first call and kept in the network for the next.
    pub fn state_score(&self, state: &mut State) -> (v: i128)
        requires
            self.wf(),
            self.charted(),
            old(state).wf(self.sampling@.len()),
        ensures
            v == self.score_spec(old(state)),
            final(state).score == Some(v),
            final(state).keys == old(state).keys,
            final(state).edges == old(state).edges,
    {
        match state.score {
            Some(v) => {
                return v;
            },
            None => {},
        }
        let mut res: i128 = 0;
        let mut i: usize = 0;
        while i < state.edges.len()
            invariant
                self.wf(),
                self.charted(),
                state.wf(self.sampling@.len()),
                *state == *old(state),
                i <= state.edges@.len(),
                res == edge_total(self.dist_path@, state.edges@.subrange(0, i as int)),
                0 <= res <= i * 0x7fff_ffff_ffff_ffff,
            decreases state.edges@.len() - i,
        {
            let e: Edge = state.edges[i];
            assert(state.edges@.subrange(0, i + 1).drop_last() =~= state.edges@.subrange(
                0,
                i as int,
            ));
            assert(0 <= self.dist_path@[e.0 as int]@[e.1 as int].0);
            let d: i64 = self.dist_path[e.0][e.1].0;
            res = res + d as i128;
            i += 1;
        }
        assert(state.edges@.subrange(0, i as int) =~= state.edges@);
        state.score = Some(res);
        res
    }

    /// The ids of the houses followed by the ids of the sources.
    pub open spec fn terminal_keys(&self) -> Seq<usize> {
        self.houses_idx@ + self.sources_idx@
    }

    /// The network to start from: the one built over the houses and the
    /// sources alone.
    pub fn generate_init_state(&self) -> (r: State)
        requires
            self.wf(),
            self.charted(),
        ensures
            self.built(self.terminal_keys(), r),
            r.wf(self.sampling@.len()),
            self.terminals_in(r.keys@),
            self.sources_idx@.len() > 0 ==> supplied(
                r.edges@,
                self.sources_idx@,
                self.houses_idx@,
                self.sampling@.len(),
            ),
    {
        let mut keys: Vec<usize> = Vec::new();
        let mut i: usize = 0;
        while i < self.houses_idx.len()
            invariant
                i <= self.houses_idx@.len(),
                keys@ == self.houses_idx@.subrange(0, i as int),
            decreases self.houses_idx@.len() - i,
        {
            keys.push(self.houses_idx[i]);
            assert(keys@ =~= self.houses_idx@.subrange(0, i + 1));
            i += 1;
        }
        let mut j: usize = 0;
        while j < self.sources_idx.len()
            invariant
                i == self.houses_idx@.len(),
                j <= self.sources_idx@.len(),
                keys@ == self.houses_idx@.subrange(0, i as int) + self.sources_idx@.subrange(
                    0,
                    j as int,
                ),
            decreases self.sources_idx@.len() - j,
        {
            keys.push(self.sources_idx[j]);
            assert(keys@ =~= self.houses_idx@.subrange(0, i as int)
                + self.sources_idx@.subrange(0, j + 1));
            j += 1;
        }
        proof {
            assert(keys@ =~= self.terminal_keys());
            assert forall|a: int| 0 <= a < self.houses_idx@.len() implies keys@.contains(
                #[trigger] self.houses_idx@[a],
            ) by {
                assert(keys@[a] == self.houses_idx@[a]);
            }
            assert forall|a: int| 0 <= a < self.sources_idx@.len() implies keys@.contains(
                #[trigger] self.sources_idx@[a],
            ) by {
                assert(keys@[self.houses_idx@.len() + a] == self.sources_idx@[a]);
            }
            assert forall|a: int| 0 <= a < keys@.len() implies #[trigger] keys@[a]
                < self.sampling@.len() by {
                if a < self.houses_idx@.len() {
                    assert(keys@[a] == self.houses_idx@[a]);
                } else {
                    assert(keys@[a] == self.sources_idx@[a - self.houses_idx@.len()]);
                }
            }
        }
        self.state_generate(&keys)
    }
}

} // verus!
