//! The random search for a better network: landmarks are added to the keys
//! and dropped from them at random, and a network is kept only if it scores
//! lower than the best so far.

use crate::field::Field;
use crate::network::{ids_below, supplied, State};
use rand::{Rng, SeedableRng};
use vstd::prelude::*;

verus! {

/// The climbs made from the first network in one round of the search.
pub const TRIES: usize = 100;

/// `Instant` of the standard library, a moment in time: known here as a
/// type only, nothing of what it holds.
#[verifier::external_type_specification]
#[verifier::external_body]
pub struct ExInstant(std::time::Instant);

/// `Rng::gen_range` of the crate rand, called on the generator that
/// `thread_rng` of that crate hands out: a number that is at least `l` and
/// less than `r`. It is asked for only with `l` less than `r`, since it
/// panics otherwise. Nothing else is known of the number.
#[verifier::external_body]
fn pick(l: usize, r: usize) -> (v: usize)
    requires
        l < r,
    ensures
        l <= v < r,
{
    rand::thread_rng().gen_range(l, r)
}

/// Where the random numbers of the search come from: a generator `StdRng`
/// of the crate rand, set up from a seed, so that the same seed gives the
/// same numbers again. Nothing of what it holds is seen here.
#[verifier::external_body]
pub struct Dice {
    generator: rand::rngs::StdRng,
}

/// `SeedableRng::seed_from_u64` of the crate rand for its `StdRng`: a
/// generator set up from `seed`. Nothing is stated of it.
#[verifier::external_body]
fn generator(seed: u64) -> Dice {
    Dice { generator: rand::rngs::StdRng::seed_from_u64(seed) }
}

/// `Rng::gen_range` of the crate rand, called on the generator of `dice`:
/// a number that is at least `l` and less than `r`. It is asked for only
/// with `l` less than `r`, since it panics otherwise. Nothing else is stated
/// of the number.
#[verifier::external_body]
fn pick_from(dice: &mut Dice, l: usize, r: usize) -> (v: usize)
    requires
        l < r,
    ensures
        l <= v < r,
{
    dice.generator.gen_range(l, r)
}

/// `Instant::now` of the standard library: the present moment. Nothing is
/// known of it.
#[verifier::external_body]
fn now() -> std::time::Instant {
    std::time::Instant::now()
}

/// `Instant::elapsed` of the standard library: the time since `start`.
/// Nothing is known of it.
#[verifier::external_body]
fn elapsed(start: &std::time::Instant) -> std::time::Duration {
    start.elapsed()
}

/// `Duration::as_millis` of the standard library: the whole milliseconds in
/// `d`. Nothing is known of their number.
#[verifier::external_body]
fn millis(d: &std::time::Duration) -> u128 {
    d.as_millis()
}

/// A random number that is at least `l` and less than `r`.
pub fn rand(l: usize, r: usize) -> (v: usize)
    requires
        l < r,
    ensures
        l <= v < r,
{
    pick(l, r)
}

impl Dice {
    /// Dice with a seed drawn from the generator of the thread.
    pub fn of_thread() -> (d: Self) {
        let seed: usize = rand(0, usize::MAX);
        generator(seed as u64)
    }

    /// Dice set up from `seed`.
    pub fn of_seed(seed: u64) -> (d: Self) {
        generator(seed)
    }

    /// A random number that is at least `l` and less than `r`.
    pub fn roll(&mut self, l: usize, r: usize) -> (v: usize)
        requires
            l < r,
        ensures
            l <= v < r,
    {
        pick_from(self, l, r)
    }
}

/// A clock that is started once and then asked how long it has run.
pub struct Timer {
    start: std::time::Instant,
}

impl Timer {
    /// A clock started now.
    pub fn new() -> (t: Self) {
        Timer { start: now() }
    }

    /// Whether less than `limit` milliseconds have passed since the clock
    /// was started: whether there is time left. With a limit of 0 there
    /// never is.
    pub fn is_timeout(&self, limit: u128) -> (left: bool)
        ensures
            limit == 0 ==> !left,
    {
        let run = elapsed(&self.start);
        millis(&run) < limit
    }
}

/// Whether `id` is one of `ids`.
pub fn contains_id(ids: &Vec<usize>, id: usize) -> (b: bool)
    ensures
        b == ids@.contains(id),
{
    let mut i: usize = 0;
    while i < ids.len()
        invariant
            i <= ids@.len(),
            forall|j: int| 0 <= j < i ==> ids@[j] != id,
        decreases ids@.len() - i,
    {
        if ids[i] == id {
            return true;
        }
        i += 1;
    }
    false
}

/// The keys after the landmark `add` has joined them: unchanged if it was
/// a key already.
pub open spec fn added(keys: Seq<usize>, add: usize) -> Seq<usize> {
    if keys.contains(add) {
        keys
    } else {
        keys.push(add)
    }
}

/// The keys after the key at `del` has been dropped: unchanged if that key
/// is a house or a source.
pub open spec fn erased(keys: Seq<usize>, del: int, houses: Seq<usize>, sources: Seq<usize>) -> Seq<
    usize,
> {
    if houses.contains(keys[del]) || sources.contains(keys[del]) {
        keys
    } else {
        keys.remove(del)
    }
}

/// Makes the landmark `add` a key unless it is one already.
pub fn add_key(keys: &mut Vec<usize>, add: usize)
    ensures
        final(keys)@ == added(old(keys)@, add),
{
    if !contains_id(keys, add) {
        keys.push(add);
    }
}

/// Drops the key at `del` unless it is a house or a source.
pub fn erase_key(keys: &mut Vec<usize>, del: usize, houses: &Vec<usize>, sources: &Vec<usize>)
    requires
        del < old(keys)@.len(),
    ensures
        final(keys)@ == erased(old(keys)@, del as int, houses@, sources@),
{
    let id: usize = keys[del];
    if !contains_id(houses, id) && !contains_id(sources, id) {
        keys.remove(del);
    }
}

/// Whether `after` comes from `before` by one change: a landmark added, or
/// a key dropped that is no house and no source.
pub open spec fn one_change(
    before: Seq<usize>,
    after: Seq<usize>,
    houses: Seq<usize>,
    sources: Seq<usize>,
    landmarks: nat,
) -> bool {
    ||| exists|add: usize| add < landmarks && after == #[trigger] added(before, add)
    ||| exists|del: int|
        0 <= del < before.len() && after == #[trigger] erased(before, del, houses, sources)
    ||| (before.len() == 0 && after == before)
}

/// A change to the keys keeps them landmarks and keeps every house and
/// source among them.
pub proof fn lemma_change_keeps(
    before: Seq<usize>,
    after: Seq<usize>,
    field: &Field,
)
    requires
        field.wf(),
        ids_below(before, field.sampling@.len()),
        one_change(before, after, field.houses_idx@, field.sources_idx@, field.sampling@.len()),
    ensures
        ids_below(after, field.sampling@.len()),
        field.terminals_in(before) ==> field.terminals_in(after),
{
    let houses = field.houses_idx@;
    let sources = field.sources_idx@;
    if exists|add: usize| add < field.sampling@.len() && after == #[trigger] added(before, add) {
        let add = choose|add: usize|
            add < field.sampling@.len() && after == #[trigger] added(before, add);
        if !before.contains(add) {
            assert forall|id: usize| before.contains(id) implies after.contains(id) by {
                let i = choose|i: int| 0 <= i < before.len() && before[i] == id;
                assert(after[i] == id);
            }
        }
    } else if exists|del: int|
        0 <= del < before.len() && after == #[trigger] erased(before, del, houses, sources) {
        let del = choose|del: int|
            0 <= del < before.len() && after == #[trigger] erased(before, del, houses, sources);
        if after != before {
            assert forall|id: usize| before.contains(id) && id != before[del] implies after.contains(
                id,
            ) by {
                let i = choose|i: int| 0 <= i < before.len() && before[i] == id;
                if i < del {
                    assert(after[i] == id);
                } else {
                    assert(after[i - 1] == id);
                }
            }
            if field.terminals_in(before) {
                assert forall|i: int| 0 <= i < houses.len() implies after.contains(
                    #[trigger] houses[i],
                ) by {
                    assert(before.contains(houses[i]));
                    assert(houses.contains(houses[i]));
                }
                assert forall|i: int| 0 <= i < sources.len() implies after.contains(
                    #[trigger] sources[i],
                ) by {
                    assert(before.contains(sources[i]));
                    assert(sources.contains(sources[i]));
                }
            }
        }
    }
}

impl Field {
    /// Makes a landmark chosen at random a key, unless it is one already.
    pub fn state_add_key(&self, keys: &mut Vec<usize>, dice: &mut Dice)
        requires
            self.sampling@.len() > 0,
        ensures
            exists|add: usize|
                add < self.sampling@.len() && final(keys)@ == #[trigger] added(old(keys)@, add),
    {
        let add: usize = dice.roll(0, self.sampling.len());
        add_key(keys, add);
    }

    /// Drops a key chosen at random, unless it is a house or a source.
    pub fn state_erase_key(&self, keys: &mut Vec<usize>, dice: &mut Dice)
        requires
            old(keys)@.len() > 0,
        ensures
            exists|del: int|
                0 <= del < old(keys)@.len() && final(keys)@ == #[trigger] erased(
                    old(keys)@,
                    del,
                    self.houses_idx@,
                    self.sources_idx@,
                ),
    {
        let del: usize = dice.roll(0, keys.len());
        erase_key(keys, del, &self.houses_idx, &self.sources_idx);
        assert(keys@ == erased(old(keys)@, del as int, self.houses_idx@, self.sources_idx@));
    }

    /// Whether `state` is a network over the landmarks of this field that
    /// holds every house and source and brings every house to a source.
    pub open spec fn serves(&self, state: &State) -> bool {
        &&& state.wf(self.sampling@.len())
        &&& self.terminals_in(state.keys@)
        &&& supplied(state.edges@, self.sources_idx@, self.houses_idx@, self.sampling@.len())
    }

    /// Whether `after` comes from `before` by one or two changes.
    pub open spec fn climbed(&self, before: Seq<usize>, after: Seq<usize>) -> bool {
        let houses = self.houses_idx@;
        let sources = self.sources_idx@;
        let total = self.sampling@.len();
        ||| one_change(before, after, houses, sources, total)
        ||| exists|mid: Seq<usize>| #[trigger]
            one_change(before, mid, houses, sources, total) && one_change(
                mid,
                after,
                houses,
                sources,
                total,
            )
    }

    /// A neighbour of `state`: one or two changes are made to its keys at
    /// random, each adding a landmark or dropping a key that is no house and
    /// no source, and the network is built anew over the changed keys.
    pub fn climb(&self, state: &State, dice: &mut Dice) -> (r: State)
        requires
            self.wf(),
            self.charted(),
            self.sampling@.len() > 0,
            state.wf(self.sampling@.len()),
        ensures
            r.wf(self.sampling@.len()),
            self.climbed(state.keys@, r.keys@),
            self.built(r.keys@, r),
            self.sources_idx@.len() > 0 && self.terminals_in(state.keys@) ==> self.serves(&r),
    {
        let copy: State = state.clone();
        let mut keys: Vec<usize> = copy.keys;
        let cnt: usize = dice.roll(1, 3);
        let ghost houses = self.houses_idx@;
        let ghost sources = self.sources_idx@;
        let ghost total = self.sampling@.len();
        let ghost mut trail: Seq<Seq<usize>> = seq![keys@];
        let mut i: usize = 0;
        while i < cnt
            invariant
                self.wf(),
                self.sampling@.len() > 0,
                houses == self.houses_idx@,
                sources == self.sources_idx@,
                total == self.sampling@.len(),
                i <= cnt <= 2,
                trail.len() == i + 1,
                trail[0] == state.keys@,
                trail[i as int] == keys@,
                forall|j: int|
                    0 <= j < i ==> one_change(#[trigger] trail[j], trail[j + 1], houses, sources, total),
            decreases cnt - i,
        {
            let ghost before = keys@;
            let coin: usize = dice.roll(0, 2);
            if coin == 1 {
                self.state_add_key(&mut keys, dice);
            } else if keys.len() > 0 {
                self.state_erase_key(&mut keys, dice);
            }
            proof {
                assert(one_change(before, keys@, houses, sources, total));
                trail = trail.push(keys@);
            }
            i += 1;
        }
        proof {
            lemma_change_keeps(trail[0], trail[1], self);
            if cnt == 2 {
                lemma_change_keeps(trail[1], trail[2], self);
                assert(one_change(state.keys@, trail[1], houses, sources, total));
            }
        }
        self.state_generate(&keys)
    }

    /// The better of two networks: `candidate` if it scores lower than
    /// `best`, else `best`. What it returns never scores higher than `best`.
    pub fn accept(&self, best: State, candidate: State) -> (r: State)
        requires
            self.wf(),
            self.charted(),
            best.wf(self.sampling@.len()),
            candidate.wf(self.sampling@.len()),
        ensures
            self.score_spec(&r) == (if self.score_spec(&candidate) < self.score_spec(&best) {
                self.score_spec(&candidate)
            } else {
                self.score_spec(&best)
            }),
            self.score_spec(&r) <= self.score_spec(&best),
            r.keys@ == (if self.score_spec(&candidate) < self.score_spec(&best) {
                candidate.keys@
            } else {
                best.keys@
            }),
            r.edges@ == (if self.score_spec(&candidate) < self.score_spec(&best) {
                candidate.edges@
            } else {
                best.edges@
            }),
    {
        let mut best = best;
        let mut candidate = candidate;
        let new: i128 = self.state_score(&mut candidate);
        let old: i128 = self.state_score(&mut best);
        if new < old {
            candidate
        } else {
            best
        }
    }

    /// The best network found by `tries` climbs that start from `start`,
    /// each from the best so far. It never scores higher than `start`, and
    /// it is `start` or a network that the builder made.
    pub fn hill(&self, start: &State, tries: usize, dice: &mut Dice) -> (r: State)
        requires
            self.wf(),
            self.charted(),
            self.sampling@.len() > 0,
            start.wf(self.sampling@.len()),
        ensures
            r.wf(self.sampling@.len()),
            self.score_spec(&r) <= edge_total_of(self, start),
            self.sources_idx@.len() > 0 && self.serves(start) ==> self.serves(&r),
            (r.keys@ == start.keys@ && r.edges@ == start.edges@) || self.made(r.keys@, r.edges@),
            tries == 0 ==> r.keys@ == start.keys@ && r.edges@ == start.edges@,
    {
        let mut best: State = start.clone();
        let mut i: usize = 0;
        while i < tries
            invariant
                self.wf(),
                self.charted(),
                self.sampling@.len() > 0,
                best.wf(self.sampling@.len()),
                i <= tries,
                self.score_spec(&best) <= edge_total_of(self, start),
                self.sources_idx@.len() > 0 && self.serves(start) ==> self.serves(&best),
                (best.keys@ == start.keys@ && best.edges@ == start.edges@) || self.made(
                    best.keys@,
                    best.edges@,
                ),
                i == 0 ==> best.keys@ == start.keys@ && best.edges@ == start.edges@,
            decreases tries - i,
        {
            let next: State = self.climb(&best, dice);
            best = self.accept(best, next);
            i += 1;
        }
        best
    }

    /// Searches for a better network while the clock has run less than
    /// `limit` milliseconds, for at most `rounds` rounds: each round climbs
    /// from `first` and keeps what it finds only if that scores lower than
    /// the best so far. The result is `current` itself where no round is
    /// made; it has the keys and legs of `current` unless it scores lower
    /// than `current`.
    pub fn refine(
        &self,
        first: &State,
        current: State,
        timer: &Timer,
        limit: u128,
        rounds: usize,
        dice: &mut Dice,
    ) -> (r: State)
        requires
            self.wf(),
            self.charted(),
            self.sampling@.len() > 0,
            first.wf(self.sampling@.len()),
            current.wf(self.sampling@.len()),
        ensures
            r.wf(self.sampling@.len()),
            self.score_spec(&r) <= self.score_spec(&current),
            self.sources_idx@.len() > 0 && self.serves(first) && self.serves(&current)
                ==> self.serves(&r),
            (r.keys@ == current.keys@ && r.edges@ == current.edges@) || (r.keys@ == first.keys@
                && r.edges@ == first.edges@) || self.made(r.keys@, r.edges@),
            (r.keys@ == current.keys@ && r.edges@ == current.edges@) || self.score_spec(&r)
                < self.score_spec(&current),
            rounds == 0 || limit == 0 ==> r == current,
    {
        let mut best: State = current;
        let mut i: usize = 0;
        while i < rounds && timer.is_timeout(limit)
            invariant
                self.wf(),
                self.charted(),
                self.sampling@.len() > 0,
                first.wf(self.sampling@.len()),
                best.wf(self.sampling@.len()),
                i <= rounds,
                self.score_spec(&best) <= self.score_spec(&current),
                self.sources_idx@.len() > 0 && self.serves(first) && self.serves(&current)
                    ==> self.serves(&best),
                (best.keys@ == current.keys@ && best.edges@ == current.edges@) || (best.keys@
                    == first.keys@ && best.edges@ == first.edges@) || self.made(
                    best.keys@,
                    best.edges@,
                ),
                (best.keys@ == current.keys@ && best.edges@ == current.edges@)
                    || self.score_spec(&best) < self.score_spec(&current),
                i == 0 ==> best == current,
                limit == 0 ==> i == 0,
            decreases rounds - i,
        {
            let next: State = self.hill(first, TRIES, dice);
            best = self.accept(best, next);
            i += 1;
        }
        best
    }
}

/// The summed distance of the legs of `state` in the table of `field`.
pub open spec fn edge_total_of(field: &Field, state: &State) -> int {
    crate::network::edge_total(field.dist_path@, state.edges@)
}

} // verus!
