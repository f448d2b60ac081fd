//! The book-keeping of probes: what a probe of a cell and the answer to it
//! do to the field, which probes are made of a cell, and what is read off
//! afterwards.

use crate::field::Field;
use crate::grid::{contains_cell, neighbor, neighbor_spec, on_grid, Cell};
use crate::schedule::{
    commit, commit_ramp, dense, densify, schedule, schedule_spec, survey, survey_ramp,
    FULL_POWER, HARD_ESTIMATE,
};
use vstd::prelude::*;

verus! {

/// What the answer to a probe says.
#[derive(Clone, Copy, Debug, PartialEq, Eq)]
pub enum Response {
    /// The cell withstood the probe.
    NotBroken,
    /// The cell is broken.
    Broken,
    /// Every house has water: the session is over and no probe may follow.
    SessionEnded,
}

/// An answer that is none of the three that the protocol allows.
#[derive(Clone, Copy, Debug, PartialEq, Eq)]
pub struct ProtocolViolation {
    /// The answer as it was received.
    pub code: usize,
}

/// What the probes have done so far: which cells are broken, what was spent
/// on each cell, and what was charged in all.
pub struct Ledger {
    /// The fee charged for every probe.
    pub fee: int,
    /// Whether each cell is broken.
    pub broken: Seq<Seq<bool>>,
    /// The intensity spent on each cell.
    pub spent: Seq<Seq<int>>,
    /// Fees and intensities of all probes.
    pub total: int,
}

/// A probe together with the answer to it.
pub struct Probe {
    /// The cell probed.
    pub cell: Cell,
    /// The intensity of the probe.
    pub power: int,
    /// The answer: 0 not broken, 1 broken, 2 session over.
    pub reply: int,
}

impl Ledger {
    /// Whether both grids have `n` rows of `n` entries.
    pub open spec fn covers(self, n: usize) -> bool {
        &&& self.broken.len() == n
        &&& self.spent.len() == n
        &&& forall|y: int| 0 <= y < n ==> (#[trigger] self.broken[y]).len() == n
        &&& forall|y: int| 0 <= y < n ==> (#[trigger] self.spent[y]).len() == n
    }

    /// Whether `p` is broken.
    pub open spec fn broken_at(self, p: Cell) -> bool {
        self.broken[p.0 as int][p.1 as int]
    }

    /// The intensity spent on `p`.
    pub open spec fn spent_at(self, p: Cell) -> int {
        self.spent[p.0 as int][p.1 as int]
    }

    /// The ledger after the probe `e`. A probe of a broken cell is not made
    /// and changes nothing; any other probe is paid for, whatever the answer.
    pub open spec fn apply(self, e: Probe) -> Ledger {
        let y = e.cell.0 as int;
        let x = e.cell.1 as int;
        if self.broken_at(e.cell) {
            self
        } else {
            Ledger {
                fee: self.fee,
                broken: if e.reply == 1 {
                    self.broken.update(y, self.broken[y].update(x, true))
                } else {
                    self.broken
                },
                spent: self.spent.update(y, self.spent[y].update(x, self.spent[y][x] + e.power)),
                total: self.total + self.fee + e.power,
            }
        }
    }

    /// The ledger after the probes `events`, in order.
    pub open spec fn replay(self, events: Seq<Probe>) -> Ledger
        decreases events.len(),
    {
        if events.len() == 0 {
            self
        } else {
            self.replay(events.drop_last()).apply(events.last())
        }
    }

    /// The intensity that the probes `events` delivered to `p`: the probes of
    /// `p` that were made while `p` was not broken.
    pub open spec fn delivered(self, events: Seq<Probe>, p: Cell) -> int
        decreases events.len(),
    {
        if events.len() == 0 {
            0
        } else {
            self.delivered(events.drop_last(), p) + if events.last().cell == p && !self.replay(
                events.drop_last(),
            ).broken_at(p) {
                events.last().power
            } else {
                0
            }
        }
    }

    /// What the probes `events` were charged: fee and intensity of every
    /// probe that was made of a cell not yet broken.
    pub open spec fn charged(self, events: Seq<Probe>) -> int
        decreases events.len(),
    {
        if events.len() == 0 {
            0
        } else {
            self.charged(events.drop_last()) + if !self.replay(events.drop_last()).broken_at(
                events.last().cell,
            ) {
                self.fee + events.last().power
            } else {
                0
            }
        }
    }

    /// Whether every probe of `events` is of a cell of the grid.
    pub open spec fn within(events: Seq<Probe>, n: usize) -> bool {
        forall|i: int| 0 <= i < events.len() ==> on_grid((#[trigger] events[i]).cell, n)
    }

    /// Probes keep the shape of the ledger and its fee.
    pub proof fn lemma_replay_covers(self, events: Seq<Probe>, n: usize)
        requires
            self.covers(n),
            Self::within(events, n),
        ensures
            self.replay(events).covers(n),
            self.replay(events).fee == self.fee,
        decreases events.len(),
    {
        if events.len() > 0 {
            self.lemma_replay_covers(events.drop_last(), n);
            assert(on_grid(events[events.len() - 1].cell, n));
        }
    }

    /// A broken cell stays broken, whatever probes follow.
    pub proof fn lemma_broken_stays(self, events: Seq<Probe>, n: usize, p: Cell)
        requires
            self.covers(n),
            Self::within(events, n),
            on_grid(p, n),
            self.broken_at(p),
        ensures
            self.replay(events).broken_at(p),
        decreases events.len(),
    {
        if events.len() > 0 {
            self.lemma_broken_stays(events.drop_last(), n, p);
            self.lemma_replay_covers(events.drop_last(), n);
            assert(on_grid(events[events.len() - 1].cell, n));
        }
    }

    /// What is recorded as spent on a cell is what it had before and what
    /// the probes delivered to it.
    pub proof fn lemma_spent_is_delivered(self, events: Seq<Probe>, n: usize, p: Cell)
        requires
            self.covers(n),
            Self::within(events, n),
            on_grid(p, n),
        ensures
            self.replay(events).spent_at(p) == self.spent_at(p) + self.delivered(events, p),
        decreases events.len(),
    {
        if events.len() > 0 {
            self.lemma_spent_is_delivered(events.drop_last(), n, p);
            self.lemma_replay_covers(events.drop_last(), n);
            assert(on_grid(events[events.len() - 1].cell, n));
        }
    }

    /// The total grows by the fee and the intensity of every probe made.
    pub proof fn lemma_total_is_charged(self, events: Seq<Probe>, n: usize)
        requires
            self.covers(n),
            Self::within(events, n),
        ensures
            self.replay(events).total == self.total + self.charged(events),
        decreases events.len(),
    {
        if events.len() > 0 {
            self.lemma_total_is_charged(events.drop_last(), n);
            self.lemma_replay_covers(events.drop_last(), n);
        }
    }

    /// Probing a broken cell again changes nothing.
    pub proof fn lemma_probe_of_broken(self, e: Probe)
        requires
            self.broken_at(e.cell),
        ensures
            self.apply(e) == self,
    {
    }
}

/// Whether two fields differ at most in what the probes have done.
pub open spec fn same_plan(a: &Field, b: &Field) -> bool {
    &&& a.n == b.n
    &&& a.w == b.w
    &&& a.k == b.k
    &&& a.c == b.c
    &&& a.guess == b.guess
    &&& a.sampling == b.sampling
    &&& a.dist_path == b.dist_path
    &&& a.houses_idx == b.houses_idx
    &&& a.sources_idx == b.sources_idx
}

impl Field {
    /// What the probes have done to this field.
    pub open spec fn ledger(&self) -> Ledger {
        Ledger {
            fee: self.c as int,
            broken: Seq::new(
                self.n as nat,
                |y: int| Seq::new(self.n as nat, |x: int| self.is_broken@[y]@[x]),
            ),
            spent: Seq::new(
                self.n as nat,
                |y: int| Seq::new(self.n as nat, |x: int| self.real@[y]@[x] as int),
            ),
            total: self.total_cost as int,
        }
    }

    /// Whether a probe of `p` with the intensity `power` can be recorded:
    /// the cell is not broken, the intensity is positive, and the sums
    /// stay within the range of the counters.
    pub open spec fn probe_fits(&self, p: Cell, power: int) -> bool {
        &&& !self.broken_at(p)
        &&& 0 < power
        &&& self.real_at(p) + power <= i32::MAX
        &&& self.total_cost + self.c + power <= usize::MAX
    }

    /// Whether a probe of `(y, x)` with the intensity `power` is to be made.
    pub fn can_probe(&self, y: usize, x: usize, power: i32) -> (b: bool)
        requires
            self.wf(),
            on_grid((y, x), self.n),
        ensures
            b == self.probe_fits((y, x), power as int),
    {
        if self.is_broken[y][x] || power <= 0 {
            return false;
        }
        assert(0 <= self.real@[y as int]@[x as int]);
        if self.real[y][x] > i32::MAX - power {
            return false;
        }
        let add: usize = power as usize;
        if self.c > usize::MAX - add {
            return false;
        }
        self.total_cost <= usize::MAX - (self.c + add)
    }

    /// Records a probe of `(y, x)` with the intensity `power` and the answer
    /// `reply` to it. A probe of a broken cell is not made: nothing changes
    /// and the cell is reported broken, whatever `reply` holds. Otherwise the
    /// intensity is added to what was spent on the cell, fee and intensity
    /// are added to the total, and the answer decides: 0 not broken, 1
    /// broken, 2 session over, anything else a violation of the protocol.
    pub fn query(&mut self, y: usize, x: usize, power: i32, reply: usize) -> (r: Result<
        Response,
        ProtocolViolation,
    >)
        requires
            old(self).wf(),
            on_grid((y, x), old(self).n),
            0 <= power,
            !old(self).broken_at((y, x)) ==> old(self).real_at((y, x)) + power <= i32::MAX && old(
                self,
            ).total_cost + old(self).c + power <= usize::MAX,
        ensures
            final(self).wf(),
            same_plan(final(self), old(self)),
            final(self).ledger() == old(self).ledger().apply(
                Probe { cell: (y, x), power: power as int, reply: reply as int },
            ),
            old(self).broken_at((y, x)) ==> r == Ok::<Response, ProtocolViolation>(
                Response::Broken,
            ) && *final(self) == *old(self),
            !old(self).broken_at((y, x)) ==> r == (if reply == 0 {
                Ok::<Response, ProtocolViolation>(Response::NotBroken)
            } else if reply == 1 {
                Ok(Response::Broken)
            } else if reply == 2 {
                Ok(Response::SessionEnded)
            } else {
                Err(ProtocolViolation { code: reply })
            }),
            final(self).broken_at((y, x)) == (old(self).broken_at((y, x)) || reply == 1),
            !old(self).broken_at((y, x)) ==> final(self).real_at((y, x)) == old(self).real_at(
                (y, x),
            ) + power && final(self).total_cost == old(self).total_cost + old(self).c + power,
            forall|p: Cell|
                on_grid(p, old(self).n) && p != (y, x) ==> final(self).broken_at(p) == old(
                    self,
                ).broken_at(p) && final(self).real_at(p) == old(self).real_at(p),
    {
        if self.is_broken[y][x] {
            return Ok(Response::Broken);
        }
        assert(0 <= old(self).real@[y as int]@[x as int]);
        let spent: i32 = self.real[y][x] + power;
        self.real[y][x] = spent;
        self.total_cost = self.total_cost + self.c + power as usize;
        if reply == 1 {
            self.is_broken[y][x] = true;
        }
        proof {
            let n = old(self).n;
            assert forall|j: int| 0 <= j < n implies (#[trigger] self.real@[j]).len() == n by {
                if j != y {
                    assert(self.real@[j] == old(self).real@[j]);
                }
            }
            assert forall|j: int| 0 <= j < n implies (#[trigger] self.is_broken@[j]).len()
                == n by {
                if j != y {
                    assert(self.is_broken@[j] == old(self).is_broken@[j]);
                }
            }
            assert forall|p: Cell| on_grid(p, n) && p != (y, x) implies self.broken_at(p) == old(
                self,
            ).broken_at(p) && self.real_at(p) == old(self).real_at(p) by {
                if p.0 != y {
                    assert(self.real@[p.0 as int] == old(self).real@[p.0 as int]);
                    assert(self.is_broken@[p.0 as int] == old(self).is_broken@[p.0 as int]);
                }
            }
            assert forall|j: int, i: int| 0 <= j < n && 0 <= i < n implies 0
                <= #[trigger] self.real@[j]@[i] by {
                let p = (j as usize, i as usize);
                if p != (y, x) {
                    assert(self.real_at(p) == old(self).real_at(p));
                    assert(0 <= old(self).real@[j]@[i]);
                }
            }
            let e = Probe { cell: (y, x), power: power as int, reply: reply as int };
            let want = old(self).ledger().apply(e);
            let have = self.ledger();
            assert forall|j: int| 0 <= j < n implies #[trigger] have.spent[j] =~= want.spent[j] by {
                assert forall|i: int| 0 <= i < n implies have.spent[j][i] == want.spent[j][i] by {
                    let p = (j as usize, i as usize);
                    if p != (y, x) {
                        assert(self.real_at(p) == old(self).real_at(p));
                    }
                }
            }
            assert forall|j: int| 0 <= j < n implies #[trigger] have.broken[j]
                =~= want.broken[j] by {
                assert forall|i: int| 0 <= i < n implies have.broken[j][i] == want.broken[j][i] by {
                    let p = (j as usize, i as usize);
                    if p != (y, x) {
                        assert(self.broken_at(p) == old(self).broken_at(p));
                    }
                }
            }
            assert(have.spent =~= want.spent);
            assert(have.broken =~= want.broken);
        }
        if reply == 0 {
            Ok(Response::NotBroken)
        } else if reply == 1 {
            Ok(Response::Broken)
        } else if reply == 2 {
            Ok(Response::SessionEnded)
        } else {
            Err(ProtocolViolation { code: reply })
        }
    }

    /// The intensity spent on the first broken neighbour of `p`, looking up,
    /// down, left and right from direction `dir` on.
    pub open spec fn near_from(&self, p: Cell, dir: int) -> Option<int>
        decreases 4 - dir,
    {
        if dir < 0 || dir >= 4 {
            None
        } else {
            match neighbor_spec(p, dir, self.n) {
                Some(q) => if self.broken_at(q) {
                    Some(self.real_at(q))
                } else {
                    self.near_from(p, dir + 1)
                },
                None => self.near_from(p, dir + 1),
            }
        }
    }

    /// Whether `p` is to be broken by its probes: the level is
    /// [`FULL_POWER`], or `p` is one of `terminals`, the cells of the sources
    /// and the houses, which must end up broken.
    pub open spec fn must_break(p: Cell, lim: int, terminals: Seq<Cell>) -> bool {
        lim == FULL_POWER || terminals.contains(p)
    }

    /// The probes to be made of `p`, in order, until `p` breaks. None for a
    /// broken cell. A cell that is to break gets the breaking run: the
    /// schedule of the fee, made dense, is followed to its end, entered
    /// higher up if a neighbour is broken. Any other cell is surveyed: the
    /// schedule of the fee is followed below the level `lim`.
    pub open spec fn ramp(&self, p: Cell, lim: int, terminals: Seq<Cell>) -> Seq<i32> {
        if self.broken_at(p) {
            Seq::empty()
        } else if Self::must_break(p, lim, terminals) {
            commit_ramp(dense(schedule_spec(self.c)), self.near_from(p, 0))
        } else {
            survey_ramp(schedule_spec(self.c), lim)
        }
    }

    /// What is read off `p` after its probes: what was spent on it if it is
    /// broken or was to break, else [`HARD_ESTIMATE`].
    pub open spec fn reading_spec(&self, p: Cell, lim: int, terminals: Seq<Cell>) -> int {
        if self.broken_at(p) || Self::must_break(p, lim, terminals) {
            self.real_at(p)
        } else {
            HARD_ESTIMATE as int
        }
    }

    /// The probes to be made of a cell depend only on the fee, on whether the
    /// cell is broken, and on its neighbours.
    pub proof fn lemma_ramp_same(&self, other: &Field, p: Cell, lim: int, terminals: Seq<Cell>)
        requires
            self.n == other.n,
            self.c == other.c,
            on_grid(p, self.n),
            self.broken_at(p) == other.broken_at(p),
            forall|q: Cell|
                on_grid(q, self.n) && q != p ==> self.broken_at(q) == other.broken_at(q)
                    && self.real_at(q) == other.real_at(q),
        ensures
            self.ramp(p, lim, terminals) == other.ramp(p, lim, terminals),
    {
        reveal_with_fuel(Field::near_from, 5);
        assert(self.near_from(p, 0) == other.near_from(p, 0));
    }

    fn near(&self, p: Cell) -> (r: Option<i32>)
        requires
            self.wf(),
            on_grid(p, self.n),
        ensures
            self.near_from(p, 0) == (match r {
                Some(v) => Some(v as int),
                None => None,
            }),
    {
        let mut dir: usize = 0;
        while dir < 4
            invariant
                self.wf(),
                on_grid(p, self.n),
                dir <= 4,
                self.near_from(p, 0) == self.near_from(p, dir as int),
            decreases 4 - dir,
        {
            match neighbor(p, dir, self.n) {
                Some(q) => {
                    if self.is_broken[q.0][q.1] {
                        return Some(self.real[q.0][q.1]);
                    }
                },
                None => {},
            }
            dir += 1;
        }
        None
    }

    /// The probes to be made of `(y, x)`, in order, until it breaks.
    pub fn destruct(&self, y: usize, x: usize, lim: i32, terminals: &Vec<Cell>) -> (ramp: Vec<i32>)
        requires
            self.wf(),
            on_grid((y, x), self.n),
        ensures
            ramp@ == self.ramp((y, x), lim as int, terminals@),
    {
        if self.is_broken[y][x] {
            return Vec::new();
        }
        let v: Vec<i32> = schedule(self.c);
        if lim != FULL_POWER && !contains_cell(terminals, (y, x)) {
            return survey(&v, lim);
        }
        assert(v@.len() <= 28);
        let fine: Vec<i32> = densify(&v);
        let near: Option<i32> = self.near((y, x));
        commit(&fine, near)
    }

    /// What is read off `(y, x)` after its probes.
    pub fn reading(&self, y: usize, x: usize, lim: i32, terminals: &Vec<Cell>) -> (v: i32)
        requires
            self.wf(),
            on_grid((y, x), self.n),
        ensures
            v == self.reading_spec((y, x), lim as int, terminals@),
            0 <= v,
    {
        assert(0 <= self.real@[y as int]@[x as int]);
        if self.is_broken[y][x] || lim == FULL_POWER || contains_cell(terminals, (y, x)) {
            self.real[y][x]
        } else {
            HARD_ESTIMATE
        }
    }
}

} // verus!
