//! The whole run as a machine that is fed the answers to its probes: it
//! surveys the field, builds a network, surveys again near the network,
//! searches for a better network and digs it out.

use crate::estimate::{
    cells_of, dedup_cells, distinct, lattice, plan_upto, same_but_guess, spread, standard,
    within_reach, cells_at, REFINE_RADIUS, SMOOTHING_ROUNDS,
};
use crate::field::{Field, FEE_LIMIT};
use crate::grid::{all_on_grid, copy_cells, lemma_contains_push, on_grid, Cell};
use crate::network::{edge_total, supplied, State};
use crate::probe::{same_plan, Ledger, Probe, Response};
use crate::schedule::{FULL_POWER, HARD_ESTIMATE, REFINE_POWER, SURVEY_POWER};
use crate::search::{Dice, Timer};
use crate::smoothing::smooth_times;
use crate::walk::SIDE_LIMIT;
use vstd::prelude::*;

verus! {

/// The milliseconds that the search for a better network may take.
pub const TIME_LIMIT: u128 = 4500;

/// What the machine asks for next.
#[derive(Clone, Copy, Debug, PartialEq, Eq)]
pub enum Action {
    /// Probe the cell `(y, x)` with the intensity `power` and hand the
    /// answer to the next call.
    Probe { y: usize, x: usize, power: i32 },
    /// Nothing more: the run is over.
    Finished,
}

/// Why a run was given up.
#[derive(Clone, Copy, Debug, PartialEq, Eq)]
pub enum Failure {
    /// An answer to a probe was none of the three that the protocol allows.
    Protocol(usize),
}

/// The part of the run that the machine is in.
#[derive(Clone, Copy, Debug, PartialEq, Eq)]
pub enum Stage {
    /// The first survey: sources, houses and lattice points are probed.
    Seeding,
    /// The second survey: landmarks near the first network are probed again.
    Refining,
    /// The cells of the chosen network are broken.
    Committing,
    /// The run is over.
    Done,
}

/// The run of one scenario.
pub struct Solver {
    /// The side of the grid.
    pub n: usize,
    /// The number of water sources.
    pub w: usize,
    /// The number of houses.
    pub k: usize,
    /// The fee charged for every probe.
    pub c: usize,
    /// The cells of the sources.
    pub sources: Vec<Cell>,
    /// The cells of the houses.
    pub houses: Vec<Cell>,
    /// The cells of the sources and of the houses: they must end up broken.
    pub terminals: Vec<Cell>,
    /// The field with all that is known of it.
    pub field: Field,
    /// The part of the run that the machine is in.
    pub stage: Stage,
    /// The cells whose estimates the first survey spreads over the field.
    pub anchors: Vec<Cell>,
    /// The cells that this stage probes, in order.
    pub jobs: Vec<Cell>,
    /// The place in `jobs` of the cell being probed.
    pub job: usize,
    /// The probes to be made of the cell being probed.
    pub ramp: Vec<i32>,
    /// The place in `ramp` of the next probe.
    pub step: usize,
    /// The probe that was asked for and is not answered yet.
    pub pending: Option<(Cell, i32)>,
    /// The network built after the first survey.
    pub init_state: State,
    /// The network that is dug out, once the search has chosen it.
    pub network: State,
    /// The milliseconds that the search may take.
    pub limit: u128,
    /// The most rounds that the search may make.
    pub rounds: usize,
    /// Where the random numbers of the search come from.
    pub dice: Dice,
}

/// The place of a stage in the run.
pub open spec fn stage_rank(stage: Stage) -> int {
    match stage {
        Stage::Seeding => 0,
        Stage::Refining => 1,
        Stage::Committing => 2,
        Stage::Done => 3,
    }
}

/// The level that the probes of a stage stay below.
pub open spec fn stage_level(stage: Stage) -> int {
    match stage {
        Stage::Seeding => SURVEY_POWER as int,
        Stage::Refining => REFINE_POWER as int,
        _ => FULL_POWER as int,
    }
}

/// Whether two fields differ at most in their estimates and their tables of
/// legs.
pub open spec fn same_books(a: &Field, b: &Field) -> bool {
    &&& a.n == b.n
    &&& a.w == b.w
    &&& a.k == b.k
    &&& a.c == b.c
    &&& a.is_broken == b.is_broken
    &&& a.real == b.real
    &&& a.total_cost == b.total_cost
    &&& a.sampling == b.sampling
    &&& a.houses_idx == b.houses_idx
    &&& a.sources_idx == b.sources_idx
}

/// The run of probes of the cell at `j` of `jobs`, when the machine comes to
/// it: none beyond the last job.
pub open spec fn run_at(f: &Field, jobs: Seq<Cell>, terminals: Seq<Cell>, level: int, j: int) -> Seq<
    i32,
> {
    if 0 <= j < jobs.len() {
        f.ramp(jobs[j], level, terminals)
    } else {
        Seq::empty()
    }
}

/// The next probe to be made, looking from step `from` of the run `ramp` of
/// the cell at `j` of `jobs`: the first step with an intensity that can be
/// recorded, of the first cell that is not broken and has such a step. It
/// gives the place of the cell, the step and the run of that cell.
pub open spec fn hunt(
    f: &Field,
    jobs: Seq<Cell>,
    terminals: Seq<Cell>,
    level: int,
    j: int,
    ramp: Seq<i32>,
    from: int,
) -> Option<(int, int, Seq<i32>)>
    decreases jobs.len() - j, ramp.len() - from,
{
    if j < 0 || j >= jobs.len() || from < 0 {
        None
    } else if from < ramp.len() && !f.broken_at(jobs[j]) {
        if f.probe_fits(jobs[j], ramp[from] as int) {
            Some((j, from, ramp))
        } else {
            hunt(f, jobs, terminals, level, j, ramp, from + 1)
        }
    } else {
        hunt(f, jobs, terminals, level, j + 1, run_at(f, jobs, terminals, level, j + 1), 0)
    }
}

/// The next probe depends on the field only through what the probes have
/// done to it.
proof fn lemma_hunt_same(
    f: &Field,
    g: &Field,
    jobs: Seq<Cell>,
    terminals: Seq<Cell>,
    level: int,
    j: int,
    ramp: Seq<i32>,
    from: int,
)
    requires
        same_but_guess(f, g),
        all_on_grid(jobs, f.n),
    ensures
        hunt(f, jobs, terminals, level, j, ramp, from) == hunt(
            g,
            jobs,
            terminals,
            level,
            j,
            ramp,
            from,
        ),
    decreases jobs.len() - j, ramp.len() - from,
{
    if j < 0 || j >= jobs.len() || from < 0 {
    } else if from < ramp.len() && !f.broken_at(jobs[j]) {
        if !f.probe_fits(jobs[j], ramp[from] as int) {
            lemma_hunt_same(f, g, jobs, terminals, level, j, ramp, from + 1);
        }
    } else {
        if j + 1 < jobs.len() {
            f.lemma_ramp_same(g, jobs[j + 1], level, terminals);
        }
        lemma_hunt_same(
            f,
            g,
            jobs,
            terminals,
            level,
            j + 1,
            run_at(f, jobs, terminals, level, j + 1),
            0,
        );
    }
}

/// The probe that the hunt finds is of a job at or after `j`, with a step
/// of its run, and can be recorded.
proof fn lemma_hunt_found(
    f: &Field,
    jobs: Seq<Cell>,
    terminals: Seq<Cell>,
    level: int,
    j: int,
    ramp: Seq<i32>,
    from: int,
)
    requires
        0 <= j,
        0 <= from,
    ensures
        hunt(f, jobs, terminals, level, j, ramp, from) matches Some((a, i, run)) ==> j <= a
            < jobs.len() && 0 <= i < run.len() && f.probe_fits(jobs[a], run[i] as int) && (a == j
            ==> run == ramp && from <= i) && (a > j ==> run == run_at(
            f,
            jobs,
            terminals,
            level,
            a,
        )),
    decreases jobs.len() - j, ramp.len() - from,
{
    if j >= jobs.len() {
    } else if from < ramp.len() && !f.broken_at(jobs[j]) {
        if !f.probe_fits(jobs[j], ramp[from] as int) {
            lemma_hunt_found(f, jobs, terminals, level, j, ramp, from + 1);
        }
    } else {
        lemma_hunt_found(f, jobs, terminals, level, j + 1, run_at(f, jobs, terminals, level, j + 1), 0);
    }
}

impl Field {
    /// The cells to be broken for the network `state`, which brings every
    /// house to a source: the cells on the paths of its legs, each once, in
    /// the order in which they first occur.
    pub fn done(&self, state: &State) -> (cells: Vec<Cell>)
        requires
            self.wf(),
            self.charted(),
            state.wf(self.sampling@.len()),
            supplied(state.edges@, self.sources_idx@, self.houses_idx@, self.sampling@.len()),
        ensures
            cells@ == distinct(cells_of(self.dist_path@, state.edges@)),
            all_on_grid(cells@, self.n),
    {
        let cells: Vec<Cell> = self.network_cells(state);
        dedup_cells(&cells, self.n)
    }
}

impl Solver {
    /// The machine is consistent: the field is well formed, the cell being
    /// probed is one of the jobs, and a probe that waits for its answer can
    /// be recorded.
    pub open spec fn wf(&self) -> bool {
        &&& self.grounded()
        &&& all_on_grid(self.jobs@, self.n)
        &&& self.job <= self.jobs@.len()
        &&& self.step <= self.ramp@.len()
        &&& (self.pending matches Some((p, power)) ==> !(self.stage is Done) && self.job
            < self.jobs@.len() && p == self.jobs@[self.job as int] && self.field.probe_fits(
            p,
            power as int,
        ) && self.asks((p, power)))
        &&& (self.stage is Seeding ==> self.anchors@.len() > 0 && all_on_grid(
            self.anchors@,
            self.n,
        ))
        &&& (!(self.stage is Done) ==> self.field.sampling@.len() > 0
            && self.field.sources_idx@.len() > 0)
        &&& (self.stage is Refining ==> self.field.charted() && self.field.serves(
            &self.init_state,
        ) && self.jobs@ == within_reach(
            self.field.sampling@,
            cells_of(self.field.dist_path@, self.init_state.edges@),
            REFINE_RADIUS as int,
        ))
        &&& (self.stage is Committing ==> self.field.charted() && self.field.serves(
            &self.network,
        ) && self.jobs@ == distinct(cells_of(self.field.dist_path@, self.network.edges@)))
        &&& (!(self.stage is Done) && self.job < self.jobs@.len() ==> self.field.broken_at(
            self.jobs@[self.job as int],
        ) || self.ramp@ == self.field.ramp(
            self.jobs@[self.job as int],
            stage_level(self.stage),
            self.terminals@,
        ))
    }

    /// The scenario is sound: the field is well formed and the sources and
    /// houses lie on its grid.
    pub open spec fn grounded(&self) -> bool {
        &&& self.field.wf()
        &&& self.field.n == self.n
        &&& self.field.c == self.c
        &&& 2 <= self.n
        &&& self.sources@.len() > 0
        &&& self.houses@.len() > 0
        &&& all_on_grid(self.sources@, self.n)
        &&& all_on_grid(self.houses@, self.n)
        &&& self.terminals@ == self.sources@ + self.houses@
    }

    /// Whether `probe` is the probe that the machine has come to: a probe of
    /// the cell being worked on, with the intensity that the run of probes of
    /// that cell has at the step just taken.
    pub open spec fn asks(&self, probe: (Cell, i32)) -> bool {
        &&& self.job < self.jobs@.len()
        &&& probe.0 == self.jobs@[self.job as int]
        &&& 0 < self.step <= self.ramp@.len()
        &&& probe.1 == self.ramp@[self.step - 1]
        &&& self.ramp@ == self.field.ramp(probe.0, stage_level(self.stage), self.terminals@)
    }

    /// The ledger after this call, given the answer `reply`: a probe that
    /// waited for its answer is recorded with it; nothing else touches the
    /// ledger.
    pub open spec fn ledger_after(&self, reply: Option<usize>) -> Ledger {
        match (self.stage, self.pending, reply) {
            (Stage::Done, _, _) => self.field.ledger(),
            (_, Some((p, power)), Some(code)) => self.field.ledger().apply(
                Probe { cell: p, power: power as int, reply: code as int },
            ),
            _ => self.field.ledger(),
        }
    }

    /// Whether the machine stands behind the last cell of a network that
    /// brings every house to a source, with the cells on the paths of that
    /// network as its work.
    pub open spec fn dug_out(&self) -> bool {
        &&& self.job == self.jobs@.len()
        &&& self.field.charted()
        &&& self.field.serves(&self.network)
        &&& self.jobs@ == distinct(cells_of(self.field.dist_path@, self.network.edges@))
    }

    /// Whether two machines have the same scenario and the same budget.
    pub open spec fn same_task(&self, other: &Solver) -> bool {
        &&& self.n == other.n
        &&& self.w == other.w
        &&& self.k == other.k
        &&& self.c == other.c
        &&& self.sources == other.sources
        &&& self.houses == other.houses
        &&& self.terminals == other.terminals
        &&& self.limit == other.limit
        &&& self.rounds == other.rounds
    }

    /// Whether two machines are at the same place of the same work.
    pub open spec fn same_place(&self, other: &Solver) -> bool {
        &&& self.stage == other.stage
        &&& self.anchors == other.anchors
        &&& self.jobs == other.jobs
        &&& self.job == other.job
        &&& self.ramp == other.ramp
        &&& self.step == other.step
        &&& self.init_state == other.init_state
        &&& self.network == other.network
    }

    /// Whether this stage is one of the two surveys, in which the estimate
    /// of a finished cell becomes what is read off it.
    pub open spec fn surveys(&self) -> bool {
        self.stage is Seeding || self.stage is Refining
    }

    /// Where the hunt for the next probe ends, from where the machine is.
    pub open spec fn hunted(&self) -> Option<(int, int, Seq<i32>)> {
        hunt(
            &self.field,
            self.jobs@,
            self.terminals@,
            stage_level(self.stage),
            self.job as int,
            self.ramp@,
            self.step as int,
        )
    }

    /// The next probe of this stage, if there is one: the first step with
    /// an intensity that can be recorded, in the run of the first cell from
    /// the present job on that is not broken and has such a step.
    pub open spec fn find(&self) -> Option<(Cell, i32)> {
        match self.hunted() {
            Some((j, i, run)) => Some((self.jobs@[j], run[i])),
            None => None,
        }
    }

    /// Whether `mid` is this machine after the answer `code` to the probe
    /// that waited has been recorded.
    pub open spec fn recorded(&self, code: usize, mid: &Solver) -> bool {
        &&& self.pending matches Some((p, power))
        &&& mid.pending is None
        &&& mid.same_task(self)
        &&& mid.same_place(self)
        &&& same_plan(&mid.field, &self.field)
        &&& mid.field.ledger() == self.field.ledger().apply(
            Probe { cell: p, power: power as int, reply: code as int },
        )
    }

    /// Whether `after` is this machine after the hunt for the next probe:
    /// it stands at the step after the probe found, or behind the last job;
    /// in the two surveys every cell passed has the estimate read off it.
    pub open spec fn scanned(&self, after: &Solver) -> bool {
        &&& after.pending is None
        &&& after.same_task(self)
        &&& after.stage == self.stage
        &&& after.anchors == self.anchors
        &&& after.jobs == self.jobs
        &&& after.init_state == self.init_state
        &&& after.network == self.network
        &&& same_but_guess(&after.field, &self.field)
        &&& match self.hunted() {
            Some((j, i, run)) => after.job == j && after.step == i + 1 && after.ramp@ == run,
            None => after.job == self.jobs@.len(),
        }
        &&& self.job <= after.job <= self.jobs@.len()
        &&& forall|p: Cell|
            on_grid(p, self.n) ==> #[trigger] after.field.guess_at(p) == (if self.surveys()
                && self.jobs@.subrange(self.job as int, after.job as int).contains(p) {
                self.field.reading_spec(p, stage_level(self.stage), self.terminals@)
            } else {
                self.field.guess_at(p)
            })
    }

    /// Whether `after` is this machine asking for `probe`.
    pub open spec fn asking(&self, after: &Solver, probe: (Cell, i32)) -> bool {
        &&& after.pending == Some(probe)
        &&& after.same_task(self)
        &&& after.same_place(self)
        &&& after.field == self.field
    }

    /// Whether `after` is this machine with the run ended.
    pub open spec fn closing(&self, after: &Solver) -> bool {
        &&& after.pending is None
        &&& after.stage is Done
        &&& after.same_task(self)
        &&& after.anchors == self.anchors
        &&& after.jobs == self.jobs
        &&& after.job == self.job
        &&& after.ramp == self.ramp
        &&& after.step == self.step
        &&& after.init_state == self.init_state
        &&& after.network == self.network
        &&& after.field == self.field
    }

    /// Whether `after` is this machine at the start of a stage with the work
    /// `after.jobs`: at the first step of the run of the first job.
    pub open spec fn begun(&self, after: &Solver) -> bool {
        &&& after.pending is None
        &&& after.same_task(self)
        &&& after.anchors == self.anchors
        &&& same_books(&after.field, &self.field)
        &&& all_on_grid(after.jobs@, self.n)
        &&& after.job == 0
        &&& after.step == 0
        &&& after.ramp@ == run_at(
            &after.field,
            after.jobs@,
            after.terminals@,
            stage_level(after.stage),
            0,
        )
    }

    /// Whether `after` is this machine after the first survey has ended: the
    /// estimates of the surveyed cells are spread over the field and
    /// smoothed, the table of legs is up to date, the first network is built
    /// over the houses and the sources, and the landmarks near it are the
    /// work of the second survey.
    pub open spec fn to_refining(&self, after: &Solver) -> bool {
        &&& self.stage is Seeding
        &&& after.stage is Refining
        &&& self.begun(after)
        &&& after.network == self.network
        &&& after.field.estimates() == smooth_times(
            spread(self.field.estimates(), self.anchors@, self.n),
            self.n,
            SMOOTHING_ROUNDS as nat,
        )
        &&& after.field.chart_fresh()
        &&& after.field.built(after.field.terminal_keys(), after.init_state)
        &&& after.field.serves(&after.init_state)
        &&& after.jobs@ == within_reach(
            after.field.sampling@,
            cells_of(after.field.dist_path@, after.init_state.edges@),
            REFINE_RADIUS as int,
        )
    }

    /// Whether `after` is this machine after the second survey has ended:
    /// the estimates of the landmarks are spread and smoothed, the table of
    /// legs is up to date, and the network that the search has chosen brings
    /// every house to a source, scores no higher than the network built
    /// afresh over the houses and the sources, and gives the cells to dig.
    pub open spec fn to_committing(&self, after: &Solver) -> bool {
        &&& self.stage is Refining
        &&& after.stage is Committing
        &&& self.begun(after)
        &&& after.init_state == self.init_state
        &&& after.field.estimates() == smooth_times(
            spread(self.field.estimates(), self.field.sampling@, self.n),
            self.n,
            SMOOTHING_ROUNDS as nat,
        )
        &&& after.field.chart_fresh()
        &&& after.field.serves(&after.network)
        &&& exists|fresh: State| #[trigger]
            after.field.built(after.field.terminal_keys(), fresh) && after.field.score_spec(
                &after.network,
            ) <= edge_total(after.field.dist_path@, fresh.edges@) && ((after.network.keys@
                == fresh.keys@ && after.network.edges@ == fresh.edges@) || (after.network.keys@
                == self.init_state.keys@ && after.network.edges@ == self.init_state.edges@)
                || after.field.made(after.network.keys@, after.network.edges@))
        &&& after.jobs@ == distinct(cells_of(after.field.dist_path@, after.network.edges@))
    }

    /// Whether `after` and `r` are what the last stage comes to from here:
    /// the next probe is asked for, or, with no probe left, the run ends.
    pub open spec fn dug(&self, after: &Solver, r: Result<Action, Failure>) -> bool {
        exists|s: Solver| #[trigger]
            self.scanned(&s) && match self.find() {
                Some(p) => s.asking(after, p) && r == Ok::<Action, Failure>(
                    Action::Probe { y: p.0.0, x: p.0.1, power: p.1 },
                ),
                None => s.closing(after) && r == Ok::<Action, Failure>(Action::Finished),
            }
    }

    /// Whether `after` and `r` are what the second survey comes to from
    /// here: the next probe is asked for, or, with no probe left, the survey
    /// ends and the last stage goes on.
    pub open spec fn refined(&self, after: &Solver, r: Result<Action, Failure>) -> bool {
        exists|s: Solver| #[trigger]
            self.scanned(&s) && match self.find() {
                Some(p) => s.asking(after, p) && r == Ok::<Action, Failure>(
                    Action::Probe { y: p.0.0, x: p.0.1, power: p.1 },
                ),
                None => exists|t: Solver| #[trigger] s.to_committing(&t) && t.dug(after, r),
            }
    }

    /// Whether `after` and `r` are what the first survey comes to from here:
    /// the next probe is asked for, or, with no probe left, the survey ends
    /// and the second survey goes on.
    pub open spec fn seeded(&self, after: &Solver, r: Result<Action, Failure>) -> bool {
        exists|s: Solver| #[trigger]
            self.scanned(&s) && match self.find() {
                Some(p) => s.asking(after, p) && r == Ok::<Action, Failure>(
                    Action::Probe { y: p.0.0, x: p.0.1, power: p.1 },
                ),
                None => exists|t: Solver| #[trigger] s.to_refining(&t) && t.refined(after, r),
            }
    }

    /// Whether `after` and `r` are what the run comes to from here, with no
    /// probe waiting.
    pub open spec fn advanced(&self, after: &Solver, r: Result<Action, Failure>) -> bool {
        match self.stage {
            Stage::Seeding => self.seeded(after, r),
            Stage::Refining => self.refined(after, r),
            Stage::Committing => self.dug(after, r),
            Stage::Done => false,
        }
    }

    /// Whether `after` and `r` are what one step of the run comes to, given
    /// the answer `reply`. A run that is over stays as it is. A probe that
    /// waits is asked for again if no answer comes; else it is recorded with
    /// its answer, and the run ends if the answer says that the session is
    /// over or is none that the protocol allows. In every other case the run
    /// goes on to the next probe.
    pub open spec fn stepped(
        &self,
        reply: Option<usize>,
        after: &Solver,
        r: Result<Action, Failure>,
    ) -> bool {
        if self.stage is Done {
            r == Ok::<Action, Failure>(Action::Finished) && *after == *self
        } else {
            match (self.pending, reply) {
                (Some((p, power)), None) => *after == *self && r == Ok::<Action, Failure>(
                    Action::Probe { y: p.0, x: p.1, power },
                ),
                (Some(_), Some(code)) => exists|mid: Solver| #[trigger]
                    self.recorded(code, &mid) && (if code > 2 {
                        mid.closing(after) && r == Err::<Action, Failure>(Failure::Protocol(code))
                    } else if code == 2 {
                        mid.closing(after) && r == Ok::<Action, Failure>(Action::Finished)
                    } else {
                        mid.advanced(after, r)
                    }),
                (None, _) => self.advanced(after, r),
            }
        }
    }

    /// The machine for a scenario, with the first survey planned: a grid of
    /// side `n`, the fee `c`, and the cells of the sources and the houses.
    /// The landmarks are set up, the cells of the plan are the work of the
    /// first survey, and the machine stands at the first step of the run of
    /// the first of them.
    pub fn new(n: usize, w: usize, k: usize, c: usize, sources: Vec<Cell>, houses: Vec<Cell>) -> (s:
        Self)
        requires
            2 <= n < SIDE_LIMIT,
            c <= FEE_LIMIT,
            sources@.len() > 0,
            houses@.len() > 0,
            all_on_grid(sources@, n),
            all_on_grid(houses@, n),
        ensures
            s.wf(),
            s.stage is Seeding,
            s.pending is None,
            s.n == n,
            s.w == w,
            s.k == k,
            s.c == c,
            s.sources@ == sources@,
            s.houses@ == houses@,
            s.terminals@ == sources@ + houses@,
            s.limit == TIME_LIMIT,
            s.rounds == usize::MAX,
            s.field.total_cost == 0,
            forall|p: Cell| on_grid(p, n) ==> !s.field.broken_at(p) && s.field.real_at(p) == 0,
            s.field.sampling@ == sources@ + houses@ + cells_at(lattice(n, standard())),
            s.jobs@ == plan_upto(
                sources@,
                houses@,
                lattice(n, standard()),
                lattice(n, standard()).len() as int,
            ).jobs,
            s.anchors@ == plan_upto(
                sources@,
                houses@,
                lattice(n, standard()),
                lattice(n, standard()).len() as int,
            ).anchors,
            forall|p: Cell|
                on_grid(p, n) ==> #[trigger] s.field.guess_at(p) == (if plan_upto(
                    sources@,
                    houses@,
                    lattice(n, standard()),
                    lattice(n, standard()).len() as int,
                ).hard.contains(p) {
                    HARD_ESTIMATE as int
                } else {
                    0
                }),
            s.job == 0,
            s.step == 0,
            s.ramp@ == run_at(&s.field, s.jobs@, s.terminals@, SURVEY_POWER as int, 0),
    {
        let mut field = Field::new(n, w, k, c);
        let plan = field.guess_field_init(&sources, &houses);
        let mut terminals: Vec<Cell> = copy_cells(&sources);
        let mut i: usize = 0;
        while i < houses.len()
            invariant
                i <= houses@.len(),
                terminals@ == sources@ + houses@.subrange(0, i as int),
            decreases houses@.len() - i,
        {
            terminals.push(houses[i]);
            assert(terminals@ =~= sources@ + houses@.subrange(0, i + 1));
            i += 1;
        }
        assert(houses@.subrange(0, i as int) =~= houses@);
        let ramp: Vec<i32> = if plan.jobs.len() > 0 {
            let first: Cell = plan.jobs[0];
            assert(on_grid(plan.jobs@[0], n));
            field.destruct(first.0, first.1, SURVEY_POWER, &terminals)
        } else {
            Vec::new()
        };
        let empty_keys: Vec<usize> = Vec::new();
        let empty_edges: Vec<(usize, usize)> = Vec::new();
        let init_state = State::new(&empty_keys, &empty_edges);
        let network = State::new(&empty_keys, &empty_edges);
        Solver {
            n,
            w,
            k,
            c,
            sources,
            houses,
            terminals,
            field,
            stage: Stage::Seeding,
            anchors: plan.anchors,
            jobs: plan.jobs,
            job: 0,
            ramp,
            step: 0,
            pending: None,
            init_state,
            network,
            limit: TIME_LIMIT,
            rounds: usize::MAX,
            dice: Dice::of_thread(),
        }
    }

    /// The same machine with random numbers that come from `seed`: with the
    /// same seed, the same answers and the same number of rounds of the
    /// search, a run asks for the same probes again.
    pub fn with_seed(self, seed: u64) -> (s: Self)
        requires
            self.wf(),
        ensures
            s.wf(),
            s.same_task(&self),
            s.same_place(&self),
            s.pending == self.pending,
            s.field == self.field,
    {
        let mut s = self;
        s.dice = Dice::of_seed(seed);
        s
    }

    /// The level that the probes of the stage stay below.
    fn level(&self) -> (lim: i32)
        ensures
            lim == stage_level(self.stage),
    {
        match self.stage {
            Stage::Seeding => SURVEY_POWER,
            Stage::Refining => REFINE_POWER,
            _ => FULL_POWER,
        }
    }

    /// The next probe of this stage, if there is one. A cell that is broken
    /// or whose probes are used up is finished: in the two surveys its
    /// estimate becomes what is read off it.
    fn next_probe(&mut self) -> (r: Option<(Cell, i32)>)
        requires
            old(self).wf(),
            old(self).pending is None,
            !(old(self).stage is Done),
        ensures
            final(self).wf(),
            old(self).scanned(final(self)),
            r == old(self).find(),
            r matches Some((p, power)) ==> final(self).job < final(self).jobs@.len() && p
                == final(self).jobs@[final(self).job as int] && final(self).field.probe_fits(
                p,
                power as int,
            ) && final(self).asks((p, power)),
            r is None ==> final(self).job == final(self).jobs@.len(),
    {
        let lim: i32 = self.level();
        let ghost target = self.hunted();
        proof {
            lemma_hunt_found(
                &self.field,
                self.jobs@,
                self.terminals@,
                lim as int,
                self.job as int,
                self.ramp@,
                self.step as int,
            );
            assert(self.jobs@.subrange(self.job as int, self.job as int) =~= Seq::<Cell>::empty());
        }
        while self.job < self.jobs.len()
            invariant
                self.wf(),
                self.pending is None,
                self.stage == old(self).stage,
                !(self.stage is Done),
                lim == stage_level(self.stage),
                self.same_task(old(self)),
                self.anchors == old(self).anchors,
                self.jobs == old(self).jobs,
                self.init_state == old(self).init_state,
                self.network == old(self).network,
                same_but_guess(&self.field, &old(self).field),
                old(self).job <= self.job <= self.jobs@.len(),
                self.hunted() == target,
                target == old(self).hunted(),
                forall|p: Cell|
                    on_grid(p, self.n) ==> #[trigger] self.field.guess_at(p) == (if old(
                        self,
                    ).surveys() && self.jobs@.subrange(
                        old(self).job as int,
                        self.job as int,
                    ).contains(p) {
                        old(self).field.reading_spec(p, lim as int, self.terminals@)
                    } else {
                        old(self).field.guess_at(p)
                    }),
            decreases self.jobs@.len() - self.job, self.ramp@.len() - self.step,
        {
            let cell: Cell = self.jobs[self.job];
            assert(on_grid(self.jobs@[self.job as int], self.n));
            if self.step < self.ramp.len() && !self.field.is_broken_at(cell.0, cell.1) {
                let power: i32 = self.ramp[self.step];
                self.step = self.step + 1;
                if self.field.can_probe(cell.0, cell.1, power) {
                    return Some((cell, power));
                }
            } else {
                let ghost before = self.field;
                let ghost passed = self.jobs@.subrange(old(self).job as int, self.job as int);
                match self.stage {
                    Stage::Seeding | Stage::Refining => {
                        let v: i32 = self.field.reading(cell.0, cell.1, lim, &self.terminals);
                        self.field.set_estimate(cell.0, cell.1, v);
                    },
                    _ => {},
                }
                self.job = self.job + 1;
                self.step = 0;
                if self.job < self.jobs.len() {
                    let next: Cell = self.jobs[self.job];
                    assert(on_grid(self.jobs@[self.job as int], self.n));
                    self.ramp = self.field.destruct(next.0, next.1, lim, &self.terminals);
                } else {
                    self.ramp = Vec::new();
                }
                proof {
                    if self.job < self.jobs@.len() {
                        before.lemma_ramp_same(
                            &self.field,
                            self.jobs@[self.job as int],
                            lim as int,
                            self.terminals@,
                        );
                    }
                    lemma_hunt_same(
                        &before,
                        &self.field,
                        self.jobs@,
                        self.terminals@,
                        lim as int,
                        self.job as int,
                        self.ramp@,
                        0,
                    );
                    assert(self.ramp@ =~= run_at(
                        &before,
                        self.jobs@,
                        self.terminals@,
                        lim as int,
                        self.job as int,
                    ));
                    let more = self.jobs@.subrange(old(self).job as int, self.job as int);
                    assert(more =~= passed.push(cell));
                    lemma_contains_push(passed, cell);
                    assert forall|p: Cell| on_grid(p, self.n) implies #[trigger] self.field.guess_at(
                        p,
                    ) == (if old(self).surveys() && more.contains(p) {
                        old(self).field.reading_spec(p, lim as int, self.terminals@)
                    } else {
                        old(self).field.guess_at(p)
                    }) by {
                        assert(before.guess_at(p) == (if old(self).surveys() && passed.contains(p) {
                            old(self).field.reading_spec(p, lim as int, self.terminals@)
                        } else {
                            old(self).field.guess_at(p)
                        }));
                        assert(before.reading_spec(cell, lim as int, self.terminals@) == old(
                            self,
                        ).field.reading_spec(cell, lim as int, self.terminals@));
                        if old(self).surveys() {
                            if p != cell {
                                assert(self.field.guess_at(p) == before.guess_at(p));
                            }
                        } else {
                            assert(self.field.guess_at(p) == before.guess_at(p));
                        }
                    }
                }
            }
        }
        None
    }

    /// Takes up the cells `jobs` as the work of the stage `stage`.
    fn take_up(&mut self, jobs: Vec<Cell>, stage: Stage)
        requires
            old(self).grounded(),
            old(self).pending is None,
            old(self).field.sampling@.len() > 0,
            old(self).field.sources_idx@.len() > 0,
            all_on_grid(jobs@, old(self).n),
            stage is Refining || stage is Committing,
            old(self).field.charted(),
            stage is Refining ==> old(self).field.serves(&old(self).init_state) && jobs@
                == within_reach(
                old(self).field.sampling@,
                cells_of(old(self).field.dist_path@, old(self).init_state.edges@),
                REFINE_RADIUS as int,
            ),
            stage is Committing ==> old(self).field.serves(&old(self).network) && jobs@
                == distinct(cells_of(old(self).field.dist_path@, old(self).network.edges@)),
        ensures
            final(self).wf(),
            final(self).stage == stage,
            old(self).begun(final(self)),
            final(self).jobs@ == jobs@,
            final(self).field == old(self).field,
            final(self).init_state == old(self).init_state,
            final(self).network == old(self).network,
    {
        self.stage = stage;
        self.jobs = jobs;
        self.job = 0;
        self.step = 0;
        let lim: i32 = self.level();
        if self.jobs.len() > 0 {
            let first: Cell = self.jobs[0];
            assert(on_grid(self.jobs@[0], self.n));
            self.ramp = self.field.destruct(first.0, first.1, lim, &self.terminals);
        } else {
            self.ramp = Vec::new();
        }
    }

    /// Ends the first survey.
    #[verifier::rlimit(60)]
    fn begin_refining(&mut self)
        requires
            old(self).wf(),
            old(self).stage is Seeding,
            old(self).pending is None,
            old(self).job == old(self).jobs@.len(),
        ensures
            final(self).wf(),
            old(self).to_refining(final(self)),
    {
        self.field.fill_nearest(&self.anchors);
        self.field.smooth_rounds(SMOOTHING_ROUNDS);
        self.field.rebuild_chart();
        self.init_state = self.field.generate_init_state();
        let jobs: Vec<Cell> = self.field.guess_field_update(&self.init_state);
        self.take_up(jobs, Stage::Refining);
    }

    /// Ends the second survey and has the network chosen.
    #[verifier::rlimit(60)]
    fn begin_committing(&mut self, timer: &Timer)
        requires
            old(self).wf(),
            old(self).stage is Refining,
            old(self).pending is None,
            old(self).job == old(self).jobs@.len(),
        ensures
            final(self).wf(),
            old(self).to_committing(final(self)),
    {
        let landmarks: Vec<Cell> = copy_cells(&self.field.sampling);
        self.field.fill_nearest(&landmarks);
        self.field.smooth_rounds(SMOOTHING_ROUNDS);
        self.field.rebuild_chart();
        let current: State = self.field.generate_init_state();
        let ghost fresh = current;
        self.network = self.field.refine(
            &self.init_state,
            current,
            timer,
            self.limit,
            self.rounds,
            &mut self.dice,
        );
        let cells: Vec<Cell> = self.field.done(&self.network);
        self.take_up(cells, Stage::Committing);
        proof {
            assert(self.field.built(self.field.terminal_keys(), fresh));
        }
    }

    /// Goes on in the last stage.
    fn dig(&mut self) -> (r: Result<Action, Failure>)
        requires
            old(self).wf(),
            old(self).stage is Committing,
            old(self).pending is None,
        ensures
            final(self).wf(),
            old(self).dug(final(self), r),
            final(self).field.ledger() == old(self).field.ledger(),
            final(self).same_task(old(self)),
            r matches Ok(Action::Finished) ==> final(self).stage is Done && final(self).dug_out(),
            r matches Ok(Action::Probe { y, x, power }) ==> final(self).pending == Some(
                ((y, x), power),
            ),
            r is Ok,
    {
        let found = self.next_probe();
        let ghost s = *self;
        match found {
            Some((p, power)) => {
                self.pending = Some((p, power));
                assert(old(self).scanned(&s));
                Ok(Action::Probe { y: p.0, x: p.1, power })
            },
            None => {
                self.stage = Stage::Done;
                assert(old(self).scanned(&s));
                Ok(Action::Finished)
            },
        }
    }

    /// Goes on in the second survey.
    fn refine_on(&mut self, timer: &Timer) -> (r: Result<Action, Failure>)
        requires
            old(self).wf(),
            old(self).stage is Refining,
            old(self).pending is None,
        ensures
            final(self).wf(),
            old(self).refined(final(self), r),
            final(self).field.ledger() == old(self).field.ledger(),
            final(self).same_task(old(self)),
            r matches Ok(Action::Finished) ==> final(self).stage is Done && final(self).dug_out(),
            r matches Ok(Action::Probe { y, x, power }) ==> final(self).pending == Some(
                ((y, x), power),
            ),
            r is Ok,
    {
        let found = self.next_probe();
        let ghost s = *self;
        match found {
            Some((p, power)) => {
                self.pending = Some((p, power));
                assert(old(self).scanned(&s));
                Ok(Action::Probe { y: p.0, x: p.1, power })
            },
            None => {
                self.begin_committing(timer);
                let ghost t = *self;
                let r = self.dig();
                assert(old(self).scanned(&s));
                assert(s.to_committing(&t));
                r
            },
        }
    }

    /// Goes on in the first survey.
    fn seed_on(&mut self, timer: &Timer) -> (r: Result<Action, Failure>)
        requires
            old(self).wf(),
            old(self).stage is Seeding,
            old(self).pending is None,
        ensures
            final(self).wf(),
            old(self).seeded(final(self), r),
            final(self).field.ledger() == old(self).field.ledger(),
            final(self).same_task(old(self)),
            r matches Ok(Action::Finished) ==> final(self).stage is Done && final(self).dug_out(),
            r matches Ok(Action::Probe { y, x, power }) ==> final(self).pending == Some(
                ((y, x), power),
            ),
            r is Ok,
    {
        let found = self.next_probe();
        let ghost s = *self;
        match found {
            Some((p, power)) => {
                self.pending = Some((p, power));
                assert(old(self).scanned(&s));
                Ok(Action::Probe { y: p.0, x: p.1, power })
            },
            None => {
                self.begin_refining();
                let ghost t = *self;
                let r = self.refine_on(timer);
                assert(old(self).scanned(&s));
                assert(s.to_refining(&t));
                r
            },
        }
    }

    /// Goes on from where the machine is, with no probe waiting.
    fn advance(&mut self, timer: &Timer) -> (r: Result<Action, Failure>)
        requires
            old(self).wf(),
            !(old(self).stage is Done),
            old(self).pending is None,
        ensures
            final(self).wf(),
            old(self).advanced(final(self), r),
            final(self).field.ledger() == old(self).field.ledger(),
            final(self).same_task(old(self)),
            r matches Ok(Action::Finished) ==> final(self).stage is Done && final(self).dug_out(),
            r matches Ok(Action::Probe { y, x, power }) ==> final(self).pending == Some(
                ((y, x), power),
            ),
            r is Ok,
    {
        match self.stage {
            Stage::Seeding => self.seed_on(timer),
            Stage::Refining => self.refine_on(timer),
            _ => self.dig(),
        }
    }

    /// One step of the run. `reply` is the answer to the probe that the
    /// call before asked for. That probe is recorded with its answer; then
    /// the machine goes on to the next probe, ending the stages on its way,
    /// and asks for it. The run is over when the answer says so, when an
    /// answer breaks the protocol, or when the last cell of the network has
    /// been dealt with; from then on every call says so and changes nothing.
    /// A call without an answer while a probe waits asks for that probe
    /// again; an answer while no probe waits is ignored. A step of a cell's
    /// run of probes that has no intensity, or for which the counters have
    /// no room, is passed over.
    pub fn solve(&mut self, reply: Option<usize>, timer: &Timer) -> (r: Result<Action, Failure>)
        requires
            old(self).wf(),
        ensures
            final(self).wf(),
            old(self).stepped(reply, final(self), r),
            final(self).same_task(old(self)),
            final(self).field.ledger() == old(self).ledger_after(reply),
            r matches Ok(Action::Probe { y, x, power }) ==> final(self).pending == Some(
                ((y, x), power),
            ) && on_grid((y, x), final(self).n) && final(self).field.probe_fits(
                (y, x),
                power as int,
            ) && final(self).asks(((y, x), power)),
            r matches Ok(Action::Finished) ==> final(self).stage is Done && final(self).pending is None,
            r matches Ok(Action::Finished) ==> old(self).stage is Done || (old(self).pending is Some
                && reply == Some(2usize)) || final(self).dug_out(),
            r is Err ==> final(self).stage is Done && final(self).pending is None,
            r matches Err(Failure::Protocol(code)) ==> !(old(self).stage is Done) && old(
                self,
            ).pending is Some && reply == Some(code) && code > 2,
            stage_rank(old(self).stage) <= stage_rank(final(self).stage),
    {
        match self.stage {
            Stage::Done => {
                return Ok(Action::Finished);
            },
            _ => {},
        }
        match self.pending {
            Some((p, power)) => {
                match reply {
                    None => {
                        return Ok(Action::Probe { y: p.0, x: p.1, power });
                    },
                    Some(code) => {
                        assert(on_grid(self.jobs@[self.job as int], self.n));
                        let ghost before = self.field;
                        let res = self.field.query(p.0, p.1, power, code);
                        self.pending = None;
                        proof {
                            if !self.field.broken_at(p) {
                                self.field.lemma_ramp_same(
                                    &before,
                                    p,
                                    stage_level(self.stage),
                                    self.terminals@,
                                );
                            }
                        }
                        let ghost mid = *self;
                        assert(old(self).recorded(code, &mid));
                        match res {
                            Err(v) => {
                                self.stage = Stage::Done;
                                return Err(Failure::Protocol(v.code));
                            },
                            Ok(Response::SessionEnded) => {
                                self.stage = Stage::Done;
                                return Ok(Action::Finished);
                            },
                            Ok(_) => {},
                        }
                        let r = self.advance(timer);
                        assert(mid.advanced(self, r));
                        return r;
                    },
                }
            },
            None => {},
        }
        self.advance(timer)
    }
}

} // verus!
