use excavation::search::Timer;
use excavation::solver::{Action, Failure, Solver, Stage};

struct Ground {
    hardness: Vec<Vec<i32>>,
    taken: Vec<Vec<i32>>,
    probes: usize,
    power: usize,
}

impl Ground {
    fn new(hardness: Vec<Vec<i32>>) -> Self {
        let n = hardness.len();
        Ground { hardness, taken: vec![vec![0; n]; n], probes: 0, power: 0 }
    }

    fn answer(&mut self, y: usize, x: usize, power: i32) -> usize {
        assert!(power > 0);
        assert!(self.taken[y][x] < self.hardness[y][x]);
        self.taken[y][x] += power;
        self.probes += 1;
        self.power += power as usize;
        if self.taken[y][x] >= self.hardness[y][x] {
            1
        } else {
            0
        }
    }
}

fn run(solver: &mut Solver, ground: &mut Ground) -> Result<Action, Failure> {
    let timer = Timer::new();
    let mut reply = None;
    for _ in 0..1_000_000 {
        match solver.solve(reply, &timer) {
            Ok(Action::Probe { y, x, power }) => {
                reply = Some(ground.answer(y, x, power));
            }
            other => return other,
        }
    }
    panic!("the run does not end");
}

#[test]
fn one_house_one_source_on_uniform_ground() {
    let mut solver = Solver::new(5, 1, 1, 1, vec![(0, 0)], vec![(4, 4)]);
    solver.rounds = 3;
    let mut ground = Ground::new(vec![vec![100; 5]; 5]);
    assert_eq!(run(&mut solver, &mut ground), Ok(Action::Finished));
    assert!(matches!(solver.stage, Stage::Done));
    let mut broken = Vec::new();
    for y in 0..5 {
        for x in 0..5 {
            assert_eq!(solver.field.observed_at(y, x), ground.taken[y][x]);
            assert_eq!(solver.field.is_broken_at(y, x), ground.taken[y][x] >= 100);
            if solver.field.is_broken_at(y, x) {
                broken.push((y, x));
            } else {
                assert_eq!(ground.taken[y][x], 0);
            }
        }
    }
    assert_eq!(broken.len(), 9);
    assert!(broken.contains(&(0, 0)) && broken.contains(&(4, 4)));
    for &(y, x) in &broken {
        let next = broken
            .iter()
            .filter(|&&(b, a)| (b == y && a == x + 1) || (b == y + 1 && a == x))
            .count();
        assert_eq!(next, if (y, x) == (4, 4) { 0 } else { 1 });
    }
    assert_eq!(solver.field.total_cost, ground.probes + ground.power);
    assert_eq!(solver.field.observed_at(0, 0), 117);
    assert_eq!(solver.field.observed_at(4, 4), 117);
    assert_eq!(
        solver.jobs,
        vec![(0, 0), (1, 0), (2, 0), (3, 0), (4, 0), (4, 1), (4, 2), (4, 3), (4, 4)]
    );
    assert_eq!(solver.network.edges, vec![(1, 0)]);
    for &(y, x) in &solver.jobs {
        assert!(solver.field.is_broken_at(y, x));
        assert!(solver.field.observed_at(y, x) >= 100);
    }
}

#[test]
fn the_same_scenario_runs_the_same_way_twice() {
    let mut totals = Vec::new();
    let mut fields = Vec::new();
    for _ in 0..2 {
        let mut solver = Solver::new(5, 1, 1, 1, vec![(0, 0)], vec![(4, 4)]);
        solver.rounds = 2;
        let mut ground = Ground::new(vec![vec![100; 5]; 5]);
        assert_eq!(run(&mut solver, &mut ground), Ok(Action::Finished));
        totals.push(solver.field.total_cost);
        fields.push(ground.taken);
    }
    assert_eq!(totals[0], totals[1]);
    assert_eq!(fields[0], fields[1]);
}

#[test]
fn the_first_probe_is_the_first_step_on_the_first_source() {
    let mut solver = Solver::new(5, 1, 1, 1, vec![(2, 3)], vec![(4, 4)]);
    let timer = Timer::new();
    let first = solver.solve(None, &timer);
    assert_eq!(first, Ok(Action::Probe { y: 2, x: 3, power: 15 }));
    assert_eq!(solver.solve(None, &timer), first);
    assert_eq!(solver.field.total_cost, 0);
    assert_eq!(solver.solve(Some(0), &timer), Ok(Action::Probe { y: 2, x: 3, power: 5 }));
    assert_eq!(solver.field.total_cost, 16);
    assert_eq!(solver.field.observed_at(2, 3), 15);
    assert_eq!(solver.solve(Some(1), &timer), Ok(Action::Probe { y: 4, x: 4, power: 15 }));
    assert_eq!(solver.field.total_cost, 22);
    assert!(solver.field.is_broken_at(2, 3));
    assert_eq!(solver.field.estimate_at(2, 3), 20);
}

#[test]
fn an_unbroken_survey_reads_as_hard() {
    let mut solver = Solver::new(30, 1, 1, 1, vec![(0, 0)], vec![(29, 29)]);
    assert_eq!(solver.jobs, vec![(0, 0), (29, 29), (8, 8), (20, 20)]);
    let timer = Timer::new();
    let mut action = solver.solve(None, &timer);
    let mut sent = 0;
    loop {
        match action {
            Ok(Action::Probe { y: 8, x: 8, power }) => {
                sent += power;
                action = solver.solve(Some(0), &timer);
            }
            Ok(Action::Probe { y: 20, x: 20, .. }) => break,
            Ok(Action::Probe { .. }) => {
                action = solver.solve(Some(1), &timer);
            }
            other => panic!("the survey ended with {:?}", other),
        }
    }
    assert_eq!(sent, 415);
    assert_eq!(solver.field.estimate_at(8, 8), 4500);
    assert_eq!(solver.field.observed_at(8, 8), 415);
    assert!(!solver.field.is_broken_at(8, 8));
    assert!(solver.field.is_broken_at(0, 0));
    assert!(solver.field.is_broken_at(29, 29));
}

#[test]
fn terminals_are_probed_until_they_break() {
    let mut solver = Solver::new(5, 1, 1, 1, vec![(0, 0)], vec![(4, 4)]);
    let timer = Timer::new();
    let mut action = solver.solve(None, &timer);
    let mut sent = [0, 0];
    while matches!(solver.stage, Stage::Seeding) {
        match action {
            Ok(Action::Probe { y, x, power }) => {
                let i = if (y, x) == (0, 0) { 0 } else { 1 };
                assert!((y, x) == (0, 0) || (y, x) == (4, 4));
                sent[i] += power;
                let limit = if i == 0 { 3000 } else { 5000 };
                action = solver.solve(Some(if sent[i] >= limit { 1 } else { 0 }), &timer);
            }
            other => panic!("the survey ended with {:?}", other),
        }
    }
    assert_eq!(sent, [3000, 5000]);
    assert!(solver.field.is_broken_at(0, 0));
    assert!(solver.field.is_broken_at(4, 4));
}

#[test]
fn the_end_of_the_session_ends_the_run() {
    let mut solver = Solver::new(5, 1, 1, 1, vec![(0, 0)], vec![(4, 4)]);
    let timer = Timer::new();
    assert!(matches!(solver.solve(None, &timer), Ok(Action::Probe { .. })));
    assert_eq!(solver.solve(Some(2), &timer), Ok(Action::Finished));
    let total = solver.field.total_cost;
    assert_eq!(total, 16);
    assert_eq!(solver.solve(Some(0), &timer), Ok(Action::Finished));
    assert_eq!(solver.solve(None, &timer), Ok(Action::Finished));
    assert_eq!(solver.field.total_cost, total);
    assert!(matches!(solver.stage, Stage::Done));
}

#[test]
fn an_answer_outside_the_protocol_ends_the_run() {
    let mut solver = Solver::new(5, 1, 1, 1, vec![(0, 0)], vec![(4, 4)]);
    let timer = Timer::new();
    assert!(matches!(solver.solve(Some(9), &timer), Ok(Action::Probe { .. })));
    assert_eq!(solver.solve(Some(3), &timer), Err(Failure::Protocol(3)));
    assert_eq!(solver.solve(Some(0), &timer), Ok(Action::Finished));
    assert!(matches!(solver.stage, Stage::Done));
}

#[test]
fn hard_and_soft_ground_with_several_houses() {
    let n = 30;
    let mut hardness = vec![vec![0; n]; n];
    for y in 0..n {
        for x in 0..n {
            hardness[y][x] = 10 + ((y * 37 + x * 91) % 400) as i32 + if x > 15 { 2000 } else { 0 };
        }
    }
    let sources = vec![(2, 2), (27, 3)];
    let houses = vec![(5, 25), (20, 10), (28, 28), (14, 14)];
    let mut solver = Solver::new(n, 2, 4, 16, sources.clone(), houses.clone());
    solver.rounds = 5;
    solver.limit = 2_000;
    let mut ground = Ground::new(hardness.clone());
    assert_eq!(run(&mut solver, &mut ground), Ok(Action::Finished));
    assert_eq!(solver.field.total_cost, 16 * ground.probes + ground.power);
    let mut wet = vec![vec![false; n]; n];
    let mut todo = Vec::new();
    for &(y, x) in &sources {
        assert!(solver.field.is_broken_at(y, x));
        wet[y][x] = true;
        todo.push((y, x));
    }
    while let Some((y, x)) = todo.pop() {
        for (dy, dx) in [(-1i32, 0i32), (1, 0), (0, -1), (0, 1)] {
            if let Some((b, a)) = excavation::grid::convert_index(y, dy, x, dx, n) {
                if !wet[b][a] && solver.field.is_broken_at(b, a) {
                    wet[b][a] = true;
                    todo.push((b, a));
                }
            }
        }
    }
    for &(y, x) in &houses {
        assert!(wet[y][x]);
    }
    for y in 0..n {
        for x in 0..n {
            assert_eq!(solver.field.observed_at(y, x), ground.taken[y][x]);
            assert_eq!(solver.field.is_broken_at(y, x), ground.taken[y][x] >= hardness[y][x]);
        }
    }
}

fn transcript(seed: u64) -> (Vec<(usize, usize, i32)>, usize) {
    let n = 30;
    let mut hardness = vec![vec![0; n]; n];
    for y in 0..n {
        for x in 0..n {
            hardness[y][x] = 10 + ((y * 37 + x * 91) % 400) as i32 + if x > 15 { 2000 } else { 0 };
        }
    }
    let mut solver = Solver::new(n, 2, 4, 16, vec![(2, 2), (27, 3)], vec![(5, 25), (20, 10), (28, 28), (14, 14)])
        .with_seed(seed);
    solver.rounds = 4;
    solver.limit = 600_000;
    let mut ground = Ground::new(hardness);
    let timer = Timer::new();
    let mut lines = Vec::new();
    let mut reply = None;
    loop {
        match solver.solve(reply, &timer) {
            Ok(Action::Probe { y, x, power }) => {
                lines.push((y, x, power));
                reply = Some(ground.answer(y, x, power));
            }
            Ok(Action::Finished) => break,
            Err(e) => panic!("the run failed with {:?}", e),
        }
    }
    (lines, solver.field.total_cost)
}

#[test]
fn one_seed_gives_one_transcript() {
    let a = transcript(99);
    let b = transcript(99);
    assert!(!a.0.is_empty());
    assert_eq!(a, b);
}
