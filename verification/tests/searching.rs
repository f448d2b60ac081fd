use excavation::field::Field;
use excavation::network::State;
use excavation::search::{add_key, contains_id, erase_key, rand, Dice, Timer};

fn charted(n: usize, sources: Vec<(usize, usize)>, houses: Vec<(usize, usize)>) -> Field {
    let mut f = Field::new(n, sources.len(), houses.len(), 1);
    let _ = f.guess_field_init(&sources, &houses);
    f.rebuild_chart();
    f
}

#[test]
fn random_numbers_stay_in_their_range() {
    assert_eq!(rand(3, 4), 3);
    let mut seen = [false; 5];
    for _ in 0..2000 {
        let v = rand(10, 15);
        assert!((10..15).contains(&v));
        seen[v - 10] = true;
    }
    assert!(seen.iter().all(|s| *s));
}

#[test]
fn a_clock_tells_whether_time_is_left() {
    let t = Timer::new();
    assert!(!t.is_timeout(0));
    assert!(t.is_timeout(u128::MAX));
    assert!(t.is_timeout(60_000));
}

#[test]
fn a_landmark_becomes_a_key_only_once() {
    let mut keys = vec![3, 1];
    add_key(&mut keys, 5);
    assert_eq!(keys, vec![3, 1, 5]);
    add_key(&mut keys, 1);
    assert_eq!(keys, vec![3, 1, 5]);
    assert!(contains_id(&keys, 5));
    assert!(!contains_id(&keys, 0));
}

#[test]
fn houses_and_sources_cannot_be_dropped() {
    let houses = vec![1, 2];
    let sources = vec![0];
    let mut keys = vec![1, 2, 0, 7, 4];
    erase_key(&mut keys, 0, &houses, &sources);
    erase_key(&mut keys, 1, &houses, &sources);
    erase_key(&mut keys, 2, &houses, &sources);
    assert_eq!(keys, vec![1, 2, 0, 7, 4]);
    erase_key(&mut keys, 3, &houses, &sources);
    assert_eq!(keys, vec![1, 2, 0, 4]);
    erase_key(&mut keys, 3, &houses, &sources);
    assert_eq!(keys, vec![1, 2, 0]);
}

#[test]
fn random_changes_keep_the_terminals() {
    let f = charted(30, vec![(0, 0)], vec![(29, 29), (5, 20)]);
    let mut keys = vec![1, 2, 0];
    let mut dice = Dice::of_thread();
    for _ in 0..200 {
        f.state_add_key(&mut keys, &mut dice);
        f.state_erase_key(&mut keys, &mut dice);
        assert!(keys.contains(&0) && keys.contains(&1) && keys.contains(&2));
        assert!(keys.iter().all(|k| *k < f.sampling.len()));
        for (i, k) in keys.iter().enumerate() {
            assert!(!keys[..i].contains(k));
        }
    }
}

#[test]
fn a_climb_gives_a_network_that_serves_every_house() {
    let f = charted(30, vec![(0, 0)], vec![(29, 29), (5, 20)]);
    let mut s = f.generate_init_state();
    let mut dice = Dice::of_seed(7);
    for _ in 0..50 {
        let t = f.climb(&s, &mut dice);
        assert!(t.check(&f.sources_idx, &f.houses_idx, f.sampling.len()));
        assert!(t.keys.contains(&0) && t.keys.contains(&1) && t.keys.contains(&2));
        assert!((s.keys.len() as i64 - t.keys.len() as i64).abs() <= 2);
        assert_eq!(t.score, None);
        s = t;
    }
}

#[test]
fn only_a_lower_score_is_accepted() {
    let f = charted(5, vec![(0, 0)], vec![(4, 4), (0, 4)]);
    let good = State::new(&vec![1, 2, 0], &vec![(1, 2), (2, 0)]);
    let bad = State::new(&vec![1, 2, 0], &vec![(1, 0), (2, 0)]);
    let r = f.accept(bad.clone(), good.clone());
    assert_eq!(r.edges, good.edges);
    assert_eq!(r.score, Some(8));
    let r = f.accept(good.clone(), bad.clone());
    assert_eq!(r.edges, good.edges);
    let again = State::new(&vec![0, 1, 2], &vec![(2, 0), (1, 2)]);
    let r = f.accept(good.clone(), again);
    assert_eq!(r.keys, good.keys);
    assert_eq!(r.edges, good.edges);
}

#[test]
fn the_search_never_makes_the_network_worse() {
    let mut f = Field::new(40, 1, 3, 1);
    let _ = f.guess_field_init(&vec![(20, 20)], &vec![(0, 0), (39, 39), (3, 36)]);
    for y in 0..40 {
        for x in 0..40 {
            f.set_estimate(y, x, (((y * 7 + x * 13) % 50) + 1) as i32);
        }
    }
    f.rebuild_chart();
    let first = f.generate_init_state();
    let mut start = first.clone();
    let before = f.state_score(&mut start);
    let timer = Timer::new();
    let mut dice = Dice::of_thread();
    let mut best = start;
    let mut last = before;
    for _ in 0..4 {
        let keys = best.keys.clone();
        let edges = best.edges.clone();
        best = f.refine(&first, best, &timer, 10_000, 2, &mut dice);
        let now = f.state_score(&mut best);
        assert!(now <= last);
        assert!(now < last || (best.keys == keys && best.edges == edges));
        last = now;
        assert!(best.check(&f.sources_idx, &f.houses_idx, f.sampling.len()));
    }
    let hill = f.hill(&first, 20, &mut dice);
    let mut hill = hill;
    assert!(f.state_score(&mut hill) <= before);
}

#[test]
fn without_time_the_search_returns_what_it_was_given() {
    let f = charted(30, vec![(0, 0)], vec![(29, 29)]);
    let first = f.generate_init_state();
    let timer = Timer::new();
    let mut dice = Dice::of_seed(1);
    let r = f.refine(&first, first.clone(), &timer, 0, 100, &mut dice);
    assert_eq!(r.keys, first.keys);
    assert_eq!(r.edges, first.edges);
    let r = f.refine(&first, first.clone(), &timer, 60_000, 0, &mut dice);
    assert_eq!(r.keys, first.keys);
    assert_eq!(r.edges, first.edges);
}

#[test]
fn the_same_seed_gives_the_same_numbers() {
    let mut a = Dice::of_seed(42);
    let mut b = Dice::of_seed(42);
    let mut c = Dice::of_seed(43);
    let mut same = true;
    for _ in 0..200 {
        let x = a.roll(0, 1000);
        assert!(x < 1000);
        assert_eq!(x, b.roll(0, 1000));
        same = same && x == c.roll(0, 1000);
    }
    assert!(!same);
    assert_eq!(a.roll(5, 6), 5);
}

#[test]
fn the_same_seed_gives_the_same_search() {
    let mut f = Field::new(40, 1, 3, 1);
    let _ = f.guess_field_init(&vec![(20, 20)], &vec![(0, 0), (39, 39), (3, 36)]);
    for y in 0..40 {
        for x in 0..40 {
            f.set_estimate(y, x, (((y * 7 + x * 13) % 50) + 1) as i32);
        }
    }
    f.rebuild_chart();
    let first = f.generate_init_state();
    let timer = Timer::new();
    let mut found = Vec::new();
    for _ in 0..2 {
        let mut dice = Dice::of_seed(2023);
        let r = f.refine(&first, first.clone(), &timer, 600_000, 3, &mut dice);
        found.push((r.keys, r.edges));
    }
    assert_eq!(found[0], found[1]);
}
