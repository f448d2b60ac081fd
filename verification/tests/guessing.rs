use excavation::guess::{nearest_step, Guess};

#[test]
fn a_new_guess_is_plain() {
    let g = Guess::new(3);
    assert_eq!(g.n, 3);
    assert_eq!(g.field, vec![vec![500; 3]; 3]);
    assert_eq!(g.protected, vec![vec![false; 3]; 3]);
}

#[test]
fn an_observed_cost_is_kept_and_marked() {
    let mut g = Guess::new(3);
    g.set(1, 2, 40);
    assert_eq!(g.field[1][2], 40);
    assert!(g.protected[1][2]);
    assert_eq!(g.field[2][1], 500);
    assert!(!g.protected[2][1]);
    let c = g.clone();
    assert_eq!(c.n, 3);
    assert_eq!(c.field, g.field);
    assert_eq!(c.protected, g.protected);
}

#[test]
fn the_nearest_line_is_the_earliest_of_the_nearest() {
    let step = vec![15, 45, 75];
    assert_eq!(nearest_step(&step, 0), 15);
    assert_eq!(nearest_step(&step, 29), 15);
    assert_eq!(nearest_step(&step, 30), 15);
    assert_eq!(nearest_step(&step, 31), 45);
    assert_eq!(nearest_step(&step, 60), 45);
    assert_eq!(nearest_step(&step, 199), 75);
    assert_eq!(nearest_step(&vec![7], 3), 7);
}

#[test]
fn flattening_a_guess_takes_the_mean_of_the_neighbours() {
    let mut g = Guess::new(2);
    g.set(0, 0, 100);
    g.flatten();
    assert_eq!(g.field, vec![vec![500, 300], vec![300, 500]]);
    assert!(g.protected[0][0]);
}

#[test]
fn a_uniform_observation_gives_a_uniform_field() {
    let mut g = Guess::new(6);
    for &y in &[1usize, 4] {
        for &x in &[1usize, 4] {
            g.set(y, x, 120);
        }
    }
    g.guess(vec![1, 4]);
    assert_eq!(g.field, vec![vec![120; 6]; 6]);
}

#[test]
fn cells_take_the_cost_of_the_nearest_crossing() {
    let mut g = Guess::new(4);
    g.set(0, 0, 1000);
    g.set(0, 3, 2000);
    g.set(3, 0, 3000);
    g.set(3, 3, 4000);
    let mut h = g.clone();
    g.guess(vec![0, 3]);
    let spread = vec![
        vec![1000, 1000, 2000, 2000],
        vec![1000, 1000, 2000, 2000],
        vec![3000, 3000, 4000, 4000],
        vec![3000, 3000, 4000, 4000],
    ];
    h.field = spread;
    for _ in 0..30 {
        h.flatten();
    }
    assert_eq!(g.field, h.field);
    let total: i32 = g.field.iter().map(|r| r.iter().sum::<i32>()).sum();
    assert!(total > 16 * 1000 && total < 16 * 4000);
}
