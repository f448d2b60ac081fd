use excavation::estimate::{dedup_cells, lattice_axis, lattice_points, nearest, standard_lattice, Lattice};
use excavation::field::Field;
use excavation::smoothing::smooth;

#[test]
fn the_earliest_of_the_nearest_cells_wins() {
    let cells = vec![(0, 0), (4, 4), (0, 4), (4, 0)];
    assert_eq!(nearest(&cells, (2, 2), 5), (0, 4));
    assert_eq!(nearest(&cells, (3, 3), 5), (1, 2));
    assert_eq!(nearest(&cells, (0, 3), 5), (2, 1));
    assert_eq!(nearest(&cells, (2, 4), 5), (1, 2));
    assert_eq!(nearest(&cells, (4, 0), 5), (3, 0));
    assert_eq!(nearest(&vec![(1, 1), (1, 1)], (1, 1), 5), (0, 0));
}

#[test]
fn cells_are_kept_once_in_their_first_order() {
    let cells = vec![(1, 1), (0, 2), (1, 1), (2, 2), (0, 2), (1, 1), (3, 0)];
    assert_eq!(dedup_cells(&cells, 4), vec![(1, 1), (0, 2), (2, 2), (3, 0)]);
    assert_eq!(dedup_cells(&Vec::new(), 4), Vec::new());
}

#[test]
fn the_lattice_starts_at_eight_and_steps_by_twelve() {
    let l = standard_lattice();
    assert_eq!(l, Lattice { start: 8, stride: 12, chequered: true });
    assert!(lattice_points(8, l).is_empty());
    assert!(lattice_points(0, l).is_empty());
    assert_eq!(lattice_points(9, l), vec![((8, 8), true)]);
    assert_eq!(lattice_points(20, l), vec![((8, 8), true)]);
    assert_eq!(
        lattice_points(21, l),
        vec![((8, 8), true), ((8, 20), false), ((20, 8), false), ((20, 20), true)]
    );
    let big = lattice_points(200, l);
    assert_eq!(big.len(), 256);
    assert_eq!(big[255], ((188, 188), true));
    assert_eq!(big[17], ((20, 20), true));
    assert_eq!(big.iter().filter(|p| p.1).count(), 128);
}

#[test]
fn a_lattice_can_be_laid_out_otherwise() {
    let l = Lattice { start: 10, stride: 20, chequered: false };
    assert_eq!(lattice_axis(200, l), vec![10, 30, 50, 70, 90, 110, 130, 150, 170, 190]);
    assert_eq!(lattice_axis(10, l), Vec::<usize>::new());
    assert_eq!(lattice_axis(11, l), vec![10]);
    let points = lattice_points(31, l);
    assert_eq!(
        points,
        vec![((10, 10), true), ((10, 30), true), ((30, 10), true), ((30, 30), true)]
    );
    let wide = Lattice { start: 3, stride: usize::MAX, chequered: true };
    assert_eq!(lattice_axis(5, wide), vec![3]);
    let mut f = excavation::field::Field::new(40, 1, 1, 1);
    let plan = f.guess_field(&vec![(0, 0)], &vec![(39, 39)], l);
    assert_eq!(f.sampling.len(), 2 + 4);
    assert_eq!(plan.jobs, vec![(0, 0), (39, 39), (10, 10), (10, 30), (30, 10), (30, 30)]);
}

#[test]
fn smoothing_takes_the_mean_of_the_neighbours() {
    let g = vec![vec![1, 2, 3], vec![4, 5, 6], vec![7, 8, 10]];
    let h = smooth(&g, 3);
    assert_eq!(h, vec![vec![3, 3, 4], vec![4, 5, 6], vec![6, 7, 7]]);
    let two = smooth(&vec![vec![0, 9], vec![4, 100]], 2);
    assert_eq!(two, vec![vec![6, 50], vec![50, 6]]);
}

#[test]
fn one_round_of_smoothing_on_the_field() {
    let mut f = Field::new(3, 1, 1, 1);
    f.set_estimate(1, 1, 90);
    f.guess_flatten();
    assert_eq!(f.guess, vec![vec![0, 30, 0], vec![30, 0, 30], vec![0, 30, 0]]);
    f.smooth_rounds(1);
    assert_eq!(f.guess, vec![vec![30, 0, 30], vec![0, 30, 0], vec![30, 0, 30]]);
    f.smooth_rounds(2);
    assert_eq!(f.guess, vec![vec![30, 0, 30], vec![0, 30, 0], vec![30, 0, 30]]);
    let before = f.guess.clone();
    f.smooth_rounds(0);
    assert_eq!(f.guess, before);
}

#[test]
fn estimates_spread_from_the_nearest_anchor() {
    let mut f = Field::new(4, 1, 1, 1);
    f.set_estimate(0, 0, 100);
    f.set_estimate(3, 3, 200);
    f.set_estimate(1, 2, 7);
    f.fill_nearest(&vec![(0, 0), (3, 3)]);
    assert_eq!(
        f.guess,
        vec![
            vec![100, 100, 100, 100],
            vec![100, 100, 100, 200],
            vec![100, 100, 200, 200],
            vec![100, 200, 200, 200],
        ]
    );
}

#[test]
fn on_a_small_grid_the_landmarks_are_the_terminals() {
    let mut f = Field::new(5, 1, 1, 1);
    let plan = f.guess_field_init(&vec![(0, 0)], &vec![(4, 4)]);
    assert_eq!(f.sampling, vec![(0, 0), (4, 4)]);
    assert_eq!(f.sources_idx, vec![0]);
    assert_eq!(f.houses_idx, vec![1]);
    assert_eq!(plan.anchors, vec![(0, 0), (4, 4)]);
    assert_eq!(plan.jobs, vec![(0, 0), (4, 4)]);
    assert!(plan.hard.is_empty());
}

#[test]
fn every_other_lattice_point_is_surveyed() {
    let mut f = Field::new(30, 1, 1, 1);
    let plan = f.guess_field_init(&vec![(0, 0)], &vec![(29, 29)]);
    assert_eq!(
        f.sampling,
        vec![(0, 0), (29, 29), (8, 8), (8, 20), (20, 8), (20, 20)]
    );
    assert_eq!(plan.jobs, vec![(0, 0), (29, 29), (8, 8), (20, 20)]);
    assert_eq!(plan.anchors, plan.jobs);
    assert!(plan.hard.is_empty());
}

#[test]
fn a_lattice_point_next_to_a_surveyed_cell_is_left_out() {
    let mut f = Field::new(30, 1, 1, 1);
    let plan = f.guess_field_init(&vec![(0, 0)], &vec![(8, 10), (17, 22)]);
    assert_eq!(plan.jobs, vec![(0, 0), (8, 10), (17, 22)]);
    assert_eq!(plan.anchors, plan.jobs);
    assert_eq!(f.sampling.len(), 7);
    assert_eq!(f.houses_idx, vec![1, 2]);
}

#[test]
fn remote_lattice_points_count_as_hard() {
    let mut f = Field::new(200, 1, 1, 1);
    let plan = f.guess_field_init(&vec![(0, 0)], &vec![(0, 1)]);
    assert_eq!(f.sampling.len(), 2 + 256);
    assert_eq!(plan.anchors.len(), 2 + 128);
    assert_eq!(plan.jobs.len() + plan.hard.len(), 2 + 128);
    assert!(plan.jobs.contains(&(8, 8)));
    assert!(plan.jobs.contains(&(32, 32)));
    assert!(plan.hard.contains(&(44, 44)));
    assert!(plan.hard.contains(&(188, 188)));
    assert!(plan.jobs.contains(&(8, 56)));
    assert!(plan.hard.contains(&(8, 80)));
    for &(y, x) in &plan.hard {
        assert_eq!(f.estimate_at(y, x), 4500);
    }
    for &(y, x) in &plan.jobs {
        assert_eq!(f.estimate_at(y, x), 0);
    }
}

#[test]
fn landmarks_near_the_network_are_surveyed_again() {
    let mut f = Field::new(40, 1, 1, 1);
    let _ = f.guess_field_init(&vec![(0, 0)], &vec![(0, 39)]);
    f.rebuild_chart();
    let s = f.generate_init_state();
    assert_eq!(s.edges, vec![(1, 0)]);
    let jobs = f.guess_field_update(&s);
    assert_eq!(jobs, vec![(0, 0), (0, 39), (8, 8), (8, 20), (8, 32)]);
    let none = excavation::network::State::new(&s.keys, &Vec::new());
    assert!(f.guess_field_update(&none).is_empty());
}

#[test]
fn the_table_of_legs_covers_every_pair() {
    let mut f = Field::new(5, 1, 1, 3);
    let _ = f.guess_field_init(&vec![(0, 0)], &vec![(4, 4), (2, 2)]);
    f.rebuild_chart();
    assert_eq!(f.dist_path.len(), 3);
    for i in 0..3 {
        assert_eq!(f.dist_path[i].len(), 3);
        assert_eq!(f.dist_path[i][i], (0, vec![f.sampling[i]]));
        for j in 0..3 {
            let leg = &f.dist_path[i][j];
            assert_eq!(leg.1[0], f.sampling[j]);
            assert_eq!(leg.1[leg.1.len() - 1], f.sampling[i]);
            assert_eq!(leg.0, leg.1.len() as i64 - 1);
            assert_eq!(leg.0, f.dist_path[j][i].0);
        }
    }
    assert_eq!(f.dist_path[0][1].0, 8);
    assert_eq!(f.dist_path[0][2].0, 4);
}
