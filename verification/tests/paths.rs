use excavation::field::Field;
use excavation::path::{shortest_path, shortest_paths};

fn uniform(n: usize, v: i64) -> Vec<Vec<i64>> {
    vec![vec![v; n]; n]
}

#[test]
fn opposite_corners_of_an_all_ones_grid_are_eight_apart() {
    let costs = uniform(5, 1);
    let (d, path) = shortest_path(&costs, 5, (0, 0), (4, 4));
    assert_eq!(d, 8);
    assert_eq!(path.len(), 9);
    assert_eq!(path[0], (4, 4));
    assert_eq!(path[8], (0, 0));
}

#[test]
fn ties_go_up_before_left() {
    let costs = uniform(5, 1);
    let (_, path) = shortest_path(&costs, 5, (0, 0), (4, 4));
    assert_eq!(
        path,
        vec![(4, 4), (3, 4), (2, 4), (1, 4), (0, 4), (0, 3), (0, 2), (0, 1), (0, 0)]
    );
    let (_, back) = shortest_path(&costs, 5, (4, 4), (0, 0));
    assert_eq!(
        back,
        vec![(0, 0), (1, 0), (2, 0), (3, 0), (4, 0), (4, 1), (4, 2), (4, 3), (4, 4)]
    );
}

#[test]
fn a_path_to_the_source_is_the_source_alone() {
    let costs = uniform(4, 3);
    let (d, path) = shortest_path(&costs, 4, (2, 1), (2, 1));
    assert_eq!(d, 0);
    assert_eq!(path, vec![(2, 1)]);
}

#[test]
fn the_source_cell_costs_nothing() {
    let mut costs = uniform(3, 1);
    costs[0][0] = 1000;
    let (d, _) = shortest_path(&costs, 3, (0, 0), (0, 2));
    assert_eq!(d, 2);
    let (d, _) = shortest_path(&costs, 3, (0, 2), (0, 0));
    assert_eq!(d, 1001);
}

#[test]
fn the_path_goes_round_a_wall() {
    let mut costs = uniform(3, 1);
    costs[0][1] = 50;
    costs[1][1] = 50;
    let (d, path) = shortest_path(&costs, 3, (0, 0), (0, 2));
    assert_eq!(d, 6);
    assert_eq!(
        path,
        vec![(0, 2), (1, 2), (2, 2), (2, 1), (2, 0), (1, 0), (0, 0)]
    );
}

#[test]
fn one_search_serves_many_targets() {
    let mut costs = uniform(3, 2);
    costs[1][1] = 7;
    let targets = vec![(2, 2), (0, 0), (1, 1), (0, 2)];
    let legs = shortest_paths(&costs, 3, (0, 0), &targets);
    assert_eq!(legs.len(), 4);
    assert_eq!(legs[0].0, 8);
    assert_eq!(legs[1], (0, vec![(0, 0)]));
    assert_eq!(legs[2].0, 9);
    assert_eq!(legs[2].1, vec![(1, 1), (0, 1), (0, 0)]);
    assert_eq!(legs[3], (4, vec![(0, 2), (0, 1), (0, 0)]));
    for (i, t) in targets.iter().enumerate() {
        let (d, path) = shortest_path(&costs, 3, (0, 0), *t);
        assert_eq!(d, legs[i].0);
        assert_eq!(path, legs[i].1);
    }
}

#[test]
fn no_targets_no_legs() {
    let costs = uniform(2, 1);
    assert!(shortest_paths(&costs, 2, (0, 0), &Vec::new()).is_empty());
}

#[test]
fn field_dijkstra_walks_over_the_estimates() {
    let mut f = Field::new(5, 1, 1, 1);
    for y in 0..5 {
        for x in 0..5 {
            f.set_estimate(y, x, 1);
        }
    }
    let (d, path) = f.dijkstra((0, 0), (4, 4));
    assert_eq!(d, 8);
    assert_eq!(path.len(), 9);
    f.set_estimate(3, 4, 10);
    f.set_estimate(4, 3, 20);
    let (d, path) = f.dijkstra((0, 0), (4, 4));
    assert_eq!(d, 17);
    assert_eq!(path[1], (3, 4));
}

#[test]
fn field_dijkstra_vec_counts_what_is_left() {
    let mut f = Field::new(3, 1, 1, 4);
    for y in 0..3 {
        for x in 0..3 {
            f.set_estimate(y, x, 10);
        }
    }
    let costs = f.net_costs();
    assert_eq!(costs, vec![vec![10i64; 3]; 3]);
    assert_eq!(f.query(0, 1, 7, 0), Ok(excavation::probe::Response::NotBroken));
    assert_eq!(f.query(1, 1, 30, 1), Ok(excavation::probe::Response::Broken));
    let costs = f.net_costs();
    assert_eq!(costs[0][1], 3);
    assert_eq!(costs[1][1], 1);
    let legs = f.dijkstra_vec((0, 0), &vec![(0, 2), (2, 2)]);
    assert_eq!(legs[0], (13, vec![(0, 2), (0, 1), (0, 0)]));
    assert_eq!(legs[1].0, 24);
    assert_eq!(legs[1].1, vec![(2, 2), (1, 2), (1, 1), (0, 1), (0, 0)]);
}

#[test]
fn the_round_trip_holds_for_the_net_costs_too() {
    let mut f = Field::new(5, 1, 1, 1);
    for y in 0..5 {
        for x in 0..5 {
            f.set_estimate(y, x, 1);
        }
    }
    let legs = f.dijkstra_vec((0, 0), &vec![(4, 4)]);
    assert_eq!(legs.len(), 1);
    assert_eq!(legs[0].0, 8);
    assert_eq!(legs[0].1.len(), 9);
    assert_eq!(legs[0].1[0], (4, 4));
    assert_eq!(legs[0].1[8], (0, 0));
}

#[test]
fn a_new_field_has_paths_too() {
    let f = Field::new(5, 1, 1, 1);
    assert_eq!(f.dijkstra((2, 2), (2, 2)), (0, vec![(2, 2)]));
    let (d, path) = f.dijkstra((0, 0), (4, 4));
    assert_eq!(d, 8);
    assert_eq!(path.len(), 9);
    assert_eq!(f.raw_costs(), vec![vec![1i64; 5]; 5]);
}

#[test]
fn raw_costs_are_the_estimates() {
    let mut f = Field::new(2, 1, 1, 1);
    f.set_estimate(0, 0, 3);
    f.set_estimate(0, 1, 4);
    f.set_estimate(1, 0, 5);
    f.set_estimate(1, 1, 6);
    assert_eq!(f.raw_costs(), vec![vec![3i64, 4], vec![5, 6]]);
}
