use excavation::field::Field;
use excavation::network::{reaches_source, State};
use excavation::union_find::UnionFind;

fn charted(n: usize, sources: Vec<(usize, usize)>, houses: Vec<(usize, usize)>) -> Field {
    let mut f = Field::new(n, sources.len(), houses.len(), 1);
    let _ = f.guess_field_init(&sources, &houses);
    f.rebuild_chart();
    f
}

#[test]
fn the_first_network_takes_the_nearest_pairs_first() {
    let f = charted(5, vec![(0, 0)], vec![(4, 4), (0, 4)]);
    assert_eq!(f.sampling, vec![(0, 0), (4, 4), (0, 4)]);
    assert_eq!(f.sources_idx, vec![0]);
    assert_eq!(f.houses_idx, vec![1, 2]);
    assert_eq!(f.dist_path[0][1].0, 8);
    assert_eq!(f.dist_path[0][2].0, 4);
    assert_eq!(f.dist_path[1][2].0, 4);
    let mut s = f.generate_init_state();
    assert_eq!(s.keys, vec![1, 2, 0]);
    assert_eq!(s.edges, vec![(1, 2), (2, 0)]);
    assert_eq!(s.score, None);
    assert_eq!(f.state_score(&mut s), 8);
    assert_eq!(s.score, Some(8));
    assert!(s.check(&f.sources_idx, &f.houses_idx, f.sampling.len()));
}

#[test]
fn two_trees_with_water_are_not_joined() {
    let f = charted(5, vec![(0, 0), (4, 4)], vec![(2, 2)]);
    assert_eq!(f.sources_idx, vec![0, 1]);
    assert_eq!(f.houses_idx, vec![2]);
    let s = f.generate_init_state();
    assert_eq!(s.keys, vec![2, 0, 1]);
    assert_eq!(s.edges, vec![(2, 0)]);
    assert!(s.check(&f.sources_idx, &f.houses_idx, 3));
}

#[test]
fn every_house_reaches_a_source() {
    let f = charted(
        30,
        vec![(0, 0), (29, 0)],
        vec![(10, 10), (3, 25), (28, 28), (15, 2), (20, 20)],
    );
    let s = f.generate_init_state();
    assert!(s.check(&f.sources_idx, &f.houses_idx, f.sampling.len()));
    let mut keys = s.keys.clone();
    for id in 0..f.sampling.len() {
        if !keys.contains(&id) {
            keys.push(id);
        }
    }
    let t = f.state_generate(&keys);
    assert_eq!(t.keys, keys);
    assert!(t.check(&f.sources_idx, &f.houses_idx, f.sampling.len()));
    assert!(t.edges.len() < f.sampling.len());
}

#[test]
fn a_network_without_legs_leaves_the_houses_dry() {
    let s = State::new(&vec![0, 1], &Vec::new());
    assert!(!s.check(&vec![0], &vec![1], 2));
    assert!(s.check(&vec![0], &Vec::new(), 2));
    assert!(s.check(&vec![0], &vec![0], 2));
    assert!(!s.check(&Vec::new(), &vec![1], 2));
    let t = State::new(&vec![0, 1, 2], &vec![(2, 1), (1, 0)]);
    assert!(t.check(&vec![0], &vec![2], 3));
    assert!(t.check(&vec![0], &vec![2, 1], 3));
    let u = State::new(&vec![0, 1, 2], &vec![(2, 1), (1, 2)]);
    assert!(!u.check(&vec![0], &vec![2], 3));
}

#[test]
fn a_copy_of_a_network_is_not_scored() {
    let f = charted(5, vec![(0, 0)], vec![(4, 4)]);
    let mut s = f.generate_init_state();
    assert_eq!(f.state_score(&mut s), 8);
    let c = s.clone();
    assert_eq!(c.keys, s.keys);
    assert_eq!(c.edges, s.edges);
    assert_eq!(c.score, None);
    assert_eq!(s.score, Some(8));
}

#[test]
fn a_kept_score_is_handed_out_again() {
    let f = charted(5, vec![(0, 0)], vec![(4, 4)]);
    let mut s = State::new(&vec![1, 0], &vec![(1, 0)]);
    s.score = Some(3);
    assert_eq!(f.state_score(&mut s), 3);
    let mut e = State::new(&vec![1, 0], &Vec::new());
    assert_eq!(f.state_score(&mut e), 0);
}

#[test]
fn a_class_reaches_a_source_through_its_members() {
    let mut uf = UnionFind::new(4);
    uf.merge(1, 2);
    assert!(reaches_source(&mut uf, &vec![2], 1));
    assert!(reaches_source(&mut uf, &vec![0, 2], 2));
    assert!(!reaches_source(&mut uf, &vec![0], 1));
    assert!(!reaches_source(&mut uf, &Vec::new(), 1));
    assert!(reaches_source(&mut uf, &vec![3], 3));
}

#[test]
fn the_cells_of_a_network_are_dug_once() {
    let f = charted(5, vec![(0, 0)], vec![(4, 4), (0, 4)]);
    let s = f.generate_init_state();
    let cells = f.network_cells(&s);
    assert_eq!(
        cells,
        vec![(0, 4), (1, 4), (2, 4), (3, 4), (4, 4), (0, 0), (0, 1), (0, 2), (0, 3), (0, 4)]
    );
    let dug = f.done(&s);
    assert_eq!(
        dug,
        vec![(0, 4), (1, 4), (2, 4), (3, 4), (4, 4), (0, 0), (0, 1), (0, 2), (0, 3)]
    );
    for (i, c) in dug.iter().enumerate() {
        assert!(cells.contains(c));
        assert!(!dug[..i].contains(c));
    }
    let dry = State::new(&vec![1, 2, 0], &vec![(1, 2)]);
    assert!(!dry.check(&f.sources_idx, &f.houses_idx, f.sampling.len()));
}
