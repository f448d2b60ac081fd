use excavation::cells::State;
use excavation::field::Field;
use excavation::flood::flood;

fn ones(n: usize) -> Field {
    let mut f = Field::new(n, 1, 1, 1);
    for y in 0..n {
        for x in 0..n {
            f.set_estimate(y, x, 1);
        }
    }
    f
}

fn marks(rows: &[&str]) -> Vec<Vec<bool>> {
    rows.iter().map(|r| r.chars().map(|c| c == '#').collect()).collect()
}

#[test]
fn a_flood_lists_what_can_be_reached() {
    let open = marks(&["##..", ".#.#", ".#.#", "...#"]);
    assert_eq!(flood(&open, 4, (0, 0)), vec![(0, 0), (0, 1), (1, 1), (2, 1)]);
    assert_eq!(flood(&open, 4, (2, 1)), vec![(2, 1), (1, 1), (0, 1), (0, 0)]);
    assert_eq!(flood(&open, 4, (2, 3)), vec![(2, 3), (1, 3), (3, 3)]);
    let one = marks(&["#"]);
    assert_eq!(flood(&one, 1, (0, 0)), vec![(0, 0)]);
    let all = marks(&["###", "###", "###"]);
    let cells = flood(&all, 3, (1, 1));
    assert_eq!(cells.len(), 9);
    assert_eq!(&cells[..5], &[(1, 1), (0, 1), (2, 1), (1, 0), (1, 2)]);
}

#[test]
fn a_new_plan_marks_nothing() {
    let f = ones(5);
    let s = State::new(&vec![(0, 0)], &vec![(4, 4)], &f);
    assert_eq!(s.sources, vec![(0, 0)]);
    assert_eq!(s.houses, vec![(4, 4)]);
    assert_eq!(s.destructive, vec![vec![false; 5]; 5]);
    assert_eq!(s.score, None);
    assert!(s.done(&f).is_empty());
    assert!(s.is_house_or_source(0, 0));
    assert!(s.is_house_or_source(4, 4));
    assert!(!s.is_house_or_source(0, 4));
}

#[test]
fn the_first_plan_marks_the_path_from_the_house_to_the_source() {
    let f = ones(5);
    let mut s = State::new(&vec![(0, 0)], &vec![(4, 4)], &f);
    s.init_state(&f);
    assert_eq!(
        s.destructive,
        marks(&["#....", "#....", "#....", "#....", "#####"])
    );
    assert_eq!(s.score(&f), 9);
    assert_eq!(s.score, Some(9));
    assert_eq!(
        s.done(&f),
        vec![(0, 0), (1, 0), (2, 0), (3, 0), (4, 0), (4, 1), (4, 2), (4, 3), (4, 4)]
    );
    let c = s.clone();
    assert_eq!(c.destructive, s.destructive);
    assert_eq!(c.score, None);
}

#[test]
fn the_plan_follows_cheap_ground() {
    let mut f = ones(4);
    for y in 0..4 {
        for x in 0..4 {
            f.set_estimate(y, x, 9);
        }
    }
    for &(y, x) in &[(0, 1), (1, 1), (2, 1), (2, 2), (2, 3), (3, 3)] {
        f.set_estimate(y, x, 2);
    }
    let mut s = State::new(&vec![(0, 0)], &vec![(3, 3), (0, 3)], &f);
    s.init_state(&f);
    assert_eq!(s.destructive, marks(&["##.#", ".#.#", ".###", "...#"]));
    assert_eq!(s.score(&f), 9 + 2 * 6 + 9 + 9);
    assert_eq!(s.score(&f), 39);
}

#[test]
fn a_kept_score_of_a_plan_is_handed_out_again() {
    let f = ones(3);
    let mut s = State::new(&vec![(0, 0)], &vec![(2, 2)], &f);
    s.score = Some(77);
    assert_eq!(s.score(&f), 77);
    let mut t = State::new(&vec![(0, 0)], &vec![(2, 2)], &f);
    assert_eq!(t.score(&f), 0);
}

#[test]
fn every_marked_cell_is_dug_once() {
    let f = ones(4);
    let mut s = State::new(&vec![(0, 0)], &vec![(3, 3)], &f);
    s.destructive = marks(&["#..#", "##.#", "....", ".##."]);
    assert_eq!(
        s.done(&f),
        vec![(0, 0), (1, 0), (1, 1), (0, 3), (1, 3), (3, 1), (3, 2)]
    );
}

#[test]
fn a_piece_between_the_terminals_is_given_up() {
    let f = ones(5);
    let mut s = State::new(&vec![(0, 0)], &vec![(4, 4)], &f);
    s.init_state(&f);
    let mut t = s.clone();
    t.clear_from((2, 0));
    assert_eq!(
        t.destructive,
        marks(&["#....", ".....", ".....", ".....", "....#"])
    );
    let mut u = s.clone();
    u.destruct();
    assert_eq!(u.destructive, t.destructive);
    let mut v = s.clone();
    v.claim(&f);
    assert_eq!(v.destructive, t.destructive);
    assert_eq!(s.soft_cells().len(), 7);
    assert!(t.soft_cells().is_empty());
}

#[test]
fn giving_up_a_piece_leaves_the_other_pieces() {
    let f = ones(5);
    let mut s = State::new(&vec![(2, 2)], &vec![(0, 0)], &f);
    s.destructive = marks(&["###..", "..#..", "..##.", "....#", "..###"]);
    let mut a = s.clone();
    a.clear_from((0, 1));
    assert_eq!(a.destructive, marks(&["#....", ".....", "..##.", "....#", "..###"]));
    let mut b = s.clone();
    b.clear_from((2, 3));
    assert_eq!(b.destructive, marks(&["###..", "..#..", "..#..", "....#", "..###"]));
    let mut c = s.clone();
    c.clear_from((4, 2));
    assert_eq!(c.destructive, marks(&["###..", "..#..", "..##.", ".....", "....."]));
    let mut d = s.clone();
    d.destruct();
    assert!(d.destructive == a.destructive || d.destructive == b.destructive || d.destructive == c.destructive);
}

#[test]
fn constructing_changes_nothing() {
    let f = ones(5);
    let mut s = State::new(&vec![(0, 0)], &vec![(4, 4)], &f);
    s.init_state(&f);
    let before = s.destructive.clone();
    s.construct(&f);
    assert_eq!(s.destructive, before);
}
