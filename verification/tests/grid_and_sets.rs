use excavation::grid::{contains_cell, convert_index, copy_cells, manhattan, neighbor};
use excavation::queue::MinQueue;
use excavation::union_find::UnionFind;

#[test]
fn convert_index_moves_inside_the_grid() {
    assert_eq!(convert_index(2, -1, 3, 0, 5), Some((1, 3)));
    assert_eq!(convert_index(2, 1, 3, 0, 5), Some((3, 3)));
    assert_eq!(convert_index(2, 0, 3, -1, 5), Some((2, 2)));
    assert_eq!(convert_index(2, 0, 3, 1, 5), Some((2, 4)));
    assert_eq!(convert_index(2, 0, 3, 0, 5), Some((2, 3)));
}

#[test]
fn convert_index_refuses_to_leave_the_grid() {
    assert_eq!(convert_index(0, -1, 0, 0, 5), None);
    assert_eq!(convert_index(4, 1, 0, 0, 5), None);
    assert_eq!(convert_index(0, 0, 0, -1, 5), None);
    assert_eq!(convert_index(0, 0, 4, 1, 5), None);
    assert_eq!(convert_index(0, 0, 0, 0, 0), None);
}

#[test]
fn convert_index_takes_long_moves() {
    assert_eq!(convert_index(1, 3, 4, -4, 5), Some((4, 0)));
    assert_eq!(convert_index(1, 4, 4, -4, 5), None);
    assert_eq!(convert_index(1, i32::MIN, 1, 0, 5), None);
    assert_eq!(convert_index(1, i32::MAX, 1, 0, 5), None);
}

#[test]
fn neighbors_come_up_down_left_right() {
    assert_eq!(neighbor((2, 2), 0, 5), Some((1, 2)));
    assert_eq!(neighbor((2, 2), 1, 5), Some((3, 2)));
    assert_eq!(neighbor((2, 2), 2, 5), Some((2, 1)));
    assert_eq!(neighbor((2, 2), 3, 5), Some((2, 3)));
    assert_eq!(neighbor((0, 0), 0, 5), None);
    assert_eq!(neighbor((0, 0), 2, 5), None);
    assert_eq!(neighbor((4, 4), 1, 5), None);
    assert_eq!(neighbor((4, 4), 3, 5), None);
}

#[test]
fn manhattan_adds_rows_and_columns() {
    assert_eq!(manhattan((0, 0), (4, 4)), 8);
    assert_eq!(manhattan((4, 1), (1, 3)), 5);
    assert_eq!(manhattan((3, 3), (3, 3)), 0);
}

#[test]
fn cells_are_found_and_copied() {
    let cells = vec![(1, 2), (3, 4)];
    assert!(contains_cell(&cells, (3, 4)));
    assert!(!contains_cell(&cells, (4, 3)));
    assert!(!contains_cell(&Vec::new(), (0, 0)));
    assert_eq!(copy_cells(&cells), cells);
}

#[test]
fn fresh_union_find_keeps_everyone_apart() {
    let mut uf = UnionFind::new(4);
    assert_eq!(uf.len(), 4);
    for a in 0..4 {
        assert_eq!(uf.leader(a), a);
        for b in 0..4 {
            assert_eq!(uf.same(a, b), a == b);
        }
    }
}

#[test]
fn merged_ids_stay_together_through_later_merges() {
    let mut uf = UnionFind::new(6);
    uf.merge(0, 1);
    assert!(uf.same(0, 1));
    uf.merge(2, 3);
    uf.merge(4, 5);
    uf.merge(1, 3);
    uf.merge(5, 0);
    assert!(uf.same(0, 1));
    assert!(uf.same(2, 3));
    assert!(uf.same(0, 3));
    assert!(uf.same(4, 2));
}

#[test]
fn merge_leaves_other_classes_alone() {
    let mut uf = UnionFind::new(5);
    uf.merge(0, 1);
    uf.merge(2, 3);
    assert!(!uf.same(0, 2));
    assert!(!uf.same(1, 3));
    assert!(!uf.same(4, 0));
    assert!(!uf.same(4, 3));
}

#[test]
fn the_larger_class_gives_the_leader() {
    let mut uf = UnionFind::new(5);
    assert_eq!(uf.merge(0, 1), 0);
    assert_eq!(uf.merge(2, 0), 0);
    assert_eq!(uf.merge(3, 4), 3);
    assert_eq!(uf.merge(4, 1), 0);
    for a in 0..5 {
        assert_eq!(uf.leader(a), 0);
    }
}

#[test]
fn merging_a_class_with_itself_changes_nothing() {
    let mut uf = UnionFind::new(3);
    assert_eq!(uf.merge(0, 1), 0);
    assert_eq!(uf.merge(1, 0), 0);
    assert_eq!(uf.merge(1, 1), 0);
    assert_eq!(uf.leader(0), 0);
    assert_eq!(uf.leader(1), 0);
    assert!(!uf.same(2, 0));
}

#[test]
fn queue_hands_out_least_keys_first() {
    let mut q = MinQueue::new();
    assert_eq!(q.len(), 0);
    assert_eq!(q.pop(), None);
    let keys = [7i64, 3, 9, 1, 5, 3, 8, 0, 2];
    for (i, k) in keys.iter().enumerate() {
        q.push(*k, (i, 0));
    }
    assert_eq!(q.len(), 9);
    let mut out = Vec::new();
    while let Some((k, _)) = q.pop() {
        out.push(k);
    }
    assert_eq!(out, vec![0, 1, 2, 3, 3, 5, 7, 8, 9]);
    assert_eq!(q.len(), 0);
}

#[test]
fn queue_keeps_the_cell_with_its_key() {
    let mut q = MinQueue::new();
    q.push(4, (1, 1));
    q.push(2, (2, 2));
    q.push(6, (3, 3));
    assert_eq!(q.pop(), Some((2, (2, 2))));
    q.push(1, (0, 0));
    assert_eq!(q.pop(), Some((1, (0, 0))));
    assert_eq!(q.pop(), Some((4, (1, 1))));
    assert_eq!(q.pop(), Some((6, (3, 3))));
    assert_eq!(q.pop(), None);
}
