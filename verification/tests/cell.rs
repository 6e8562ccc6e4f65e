use std::collections::HashSet;
use sudoku_solver::objects::cell::Cell;
use sudoku_solver::objects::traits::Candidate;
use sudoku_solver::traits::Identifiable;

fn check_new_with_value(input: u8) {
    let expected_variants = vec![input];

    let cell = Cell::new(1, Some(input), expected_variants.clone());

    assert_eq!(cell.id(), 1);
    assert_eq!(cell.get_value(), Some(input));
    assert_eq!(cell.variants(), expected_variants);
    assert!(cell.is_solved());
}

#[test]
fn test_new_with_value_one() {
    check_new_with_value(1);
}

#[test]
fn test_new_with_value_two() {
    check_new_with_value(2);
}

#[test]
fn test_new_with_value_three() {
    check_new_with_value(81);
}

#[test]
fn test_new_without_value() {
    let fake_variants = vec![1, 2, 3];

    let cell = Cell::new(1, None, fake_variants.clone());

    assert_eq!(cell.id(), 1);
    assert_eq!(cell.get_value(), None);
    assert_eq!(cell.variants(), fake_variants);
    assert!(!cell.is_solved());
}

#[test]
fn test_new_has_no_groups() {
    let cell = Cell::new(7, None, vec![1, 2]);

    assert_eq!(cell.row(), None);
    assert_eq!(cell.column(), None);
    assert_eq!(cell.area(), None);
}

#[test]
fn test_set_groups() {
    let mut cell = Cell::new(7, None, vec![1, 2]);

    cell.set_row(0);
    cell.set_column(6);
    cell.set_area(2);

    assert_eq!(cell.row(), Some(0));
    assert_eq!(cell.column(), Some(6));
    assert_eq!(cell.area(), Some(2));
    assert_eq!(cell.id(), 7);
    assert_eq!(cell.variants(), vec![1, 2]);
}

#[test]
fn test_get_value() {
    let fake_value = 2;

    let cell = Cell::new(1, Some(fake_value), vec![fake_value]);

    let val = cell.get_value();
    assert_eq!(val, Some(fake_value));
}

fn check_set_value_ignored(input: u8) {
    let fake_value = 1;

    let mut cell = Cell::new(1, Some(fake_value), vec![input]);

    cell.set_value(Some(input));
    assert_eq!(cell.get_value(), Some(fake_value));
    assert_eq!(cell.variants(), vec![input]);
}

#[test]
fn test_set_value_ignored_one() {
    check_set_value_ignored(1);
}

#[test]
fn test_set_value_ignored_nine() {
    check_set_value_ignored(9);
}

#[test]
fn test_set_value_ignored_none() {
    let mut cell = Cell::new(1, None, (1..9).collect());

    cell.set_value(None);

    assert_eq!(cell.get_value(), None);
}

#[test]
fn test_set_value_none_resets_candidates() {
    let mut cell = Cell::new(1, None, (1..9).collect());

    cell.set_value(None);

    assert_eq!(cell.variants(), vec![1, 2, 3, 4, 5, 6, 7, 8, 9]);
}

fn check_set_value_none_ignored(input: u8) {
    let mut cell = Cell::new(1, Some(input), vec![input]);

    cell.set_value(None);

    assert_eq!(cell.get_value(), Some(input));
}

#[test]
fn test_set_value_none_ignored_one() {
    check_set_value_none_ignored(1);
}

#[test]
fn test_set_value_none_ignored_nine() {
    check_set_value_none_ignored(9);
}

fn check_set_value(input: u8) {
    let mut cell = Cell::new(1, None, vec![input]);

    cell.set_value(Some(input));

    assert_eq!(cell.get_value(), Some(input));
}

#[test]
fn test_set_value_one() {
    check_set_value(1);
}

#[test]
fn test_set_value_nine() {
    check_set_value(6);
}

#[test]
fn test_set_value_collapses_candidates() {
    let mut cell = Cell::new(1, None, vec![1, 2, 3, 4, 5, 6, 7, 8, 9]);

    cell.set_value(Some(4));

    assert_eq!(cell.get_value(), Some(4));
    assert_eq!(cell.variants(), vec![4]);
}

#[test]
fn test_latest_candidate() {
    let expected_value = 1;
    let fake_variants = vec![expected_value, 2, 3, 4];

    let mut cell = Cell::new(1, None, fake_variants);

    assert_eq!(cell.get_value(), None);

    cell.exclude_values(vec![2, 3, 4].clone());

    assert_eq!(cell.get_value(), Some(expected_value));
}

#[test]
fn test_exclude_values_reports_settling() {
    let mut cell = Cell::new(1, None, vec![1, 2, 3, 4]);

    assert!(!cell.exclude_values(vec![2, 3]));
    assert_eq!(cell.get_value(), None);
    assert_eq!(cell.variants(), vec![1, 4]);

    assert!(cell.exclude_values(vec![4, 7]));
    assert_eq!(cell.get_value(), Some(1));
    assert_eq!(cell.variants(), vec![1]);
}

#[test]
fn test_exclude_values_keeps_order() {
    let mut cell = Cell::new(1, None, vec![9, 3, 5, 1, 7]);

    cell.exclude_values(vec![5, 9]);

    assert_eq!(cell.variants(), vec![3, 1, 7]);
}

#[test]
fn test_exclude_value_single_digit() {
    let mut cell = Cell::new(1, None, vec![4, 6]);

    assert!(!cell.exclude_value(5));
    assert_eq!(cell.variants(), vec![4, 6]);
    assert!(cell.exclude_value(6));
    assert_eq!(cell.get_value(), Some(4));
}

#[test]
fn test_exclude_values_from_hash_set() {
    let mut cell = Cell::new(1, None, vec![1, 2, 3, 4, 5, 6, 7, 8, 9]);
    let mut gone: HashSet<u8> = HashSet::new();
    gone.insert(1);
    gone.insert(2);
    gone.insert(8);

    assert!(!cell.exclude_values(gone));

    assert_eq!(cell.variants(), vec![3, 4, 5, 6, 7, 9]);
}

#[test]
fn test_exclude_values_can_empty_the_candidates() {
    let mut cell = Cell::new(1, None, vec![2, 3]);

    assert!(!cell.exclude_values(vec![2, 3]));

    assert_eq!(cell.get_value(), None);
    assert!(cell.variants().is_empty());
}

#[test]
fn test_exclusion_leaves_a_solved_cell_alone() {
    let mut cell = Cell::new(1, Some(5), vec![5]);

    assert!(!cell.exclude_values(vec![1, 2, 3]));
    assert_eq!(cell.get_value(), Some(5));
    assert_eq!(cell.variants(), vec![5]);

    assert!(!cell.exclude_values(vec![5]));
    assert_eq!(cell.get_value(), Some(5));
    assert_eq!(cell.variants(), vec![5]);

    assert!(!cell.exclude_value(5));
    assert_eq!(cell.get_value(), Some(5));
    assert_eq!(cell.variants(), vec![5]);

    let mut gone: HashSet<u8> = HashSet::new();
    gone.insert(5);
    assert!(!cell.exclude_values(gone));
    assert_eq!(cell.get_value(), Some(5));
    assert_eq!(cell.variants(), vec![5]);
}

#[test]
fn test_to_candidates() {
    assert_eq!(7u8.to_candidates(), vec![7]);
    assert_eq!(vec![3u8, 1, 3].to_candidates(), vec![3, 1, 3]);
    let mut set: HashSet<u8> = HashSet::new();
    set.insert(4);
    set.insert(2);
    let mut listed = set.to_candidates();
    listed.sort();
    assert_eq!(listed, vec![2, 4]);
}

#[test]
fn test_cells_are_equal_by_value() {
    let a = Cell::new(1, Some(3), vec![3]);
    let b = Cell::new(2, Some(3), vec![3, 4]);
    let c = Cell::new(1, None, vec![3]);
    let d = Cell::new(9, None, vec![1, 2]);

    assert!(a == b);
    assert!(a != c);
    assert!(c == d);
}

#[test]
fn test_exclusion_never_changes_a_value() {
    let mut cell = Cell::new(1, Some(1), vec![2]);

    assert!(!cell.exclude_value(3));

    assert_eq!(cell.get_value(), Some(1));
    assert_eq!(cell.variants(), vec![2]);

    let mut other = Cell::new(1, Some(1), vec![9, 3]);
    assert!(!other.exclude_value(3));
    assert_eq!(other.get_value(), Some(1));
    assert_eq!(other.variants(), vec![9, 3]);
}
