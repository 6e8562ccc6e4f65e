use sudoku_solver::helpers::has_duplicate_values;
use sudoku_solver::objects::area::Area;
use sudoku_solver::objects::cell::Cell;
use sudoku_solver::objects::line::{Alignment, Line};
use sudoku_solver::traits::{HasCells, Identifiable};

fn nine_cells(values: [Option<u8>; 9]) -> Vec<Cell> {
    let mut cells = Vec::with_capacity(9);
    for (k, value) in values.iter().enumerate() {
        let variants = match value {
            Some(v) => vec![*v],
            None => vec![1, 2, 3, 4, 5, 6, 7, 8, 9],
        };
        cells.push(Cell::new(k + 1, *value, variants));
    }
    cells
}

#[test]
fn test_is_solved_true() {
    let mut cells = Vec::with_capacity(9);
    let variants = vec![1, 2, 3, 4, 5, 6, 7, 8, 9];
    for val in 1..=9 {
        cells.push(Cell::new(val, Some(val as u8), variants.clone()))
    }
    let line = Line::new(1, Alignment::Row, (0..9).collect(), &cells);
    assert!(line.is_solved(&cells));
}

#[test]
fn test_is_solved_false() {
    let cells = nine_cells([Some(1), Some(2), None, Some(4), Some(5), Some(6), Some(7), Some(8), Some(9)]);
    let line = Line::new(4, Alignment::Column, (0..9).collect(), &cells);
    assert!(!line.is_solved(&cells));
    assert_eq!(line.id(), 4);
    assert_eq!(line.alignment(), Alignment::Column);
    assert_eq!(line.cells(), &vec![0, 1, 2, 3, 4, 5, 6, 7, 8]);
}

#[test]
fn test_solved_and_unsolved_cells_keep_order() {
    let cells = nine_cells([Some(5), None, Some(3), None, None, Some(7), None, Some(1), None]);
    let line = Line::new(1, Alignment::Row, vec![8, 7, 6, 5, 4, 3, 2, 1, 0], &cells);
    assert_eq!(line.solved_cells(&cells), vec![7, 5, 2, 0]);
    assert_eq!(line.unsolved_cells(&cells), vec![8, 6, 4, 3, 1]);
}

#[test]
fn test_has_duplicate_values() {
    let cells = nine_cells([Some(5), None, Some(3), None, None, Some(5), None, Some(1), None]);
    assert!(has_duplicate_values(&(0..9).collect(), &cells));
    assert!(!has_duplicate_values(&vec![0, 1, 2, 3, 4], &cells));
    assert!(!has_duplicate_values(&vec![1, 3, 4, 6, 8], &cells));
    assert!(has_duplicate_values(&vec![5, 0], &cells));
    assert!(!has_duplicate_values(&Vec::new(), &cells));
}

#[test]
fn test_a_cell_listed_twice_is_a_duplicate() {
    let cells = nine_cells([Some(5), None, Some(3), None, None, None, None, None, None]);
    assert!(has_duplicate_values(&vec![0, 0], &cells));
    assert!(!has_duplicate_values(&vec![1, 1], &cells));
}

#[test]
fn test_area_is_solved() {
    let solved = nine_cells([Some(9), Some(8), Some(7), Some(6), Some(5), Some(4), Some(3), Some(2), Some(1)]);
    let area = Area::new(3, (0..9).collect(), &solved);
    assert!(area.is_solved(&solved));
    assert_eq!(area.id(), 3);
    assert_eq!(area.cells().len(), 9);

    let open = nine_cells([Some(9), Some(8), Some(7), Some(6), None, Some(4), Some(3), Some(2), Some(1)]);
    let area = Area::new(3, (0..9).collect(), &open);
    assert!(!area.is_solved(&open));
}
